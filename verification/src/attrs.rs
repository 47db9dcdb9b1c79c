//! The three annotations that this crate interprets: the list of types to
//! convert from, the content that depends on the copy, and the names of the
//! copies.

use vstd::prelude::*;
use crate::diagnostic::{Diagnostic, ErrorKind};
use crate::fold::{
    keeping,
    lemma_try_map_step,
    lemma_walk_end,
    lemma_walk_failed,
    models,
    try_filter_map,
    try_map,
};
use crate::syntax::{
    parse_entries,
    parse_ident,
    parse_paths,
    parsed_entries,
    parsed_ident,
    parsed_paths,
    Entry,
    EntryModel,
    TypeRef,
    TypeRefModel,
};
use crate::tree::{from_tag, mux_tag, names_tag, Annotation, AnnotationModel, Form, Position};

verus! {

/// A list of `(key, value)` pairs in source order.
pub type Pairs = Seq<(Seq<char>, Seq<char>)>;

/// Whether `i` is the first place in `entries` that holds `key`.
pub open spec fn is_first_match(entries: Pairs, key: Seq<char>, i: int) -> bool {
    &&& 0 <= i < entries.len()
    &&& entries[i].0 == key
    &&& forall|j: int| 0 <= j < i ==> (#[trigger] entries[j]).0 != key
}

/// The value that `entries` holds for `key`, if it holds one.
pub open spec fn value_of(entries: Pairs, key: Seq<char>) -> Option<Seq<char>> {
    if exists|i: int| is_first_match(entries, key, i) {
        Some(entries[choose|i: int| is_first_match(entries, key, i)].1)
    } else {
        None
    }
}

/// Whether no key occurs twice in `entries`.
pub open spec fn distinct_keys(entries: Pairs) -> bool {
    forall|i: int, j: int|
        0 <= i < j < entries.len() ==> (#[trigger] entries[i]).0 != (#[trigger] entries[j]).0
}

/// Attaches a position to a failure.
pub open spec fn located<T>(r: Result<T, ErrorKind>, position: Position) -> Result<T, Diagnostic> {
    match r {
        Ok(t) => Ok(t),
        Err(kind) => Err(Diagnostic { kind, position }),
    }
}

/// The content of an annotation of a given tag: nothing where the tag is
/// another one, and a failure where the annotation is not of the form
/// `tag(content)`.
pub open spec fn listed_content(a: AnnotationModel, tag: Seq<char>) -> Option<
    Result<Seq<char>, Diagnostic>,
> {
    if a.tag != tag {
        None
    } else {
        Some(
            match a.form {
                Form::List(_) => Ok(a.content),
                _ => Err(Diagnostic { kind: ErrorKind::MalformedAnnotation, position: a.position }),
            },
        )
    }
}

/// What an annotation of a given tag yields: nothing where the tag is
/// another one, a failure where the annotation is not of the form
/// `tag(content)`, else what `read` makes of the content, with a failure
/// put at the position of the annotation.
pub open spec fn interpreted<T>(
    a: AnnotationModel,
    tag: Seq<char>,
    read: spec_fn(Seq<char>) -> Result<T, ErrorKind>,
) -> Option<Result<T, Diagnostic>> {
    match listed_content(a, tag) {
        None => None,
        Some(Err(e)) => Some(Err(e)),
        Some(Ok(content)) => Some(located(read(content), a.position)),
    }
}

/// Turns "not this kind of annotation" into "nothing to keep".
pub open spec fn transposed<T>(found: Option<Result<T, Diagnostic>>) -> Result<
    Option<T>,
    Diagnostic,
> {
    match found {
        Some(Ok(t)) => Ok(Some(t)),
        Some(Err(e)) => Err(e),
        None => Ok(None),
    }
}

/// The one item of `found`. Anything but exactly one item is a failure at
/// `position`.
pub open spec fn exactly_one<T>(found: Result<Seq<T>, Diagnostic>, position: Position) -> Result<
    T,
    Diagnostic,
> {
    match found {
        Ok(items) => if items.len() == 1 {
            Ok(items[0])
        } else {
            Err(Diagnostic { kind: ErrorKind::CardinalityError, position })
        },
        Err(e) => Err(e),
    }
}

/// The position in `entries` of the first pair with the given key.
pub fn find_key(entries: &Vec<(String, String)>, key: &String) -> (r: Option<usize>)
    ensures
        r is Some <==> value_of(entries.deep_view(), key@) is Some,
        r matches Some(i) ==> is_first_match(entries.deep_view(), key@, i as int) && value_of(
            entries.deep_view(),
            key@,
        ) == Some(entries.deep_view()[i as int].1),
{
    let ghost pairs = entries.deep_view();
    let mut i: usize = 0;
    while i < entries.len()
        invariant
            i <= entries.len(),
            pairs == entries.deep_view(),
            forall|j: int| 0 <= j < i ==> (#[trigger] pairs[j]).0 != key@,
        decreases entries.len() - i,
    {
        if entries[i].0 == *key {
            proof {
                assert(pairs[i as int].0 == key@);
                assert(is_first_match(pairs, key@, i as int));
                let c = choose|c: int| is_first_match(pairs, key@, c);
                assert(c == i) by {
                    if c < i {
                        assert(pairs[c].0 != key@);
                    } else if i < c {
                        assert(pairs[i as int].0 != key@);
                    }
                }
            }
            return Some(i);
        }
        i = i + 1;
    }
    proof {
        assert forall|c: int| !is_first_match(pairs, key@, c) by {
            if is_first_match(pairs, key@, c) {
                assert(pairs[c].0 != key@);
            }
        }
    }
    None
}

/// A copy of an optional text.
pub fn clone_optional(text: &Option<String>) -> (r: Option<String>)
    ensures
        r.deep_view() == text.deep_view(),
{
    match text {
        Some(t) => Some(t.clone()),
        None => None,
    }
}

/// The content of the annotation, where it has the given tag: `None` for
/// another tag, and a failure at the annotation for one that is not of the
/// form `tag(content)`.
pub fn content_of<'a>(attr: &'a Annotation, tag: &str) -> (r: Option<Result<&'a str, Diagnostic>>)
    ensures
        r is Some <==> listed_content(attr@, tag@) is Some,
        r matches Some(Ok(content)) ==> listed_content(attr@, tag@) == Some(
            Ok::<Seq<char>, Diagnostic>(content@),
        ),
        r matches Some(Err(e)) ==> listed_content(attr@, tag@) == Some(
            Err::<Seq<char>, Diagnostic>(e),
        ),
{
    if attr.has_tag(tag) {
        Some(
            match attr.form {
                Form::List(_) => Ok(attr.content.as_str()),
                _ => Err(
                    Diagnostic { kind: ErrorKind::MalformedAnnotation, position: attr.position },
                ),
            },
        )
    } else {
        None
    }
}

/// Puts a failure at a position.
pub fn at<T>(r: Result<T, ErrorKind>, position: Position) -> (out: Result<T, Diagnostic>)
    ensures
        out == located(r, position),
{
    match r {
        Ok(t) => Ok(t),
        Err(kind) => Err(Diagnostic { kind, position }),
    }
}

// ---------------------------------------------------------------------------
// The types to convert from
// ---------------------------------------------------------------------------

/// The content of a `from` annotation: type references in source order.
/// A type may be listed twice, and the annotated type itself may be listed.
#[derive(Clone, Debug, PartialEq, Eq)]
pub struct FromAttr {
    pub types: Vec<TypeRef>,
}

/// The model of a [`FromAttr`].
pub struct FromAttrModel {
    pub types: Seq<TypeRefModel>,
}

impl View for FromAttr {
    type V = FromAttrModel;

    open spec fn view(&self) -> FromAttrModel {
        FromAttrModel { types: self.types.deep_view() }
    }
}

impl DeepView for FromAttr {
    type V = FromAttrModel;

    open spec fn deep_view(&self) -> FromAttrModel {
        self@
    }
}

/// The list of types that type references stand for, once they were read.
pub open spec fn from_of_paths(read: Option<Seq<TypeRefModel>>) -> Result<
    FromAttrModel,
    ErrorKind,
> {
    match read {
        Some(types) => Ok(FromAttrModel { types }),
        None => Err(ErrorKind::MalformedAnnotation),
    }
}

/// The list of types that a content is read as.
pub open spec fn from_of_content(content: Seq<char>) -> Result<FromAttrModel, ErrorKind> {
    from_of_paths(parsed_paths(content))
}

/// `from_of_content` as a reader of contents.
pub open spec fn reading_from() -> spec_fn(Seq<char>) -> Result<FromAttrModel, ErrorKind> {
    |content: Seq<char>| from_of_content(content)
}

/// What an annotation yields when it is asked for a list of types to
/// convert from.
pub open spec fn from_of(a: AnnotationModel) -> Option<Result<FromAttrModel, Diagnostic>> {
    interpreted(a, from_tag(), reading_from())
}

impl FromAttr {
    /// Reads the annotation as a list of types to convert from. `None` for
    /// an annotation with another tag.
    pub fn new(attr: &Annotation) -> (r: Option<Result<FromAttr, Diagnostic>>)
        ensures
            r is Some <==> from_of(attr@) is Some,
            r matches Some(Ok(from)) ==> from_of(attr@) == Some(
                Ok::<FromAttrModel, Diagnostic>(from@),
            ),
            r matches Some(Err(e)) ==> from_of(attr@) == Some(Err::<FromAttrModel, Diagnostic>(e)),
    {
        match content_of(attr, "from") {
            None => None,
            Some(Err(e)) => Some(Err(e)),
            Some(Ok(content)) => Some(at(FromAttr::from_args(content), attr.position)),
        }
    }

    /// Reads a content as type references separated by commas.
    pub fn from_args(tokens: &str) -> (r: Result<FromAttr, ErrorKind>)
        ensures
            r matches Ok(from) ==> from_of_content(tokens@) == Ok::<FromAttrModel, ErrorKind>(
                from@,
            ),
            r matches Err(kind) ==> from_of_content(tokens@) == Err::<FromAttrModel, ErrorKind>(
                kind,
            ),
    {
        match parse_paths(tokens) {
            Ok(types) => FromAttr::from_paths(Some(types)),
            Err(_) => FromAttr::from_paths(None),
        }
    }

    /// Builds the list from type references that were read already: `None`
    /// stands for a content that is no list of type references.
    pub fn from_paths(read: Option<Vec<TypeRef>>) -> (r: Result<FromAttr, ErrorKind>)
        ensures
            models(r) == from_of_paths(read.deep_view()),
    {
        match read {
            Some(types) => Ok(FromAttr { types }),
            None => Err(ErrorKind::MalformedAnnotation),
        }
    }
}

// ---------------------------------------------------------------------------
// Content that depends on the copy
// ---------------------------------------------------------------------------

/// The content of a `mux` annotation: an optional default, and contents by
/// key in source order. No key occurs twice: see `wf`.
#[derive(Clone, Debug, PartialEq, Eq)]
pub struct MuxAttr {
    pub default: Option<String>,
    pub entries: Vec<(String, String)>,
}

/// The model of a [`MuxAttr`].
pub struct MuxAttrModel {
    pub default: Option<Seq<char>>,
    pub entries: Pairs,
}

impl View for MuxAttr {
    type V = MuxAttrModel;

    open spec fn view(&self) -> MuxAttrModel {
        MuxAttrModel { default: self.default.deep_view(), entries: self.entries.deep_view() }
    }
}

impl DeepView for MuxAttr {
    type V = MuxAttrModel;

    open spec fn deep_view(&self) -> MuxAttrModel {
        self@
    }
}

/// The key of the entry at `i`: none for an entry without `=`, and none
/// where what stands before `=` is no identifier.
pub open spec fn key_at(es: Seq<EntryModel>, i: int) -> Option<Seq<char>> {
    match es[i] {
        EntryModel::Keyed { key, value } => key,
        EntryModel::Bare { content } => None,
    }
}

/// What is wrong with the entry at `i` in its list, if anything is: its key
/// is no identifier, an earlier entry has the same key, or it is a default
/// and not the first entry.
pub open spec fn entry_fault(es: Seq<EntryModel>, i: int) -> Option<ErrorKind> {
    match es[i] {
        EntryModel::Keyed { key: None, value } => Some(ErrorKind::MalformedAnnotation),
        EntryModel::Keyed { key: Some(k), value } => if exists|j: int|
            0 <= j < i && #[trigger] key_at(es, j) == Some(k) {
            Some(ErrorKind::DuplicateKey)
        } else {
            None
        },
        EntryModel::Bare { content } => if i != 0 {
            Some(ErrorKind::OrderError)
        } else {
            None
        },
    }
}

/// Whether nothing is wrong with the first `n` entries.
pub open spec fn faultless(es: Seq<EntryModel>, n: int) -> bool {
    forall|j: int| 0 <= j < n ==> (#[trigger] entry_fault(es, j)) is None
}

/// How many entries stand before the keyed ones: one where the list begins
/// with a default, else none.
pub open spec fn lead(es: Seq<EntryModel>) -> int {
    if es.len() > 0 && es[0] is Bare {
        1
    } else {
        0
    }
}

/// The default of a list of entries: its first entry, where that has no key.
pub open spec fn default_part(es: Seq<EntryModel>) -> Option<Seq<char>> {
    if es.len() > 0 && es[0] is Bare {
        Some(es[0]->content)
    } else {
        None
    }
}

/// The keyed entries of a list in which nothing is wrong, as pairs.
pub open spec fn keyed_part(es: Seq<EntryModel>) -> Pairs {
    Seq::new(
        (es.len() - lead(es)) as nat,
        |i: int| (es[i + lead(es)]->key->Some_0, es[i + lead(es)]->value),
    )
}

/// Whether the entry at `i` is the first with which anything is wrong.
pub open spec fn is_first_fault(es: Seq<EntryModel>, i: int) -> bool {
    0 <= i < es.len() && faultless(es, i) && entry_fault(es, i) is Some
}

/// What a list of entries is read as. Where something is wrong with an
/// entry, the list fails with what is wrong with the first such entry.
/// Otherwise it is read as its default, where it begins with one, and its
/// keyed entries in their order.
pub open spec fn mux_of_entries(es: Seq<EntryModel>) -> Result<MuxAttrModel, ErrorKind> {
    if exists|i: int| is_first_fault(es, i) {
        Err(entry_fault(es, choose|i: int| is_first_fault(es, i))->Some_0)
    } else {
        Ok(MuxAttrModel { default: default_part(es), entries: keyed_part(es) })
    }
}

/// What a content is read as.
pub open spec fn mux_of_content(content: Seq<char>) -> Result<MuxAttrModel, ErrorKind> {
    match parsed_entries(content) {
        Some(es) => mux_of_entries(es),
        None => Err(ErrorKind::MalformedAnnotation),
    }
}

/// `mux_of_content` as a reader of contents.
pub open spec fn reading_mux() -> spec_fn(Seq<char>) -> Result<MuxAttrModel, ErrorKind> {
    |content: Seq<char>| mux_of_content(content)
}

/// What an annotation yields when it is asked for content by key.
pub open spec fn mux_of(a: AnnotationModel) -> Option<Result<MuxAttrModel, Diagnostic>> {
    interpreted(a, mux_tag(), reading_mux())
}

/// The content for the copy with the given key: the content under that key
/// if there is one, else the default if there is one.
pub open spec fn resolve(m: MuxAttrModel, key: Option<Seq<char>>) -> Option<Seq<char>> {
    match key {
        Some(k) => match value_of(m.entries, k) {
            Some(content) => Some(content),
            None => m.default,
        },
        None => m.default,
    }
}

/// Whether `m` has a key that is not among `keys`.
pub open spec fn has_unknown_key(m: MuxAttrModel, keys: Seq<Seq<char>>) -> bool {
    exists|i: int| 0 <= i < m.entries.len() && !keys.contains((#[trigger] m.entries[i]).0)
}

impl MuxAttr {
    /// The invariant of the type: no key occurs twice among the entries.
    /// Every function of this crate that builds a `MuxAttr` gives one that
    /// is well formed.
    pub open spec fn wf(&self) -> bool {
        distinct_keys(self@.entries)
    }

    /// Reads the annotation as content by key. `None` for an annotation with
    /// another tag.
    pub fn new(attr: &Annotation) -> (r: Option<Result<MuxAttr, Diagnostic>>)
        ensures
            r is Some <==> mux_of(attr@) is Some,
            r matches Some(Ok(mux)) ==> mux_of(attr@) == Some(Ok::<MuxAttrModel, Diagnostic>(mux@)),
            r matches Some(Ok(mux)) ==> mux.wf(),
            r matches Some(Err(e)) ==> mux_of(attr@) == Some(Err::<MuxAttrModel, Diagnostic>(e)),
    {
        match content_of(attr, "mux") {
            None => None,
            Some(Err(e)) => Some(Err(e)),
            Some(Ok(content)) => Some(at(MuxAttr::from_args(content), attr.position)),
        }
    }

    /// Reads a content as entries separated by commas.
    pub fn from_args(tokens: &str) -> (r: Result<MuxAttr, ErrorKind>)
        ensures
            r matches Ok(mux) ==> mux_of_content(tokens@) == Ok::<MuxAttrModel, ErrorKind>(mux@),
            r matches Ok(mux) ==> mux.wf(),
            r matches Err(kind) ==> mux_of_content(tokens@) == Err::<MuxAttrModel, ErrorKind>(kind),
    {
        match parse_entries(tokens) {
            Ok(entries) => MuxAttr::from_entries(&entries),
            Err(_) => Err(ErrorKind::MalformedAnnotation),
        }
    }

    /// Builds the content by key from entries that were told apart already.
    pub fn from_entries(entries: &Vec<Entry>) -> (r: Result<MuxAttr, ErrorKind>)
        ensures
            r matches Ok(mux) ==> mux_of_entries(entries.deep_view()) == Ok::<
                MuxAttrModel,
                ErrorKind,
            >(mux@),
            r matches Ok(mux) ==> mux.wf(),
            r matches Err(kind) ==> mux_of_entries(entries.deep_view()) == Err::<
                MuxAttrModel,
                ErrorKind,
            >(kind),
    {
        let ghost es = entries.deep_view();
        let mut this = MuxAttr { default: None, entries: Vec::new() };
        assert(this@.entries =~= Seq::empty());
        let mut i: usize = 0;
        while i < entries.len()
            invariant
                i <= entries.len(),
                es == entries.deep_view(),
                entries_taken(es.take(i as int)) == Ok::<MuxAttrModel, ErrorKind>(this@),
            decreases entries.len() - i,
        {
            proof {
                lemma_entries_step(es, i as int);
            }
            let ghost before = this@;
            match &entries[i] {
                Entry::Keyed { key, value } => {
                    match key {
                        None => {
                            proof {
                                lemma_entries_failed(es, i + 1);
                                lemma_entries_taken(es);
                            }
                            return Err(ErrorKind::MalformedAnnotation);
                        },
                        Some(k) => {
                            if find_key(&this.entries, k).is_some() {
                                proof {
                                    lemma_entries_failed(es, i + 1);
                                    lemma_entries_taken(es);
                                }
                                return Err(ErrorKind::DuplicateKey);
                            }
                            this.entries.push((k.clone(), value.clone()));
                            assert(this@.entries =~= before.entries.push((k@, value@)));
                        },
                    }
                },
                Entry::Bare { content } => {
                    if i != 0 {
                        proof {
                            lemma_entries_failed(es, i + 1);
                            lemma_entries_taken(es);
                        }
                        return Err(ErrorKind::OrderError);
                    }
                    this.default = Some(content.clone());
                },
            }
            i = i + 1;
        }
        proof {
            assert(es.take(i as int) =~= es);
            lemma_entries_taken(es);
            lemma_keys_are_distinct(es);
        }
        Ok(this)
    }

    /// The content for the copy with the given key.
    pub fn resolve(&self, key: Option<&String>) -> (r: Option<String>)
        ensures
            r.deep_view() == resolve(self@, key.deep_view()),
    {
        if let Some(k) = key {
            if let Some(i) = find_key(&self.entries, k) {
                return Some(self.entries[i].1.clone());
            }
        }
        clone_optional(&self.default)
    }

    /// Whether a key of this content is not among `all_keys`.
    pub fn has_unknown_key(&self, all_keys: &Vec<String>) -> (r: bool)
        ensures
            r == has_unknown_key(self@, all_keys.deep_view()),
    {
        let mut i: usize = 0;
        while i < self.entries.len()
            invariant
                i <= self.entries.len(),
                forall|j: int|
                    0 <= j < i ==> all_keys.deep_view().contains(
                        (#[trigger] self.entries.deep_view()[j]).0,
                    ),
            decreases self.entries.len() - i,
        {
            if !crate::tree::contains_text(all_keys, &self.entries[i].0) {
                assert(!all_keys.deep_view().contains(self@.entries[i as int].0));
                return true;
            }
            i = i + 1;
        }
        false
    }
}

// ---------------------------------------------------------------------------
// The names of the copies
// ---------------------------------------------------------------------------

/// The content of a `names` annotation: one name, or names by key in
/// source order. No key occurs twice: see `wf`.
#[derive(Clone, Debug, PartialEq, Eq)]
pub enum MuxNamesAttr {
    Single(String),
    Multiple(Vec<(String, String)>),
}

/// The model of a [`MuxNamesAttr`].
pub enum MuxNamesModel {
    Single(Seq<char>),
    Multiple(Pairs),
}

impl View for MuxNamesAttr {
    type V = MuxNamesModel;

    open spec fn view(&self) -> MuxNamesModel {
        match self {
            MuxNamesAttr::Single(name) => MuxNamesModel::Single(name@),
            MuxNamesAttr::Multiple(entries) => MuxNamesModel::Multiple(entries.deep_view()),
        }
    }
}

impl DeepView for MuxNamesAttr {
    type V = MuxNamesModel;

    open spec fn deep_view(&self) -> MuxNamesModel {
        self@
    }
}

/// A pair of a key and a name as it was read: `None` where the text of the
/// name is no identifier.
pub type ReadPairs = Seq<(Seq<char>, Option<Seq<char>>)>;

/// The pair with its name, where the name was read as an identifier.
pub open spec fn named_as_read() -> spec_fn((Seq<char>, Option<Seq<char>>)) -> Result<
    (Seq<char>, Seq<char>),
    ErrorKind,
> {
    |pair: (Seq<char>, Option<Seq<char>>)|
        match pair.1 {
            Some(name) => Ok((pair.0, name)),
            None => Err(ErrorKind::MalformedAnnotation),
        }
}

/// The names that a default and keyed entries stand for, once their texts
/// were read as identifiers. A default alone is a single name; keyed
/// entries alone are names by key; both together are refused. A text that
/// is no identifier is refused.
pub open spec fn names_from(default: Option<Option<Seq<char>>>, entries: ReadPairs) -> Result<
    MuxNamesModel,
    ErrorKind,
> {
    match default {
        Some(read) => if entries.len() == 0 {
            match read {
                Some(name) => Ok(MuxNamesModel::Single(name)),
                None => Err(ErrorKind::MalformedAnnotation),
            }
        } else {
            Err(ErrorKind::MalformedAnnotation)
        },
        None => match try_map(entries, named_as_read()) {
            Ok(entries) => Ok(MuxNamesModel::Multiple(entries)),
            Err(kind) => Err(kind),
        },
    }
}

/// The pairs with their values read as identifiers.
pub open spec fn idents_read(entries: Pairs) -> ReadPairs {
    Seq::new(entries.len(), |i: int| (entries[i].0, parsed_ident(entries[i].1)))
}

/// The names that a content by key stands for: its default and the values
/// of its entries are read as identifiers.
pub open spec fn names_of_mux(m: MuxAttrModel) -> Result<MuxNamesModel, ErrorKind> {
    names_from(
        match m.default {
            Some(name) => Some(parsed_ident(name)),
            None => None,
        },
        idents_read(m.entries),
    )
}

/// The names that a content is read as. A name without a key that does
/// not stand alone at the front is a mixture of the two forms, and
/// malformed.
pub open spec fn names_of_content(content: Seq<char>) -> Result<MuxNamesModel, ErrorKind> {
    match mux_of_content(content) {
        Ok(m) => names_of_mux(m),
        Err(ErrorKind::OrderError) => Err(ErrorKind::MalformedAnnotation),
        Err(kind) => Err(kind),
    }
}

/// `names_of_content` as a reader of contents.
pub open spec fn reading_names() -> spec_fn(Seq<char>) -> Result<MuxNamesModel, ErrorKind> {
    |content: Seq<char>| names_of_content(content)
}

/// What an annotation yields when it is asked for the names of the copies.
pub open spec fn names_of(a: AnnotationModel) -> Option<Result<MuxNamesModel, Diagnostic>> {
    interpreted(a, names_tag(), reading_names())
}

/// Whether no key occurs twice among the names.
pub open spec fn unique_keys(names: MuxNamesModel) -> bool {
    match names {
        MuxNamesModel::Single(name) => true,
        MuxNamesModel::Multiple(entries) => distinct_keys(entries),
    }
}

/// The copies to generate: for each, its key (none for a single name) and
/// its name, in source order.
pub open spec fn name_pairs(names: MuxNamesModel) -> Seq<(Option<Seq<char>>, Seq<char>)> {
    match names {
        MuxNamesModel::Single(name) => seq![(None, name)],
        MuxNamesModel::Multiple(entries) => Seq::new(
            entries.len(),
            |i: int| (Some(entries[i].0), entries[i].1),
        ),
    }
}

/// The keys that content may be given for: none for a single name.
pub open spec fn name_keys(names: MuxNamesModel) -> Seq<Seq<char>> {
    match names {
        MuxNamesModel::Single(name) => Seq::empty(),
        MuxNamesModel::Multiple(entries) => Seq::new(entries.len(), |i: int| entries[i].0),
    }
}

/// Whether no key occurs twice among pairs as read.
pub open spec fn distinct_read_keys(entries: ReadPairs) -> bool {
    forall|i: int, j: int|
        0 <= i < j < entries.len() ==> (#[trigger] entries[i]).0 != (#[trigger] entries[j]).0
}

/// Reads a text as an identifier: `None` where it is none.
pub fn read_ident(text: &str) -> (r: Option<String>)
    ensures
        r.deep_view() == parsed_ident(text@),
{
    match parse_ident(text) {
        Ok(name) => Some(name),
        Err(_) => None,
    }
}

impl MuxNamesAttr {
    /// The invariant of the type: no key occurs twice among names by key.
    /// Every function of this crate that builds a `MuxNamesAttr` gives one
    /// that is well formed, `from_mux` and `from_idents` where they are given
    /// keys that are all different.
    pub open spec fn wf(&self) -> bool {
        unique_keys(self@)
    }

    /// Reads the annotation as the names of the copies. `None` for an
    /// annotation with another tag.
    pub fn new(attr: &Annotation) -> (r: Option<Result<MuxNamesAttr, Diagnostic>>)
        ensures
            r is Some <==> names_of(attr@) is Some,
            r matches Some(Ok(names)) ==> names_of(attr@) == Some(
                Ok::<MuxNamesModel, Diagnostic>(names@),
            ),
            r matches Some(Ok(names)) ==> names.wf(),
            r matches Some(Err(e)) ==> names_of(attr@) == Some(Err::<MuxNamesModel, Diagnostic>(e)),
    {
        match content_of(attr, "names") {
            None => None,
            Some(Err(e)) => Some(Err(e)),
            Some(Ok(content)) => Some(at(MuxNamesAttr::from_args(content), attr.position)),
        }
    }

    /// Reads a content as one name, or as names by key separated by commas.
    pub fn from_args(tokens: &str) -> (r: Result<MuxNamesAttr, ErrorKind>)
        ensures
            r matches Ok(names) ==> names_of_content(tokens@) == Ok::<MuxNamesModel, ErrorKind>(
                names@,
            ),
            r matches Ok(names) ==> names.wf(),
            r matches Err(kind) ==> names_of_content(tokens@) == Err::<MuxNamesModel, ErrorKind>(
                kind,
            ),
    {
        match MuxAttr::from_args(tokens) {
            Ok(mux) => MuxNamesAttr::from_mux(&mux),
            Err(ErrorKind::OrderError) => Err(ErrorKind::MalformedAnnotation),
            Err(kind) => Err(kind),
        }
    }

    /// Turns a content by key into the names of the copies.
    pub fn from_mux(mux: &MuxAttr) -> (r: Result<MuxNamesAttr, ErrorKind>)
        ensures
            r matches Ok(names) ==> names_of_mux(mux@) == Ok::<MuxNamesModel, ErrorKind>(names@),
            r matches Ok(names) ==> (mux.wf() ==> names.wf()),
            r matches Err(kind) ==> names_of_mux(mux@) == Err::<MuxNamesModel, ErrorKind>(kind),
    {
        let default = match &mux.default {
            Some(tokens) => Some(read_ident(tokens.as_str())),
            None => None,
        };
        let ghost pairs = mux.entries.deep_view();
        let mut entries: Vec<(String, Option<String>)> = Vec::new();
        assert(entries.deep_view() =~= idents_read(pairs).take(0));
        let mut i: usize = 0;
        while i < mux.entries.len()
            invariant
                i <= mux.entries.len(),
                pairs == mux.entries.deep_view(),
                entries.deep_view() == idents_read(pairs).take(i as int),
            decreases mux.entries.len() - i,
        {
            let ghost before = entries.deep_view();
            entries.push((mux.entries[i].0.clone(), read_ident(mux.entries[i].1.as_str())));
            assert(entries.deep_view() =~= before.push(idents_read(pairs)[i as int]));
            assert(entries.deep_view() =~= idents_read(pairs).take(i + 1));
            i = i + 1;
        }
        assert(entries.deep_view() =~= idents_read(pairs));
        MuxNamesAttr::from_idents(default, &entries)
    }

    /// Builds the names of the copies from a default and keyed entries whose
    /// texts were read as identifiers already: `None` stands for a text that
    /// is no identifier.
    pub fn from_idents(default: Option<Option<String>>, entries: &Vec<(String, Option<String>)>) -> (r:
        Result<MuxNamesAttr, ErrorKind>)
        ensures
            r matches Ok(names) ==> names_from(default.deep_view(), entries.deep_view()) == Ok::<
                MuxNamesModel,
                ErrorKind,
            >(names@),
            r matches Ok(names) ==> (distinct_read_keys(entries.deep_view()) ==> names.wf()),
            r matches Err(kind) ==> names_from(default.deep_view(), entries.deep_view()) == Err::<
                MuxNamesModel,
                ErrorKind,
            >(kind),
    {
        match default {
            Some(read) => {
                if entries.len() == 0 {
                    match read {
                        Some(name) => Ok(MuxNamesAttr::Single(name)),
                        None => Err(ErrorKind::MalformedAnnotation),
                    }
                } else {
                    Err(ErrorKind::MalformedAnnotation)
                }
            },
            None => {
                let ghost pairs = entries.deep_view();
                let mut names: Vec<(String, String)> = Vec::new();
                assert(names.deep_view() =~= Seq::empty());
                let mut i: usize = 0;
                while i < entries.len()
                    invariant
                        i <= entries.len(),
                        pairs == entries.deep_view(),
                        default.deep_view() is None,
                        try_map(pairs.take(i as int), named_as_read()) == Ok::<Pairs, ErrorKind>(
                            names.deep_view(),
                        ),
                    decreases entries.len() - i,
                {
                    proof {
                        lemma_try_map_step(pairs, named_as_read(), i as int);
                    }
                    let ghost before = names.deep_view();
                    match &entries[i].1 {
                        Some(name) => {
                            names.push((entries[i].0.clone(), name.clone()));
                            assert(names.deep_view() =~= before.push(
                                (pairs[i as int].0, pairs[i as int].1->Some_0),
                            ));
                        },
                        None => {
                            proof {
                                lemma_walk_failed(pairs, keeping(named_as_read()), i + 1);
                            }
                            return Err(ErrorKind::MalformedAnnotation);
                        },
                    }
                    i = i + 1;
                }
                proof {
                    lemma_walk_end(pairs, keeping(named_as_read()));
                    lemma_read_names_keep_keys(pairs);
                }
                Ok(MuxNamesAttr::Multiple(names))
            },
        }
    }

    /// The copies to generate: for each, its key (none for a single name)
    /// and its name, in source order.
    pub fn iter(&self) -> (r: Vec<(Option<String>, String)>)
        ensures
            r.deep_view() == name_pairs(self@),
    {
        let mut pairs: Vec<(Option<String>, String)> = Vec::new();
        assert(pairs.deep_view() =~= name_pairs(self@).take(0));
        match self {
            MuxNamesAttr::Single(name) => {
                pairs.push((None, name.clone()));
                assert(pairs.deep_view() =~= name_pairs(self@));
            },
            MuxNamesAttr::Multiple(entries) => {
                let mut i: usize = 0;
                while i < entries.len()
                    invariant
                        i <= entries.len(),
                        pairs.deep_view() == name_pairs(self@).take(i as int),
                        self@ == MuxNamesModel::Multiple(entries.deep_view()),
                    decreases entries.len() - i,
                {
                    let ghost before = pairs.deep_view();
                    pairs.push((Some(entries[i].0.clone()), entries[i].1.clone()));
                    assert(pairs.deep_view() =~= before.push(
                        (Some(entries.deep_view()[i as int].0), entries.deep_view()[i as int].1),
                    ));
                    assert(pairs.deep_view() =~= name_pairs(self@).take(i + 1));
                    i = i + 1;
                }
                assert(pairs.deep_view() =~= name_pairs(self@));
            },
        }
        pairs
    }

    /// The keys that content may be given for: none for a single name.
    pub fn keys(&self) -> (r: Vec<String>)
        ensures
            r.deep_view() == name_keys(self@),
    {
        let mut keys: Vec<String> = Vec::new();
        assert(keys.deep_view() =~= name_keys(self@).take(0));
        match self {
            MuxNamesAttr::Single(_) => {
                assert(keys.deep_view() =~= name_keys(self@));
            },
            MuxNamesAttr::Multiple(entries) => {
                let mut i: usize = 0;
                while i < entries.len()
                    invariant
                        i <= entries.len(),
                        keys.deep_view() == name_keys(self@).take(i as int),
                        self@ == MuxNamesModel::Multiple(entries.deep_view()),
                    decreases entries.len() - i,
                {
                    let ghost before = keys.deep_view();
                    keys.push(entries[i].0.clone());
                    assert(keys.deep_view() =~= before.push(entries.deep_view()[i as int].0));
                    assert(keys.deep_view() =~= name_keys(self@).take(i + 1));
                    i = i + 1;
                }
                assert(keys.deep_view() =~= name_keys(self@));
            },
        }
        keys
    }
}

// ---------------------------------------------------------------------------
// Theorems
// ---------------------------------------------------------------------------

/// A list holds a value for a key exactly where one of its pairs has the key.
pub proof fn lemma_has_key(entries: Pairs, key: Seq<char>)
    ensures
        value_of(entries, key) is Some <==> exists|i: int|
            0 <= i < entries.len() && (#[trigger] entries[i]).0 == key,
{
    if exists|i: int| 0 <= i < entries.len() && (#[trigger] entries[i]).0 == key {
        let i = choose|i: int| 0 <= i < entries.len() && (#[trigger] entries[i]).0 == key;
        lemma_first_match_exists(entries, key, i);
    }
}

/// Where a pair has the key, there is a first pair that has it.
pub proof fn lemma_first_match_exists(entries: Pairs, key: Seq<char>, i: int)
    requires
        0 <= i < entries.len(),
        entries[i].0 == key,
    ensures
        exists|k: int| 0 <= k <= i && is_first_match(entries, key, k),
    decreases i,
{
    if exists|j: int| 0 <= j < i && (#[trigger] entries[j]).0 == key {
        let j = choose|j: int| 0 <= j < i && (#[trigger] entries[j]).0 == key;
        lemma_first_match_exists(entries, key, j);
    } else {
        assert(is_first_match(entries, key, i));
    }
}

/// In a list without a key twice, the value for the key of a pair is the
/// value of that pair.
pub proof fn lemma_value_at(entries: Pairs, i: int)
    requires
        distinct_keys(entries),
        0 <= i < entries.len(),
    ensures
        value_of(entries, entries[i].0) == Some(entries[i].1),
{
    let key = entries[i].0;
    lemma_first_match_exists(entries, key, i);
    let c = choose|c: int| is_first_match(entries, key, c);
    if c != i {
        if c < i {
            assert(entries[c].0 != entries[i].0);
        } else {
            assert(entries[i].0 != entries[c].0);
        }
    }
}

/// A content without keyed entries gives its default to every copy.
pub proof fn lemma_resolve_without_keys(m: MuxAttrModel, key: Option<Seq<char>>)
    requires
        m.entries.len() == 0,
    ensures
        resolve(m, key) == m.default,
{
}

/// A copy whose key has an entry gets the content of that entry.
pub proof fn lemma_resolve_keyed(m: MuxAttrModel, i: int)
    requires
        distinct_keys(m.entries),
        0 <= i < m.entries.len(),
    ensures
        resolve(m, Some(m.entries[i].0)) == Some(m.entries[i].1),
{
    lemma_value_at(m.entries, i);
}

/// A copy without a key, or whose key has no entry, gets the default.
pub proof fn lemma_resolve_default(m: MuxAttrModel, key: Option<Seq<char>>)
    requires
        key matches Some(k) ==> forall|i: int|
            0 <= i < m.entries.len() ==> (#[trigger] m.entries[i]).0 != k,
    ensures
        resolve(m, key) == m.default,
{
    if let Some(k) = key {
        lemma_has_key(m.entries, k);
    }
}

/// Takes one more entry into what was read so far. `first` says whether the
/// entry is the first of its list.
spec fn add_entry(m: MuxAttrModel, e: EntryModel, first: bool) -> Result<
    MuxAttrModel,
    ErrorKind,
> {
    match e {
        EntryModel::Keyed { key: None, value } => Err(ErrorKind::MalformedAnnotation),
        EntryModel::Keyed { key: Some(k), value } => if value_of(m.entries, k) is Some {
            Err(ErrorKind::DuplicateKey)
        } else {
            Ok(MuxAttrModel { default: m.default, entries: m.entries.push((k, value)) })
        },
        EntryModel::Bare { content } => if first {
            Ok(MuxAttrModel { default: Some(content), entries: m.entries })
        } else {
            Err(ErrorKind::OrderError)
        },
    }
}

/// The entries taken one after the other, from left to right, until one
/// cannot be taken. This is how `from_entries` goes about it;
/// `lemma_entries_taken` shows that it gives what `mux_of_entries` says.
spec fn entries_taken(es: Seq<EntryModel>) -> Result<MuxAttrModel, ErrorKind>
    decreases es.len(),
{
    if es.len() == 0 {
        Ok(MuxAttrModel { default: None, entries: Seq::empty() })
    } else {
        match entries_taken(es.drop_last()) {
            Err(kind) => Err(kind),
            Ok(m) => add_entry(m, es.last(), es.len() == 1),
        }
    }
}

/// One more entry: reading the first `n + 1` entries is reading the first
/// `n` and then taking entry `n`.
proof fn lemma_entries_step(es: Seq<EntryModel>, n: int)
    requires
        0 <= n < es.len(),
    ensures
        entries_taken(es.take(n + 1)) == match entries_taken(es.take(n)) {
            Err(kind) => Err(kind),
            Ok(m) => add_entry(m, es[n], n == 0),
        },
{
    assert(es.take(n + 1).drop_last() =~= es.take(n));
    assert(es.take(n + 1).last() == es[n]);
}

/// Once a prefix of the entries has failed, the whole list fails in the same
/// way.
proof fn lemma_entries_failed(es: Seq<EntryModel>, n: int)
    requires
        0 <= n <= es.len(),
        entries_taken(es.take(n)) is Err,
    ensures
        entries_taken(es) == entries_taken(es.take(n)),
    decreases es.len() - n,
{
    if n == es.len() {
        assert(es.take(n) =~= es);
    } else {
        lemma_entries_step(es, n);
        lemma_entries_failed(es, n + 1);
    }
}

/// Where nothing is wrong with the first `n` entries, they are read as the
/// default and the pairs that they hold.
proof fn lemma_faultless_prefix(es: Seq<EntryModel>, n: int)
    requires
        0 <= n <= es.len(),
        faultless(es, n),
    ensures
        entries_taken(es.take(n)) == Ok::<MuxAttrModel, ErrorKind>(
            MuxAttrModel { default: default_part(es.take(n)), entries: keyed_part(es.take(n)) },
        ),
    decreases n,
{
    if n == 0 {
        assert(keyed_part(es.take(0)) =~= Seq::empty());
    } else {
        let i = n - 1;
        assert(faultless(es, i)) by {
            assert forall|j: int| 0 <= j < i implies (#[trigger] entry_fault(es, j)) is None by {}
        }
        lemma_faultless_prefix(es, i);
        lemma_entries_step(es, i);
        let before = es.take(i);
        let after = es.take(n);
        let m = MuxAttrModel { default: default_part(before), entries: keyed_part(before) };
        assert(entry_fault(es, i) is None);
        match es[i] {
            EntryModel::Keyed { key, value } => {
                let k = key->Some_0;
                assert(value_of(m.entries, k) is None) by {
                    lemma_has_key(m.entries, k);
                    if exists|c: int| 0 <= c < m.entries.len() && (#[trigger] m.entries[c]).0 == k {
                        let c = choose|c: int|
                            0 <= c < m.entries.len() && (#[trigger] m.entries[c]).0 == k;
                        let j = c + lead(before);
                        assert(entry_fault(es, j) is None);
                        assert(key_at(es, j) == Some(k));
                    }
                }
                assert(lead(after) == lead(before)) by {
                    if i > 0 {
                        assert(after[0] == before[0]);
                    }
                }
                assert(keyed_part(after) =~= m.entries.push((k, value)));
                assert(default_part(after) == default_part(before));
            },
            EntryModel::Bare { content } => {
                assert(i == 0);
                assert(keyed_part(after) =~= m.entries);
            },
        }
    }
}

/// A list of entries in which nothing is wrong is read as its default and
/// its pairs, and no key occurs twice among the pairs.
proof fn lemma_entries_ok(es: Seq<EntryModel>)
    requires
        faultless(es, es.len() as int),
    ensures
        entries_taken(es) == Ok::<MuxAttrModel, ErrorKind>(
            MuxAttrModel { default: default_part(es), entries: keyed_part(es) },
        ),
        distinct_keys(keyed_part(es)),
{
    lemma_faultless_prefix(es, es.len() as int);
    assert(es.take(es.len() as int) =~= es);
    let pairs = keyed_part(es);
    assert forall|i: int, j: int| 0 <= i < j < pairs.len() implies (#[trigger] pairs[i]).0 != (
    #[trigger] pairs[j]).0 by {
        let a = i + lead(es);
        let b = j + lead(es);
        assert(entry_fault(es, a) is None);
        assert(entry_fault(es, b) is None);
        if pairs[i].0 == pairs[j].0 {
            assert(key_at(es, a) == Some(pairs[j].0));
        }
    }
}

/// A list of entries fails with what is wrong with the first entry with
/// which anything is wrong.
proof fn lemma_entries_err(es: Seq<EntryModel>, i: int)
    requires
        0 <= i < es.len(),
        faultless(es, i),
        entry_fault(es, i) is Some,
    ensures
        entries_taken(es) == Err::<MuxAttrModel, ErrorKind>(entry_fault(es, i)->Some_0),
{
    lemma_faultless_prefix(es, i);
    lemma_entries_step(es, i);
    let before = es.take(i);
    let m = MuxAttrModel { default: default_part(before), entries: keyed_part(before) };
    match es[i] {
        EntryModel::Keyed { key: Some(k), value } => {
            let j = choose|j: int| 0 <= j < i && #[trigger] key_at(es, j) == Some(k);
            assert(entry_fault(es, j) is None);
            let c = j - lead(before);
            assert(before[0] == es[0]);
            assert(m.entries[c].0 == k);
            lemma_has_key(m.entries, k);
        },
        _ => {},
    }
    lemma_entries_failed(es, i + 1);
}

/// Where no entry is the first with which anything is wrong, nothing is
/// wrong with any entry.
proof fn lemma_no_fault(es: Seq<EntryModel>)
    requires
        !exists|i: int| is_first_fault(es, i),
    ensures
        faultless(es, es.len() as int),
{
    assert forall|j: int| 0 <= j < es.len() implies (#[trigger] entry_fault(es, j)) is None by {
        if entry_fault(es, j) is Some {
            lemma_first_fault(es, j);
        }
    }
}

/// Taking the entries one after the other gives what the list is read as.
proof fn lemma_entries_taken(es: Seq<EntryModel>)
    ensures
        entries_taken(es) == mux_of_entries(es),
{
    if exists|i: int| is_first_fault(es, i) {
        let i = choose|i: int| is_first_fault(es, i);
        lemma_entries_err(es, i);
    } else {
        lemma_no_fault(es);
        lemma_entries_ok(es);
    }
}

/// Where something is wrong with an entry, there is a first such entry.
pub proof fn lemma_first_fault(es: Seq<EntryModel>, j: int)
    requires
        0 <= j < es.len(),
        entry_fault(es, j) is Some,
    ensures
        exists|i: int| 0 <= i <= j && is_first_fault(es, i),
    decreases j,
{
    if faultless(es, j) {
        assert(is_first_fault(es, j));
    } else {
        let k = choose|k: int| 0 <= k < j && (#[trigger] entry_fault(es, k)) is Some;
        lemma_first_fault(es, k);
    }
}

/// A list of entries fails with what is wrong with the first entry with
/// which anything is wrong.
pub proof fn lemma_fails_as_first_fault(es: Seq<EntryModel>, i: int)
    requires
        is_first_fault(es, i),
    ensures
        mux_of_entries(es) == Err::<MuxAttrModel, ErrorKind>(entry_fault(es, i)->Some_0),
{
    lemma_entries_err(es, i);
    lemma_entries_taken(es);
}

/// A default that stands after the first place makes its list fail with
/// `OrderError`, where nothing is wrong with the entries before it.
pub proof fn lemma_default_not_first(es: Seq<EntryModel>, i: int)
    requires
        0 < i < es.len(),
        es[i] is Bare,
        faultless(es, i),
    ensures
        mux_of_entries(es) == Err::<MuxAttrModel, ErrorKind>(ErrorKind::OrderError),
{
    lemma_fails_as_first_fault(es, i);
}

/// Whatever a list of entries is read as has no key twice.
pub proof fn lemma_keys_are_distinct(es: Seq<EntryModel>)
    requires
        mux_of_entries(es) is Ok,
    ensures
        distinct_keys(mux_of_entries(es)->Ok_0.entries),
{
    lemma_entries_taken(es);
    if exists|i: int| is_first_fault(es, i) {
    } else {
        lemma_no_fault(es);
        lemma_entries_ok(es);
    }
}

/// Names by key have the keys of the pairs that they were read from, in
/// the same order, and each name is what its pair was read as.
pub proof fn lemma_read_names_keep_keys(entries: ReadPairs)
    requires
        try_map(entries, named_as_read()) is Ok,
    ensures
        try_map(entries, named_as_read())->Ok_0.len() == entries.len(),
        forall|i: int|
            0 <= i < entries.len() ==> entries[i] == (
                (#[trigger] try_map(entries, named_as_read())->Ok_0[i]).0,
                Some(try_map(entries, named_as_read())->Ok_0[i].1),
            ),
        distinct_read_keys(entries) ==> distinct_keys(try_map(entries, named_as_read())->Ok_0),
{
    crate::fold::lemma_try_map_ok(entries, named_as_read());
    let named = try_map(entries, named_as_read())->Ok_0;
    assert forall|i: int| 0 <= i < entries.len() implies entries[i] == (
        (#[trigger] named[i]).0,
        Some(named[i].1),
    ) by {
        assert(named_as_read()(entries[i]) == Ok::<(Seq<char>, Seq<char>), ErrorKind>(named[i]));
    }
    if distinct_read_keys(entries) {
        assert forall|x: int, y: int| 0 <= x < y < named.len() implies (#[trigger] named[x]).0 != (
        #[trigger] named[y]).0 by {
            assert(entries[x].0 != entries[y].0);
        }
    }
}

/// The names by key have the keys of the content that they were made of, in
/// the same order.
pub proof fn lemma_names_keep_keys(m: MuxAttrModel)
    requires
        names_of_mux(m) matches Ok(MuxNamesModel::Multiple(_)),
    ensures
        name_keys(names_of_mux(m)->Ok_0) == Seq::new(m.entries.len(), |i: int| m.entries[i].0),
        forall|i: int|
            0 <= i < m.entries.len() ==> parsed_ident(m.entries[i].1) == Some(
                #[trigger] names_of_mux(m)->Ok_0->Multiple_0[i].1,
            ),
{
    let read = idents_read(m.entries);
    lemma_read_names_keep_keys(read);
    let named = try_map(read, named_as_read())->Ok_0;
    assert forall|i: int| 0 <= i < m.entries.len() implies named[i].0 == m.entries[i].0
        && parsed_ident(m.entries[i].1) == Some(named[i].1) by {
        assert(read[i] == (named[i].0, Some(named[i].1)));
    }
    assert(name_keys(names_of_mux(m)->Ok_0) =~= Seq::new(
        m.entries.len(),
        |i: int| m.entries[i].0,
    ));
}

/// Where two annotations of a list are kept and none fails, the list does
/// not hold exactly one: the result is `CardinalityError`.
pub proof fn lemma_more_than_one<T>(
    attrs: Seq<AnnotationModel>,
    read: spec_fn(AnnotationModel) -> Result<Option<T>, Diagnostic>,
    position: Position,
    i: int,
    j: int,
)
    requires
        0 <= i < j < attrs.len(),
        read(attrs[i]) matches Ok(Some(_)),
        read(attrs[j]) matches Ok(Some(_)),
        forall|k: int| 0 <= k < attrs.len() ==> (#[trigger] read(attrs[k])) is Ok,
    ensures
        exactly_one(try_filter_map(attrs, read), position) == Err::<T, Diagnostic>(
            Diagnostic { kind: ErrorKind::CardinalityError, position },
        ),
{
    crate::fold::lemma_walk_error(attrs, read);
    if try_filter_map(attrs, read) is Err {
        let k = choose|k: int| crate::fold::first_failure(attrs, read, k);
        assert(read(attrs[k]) is Ok);
    }
    crate::fold::lemma_walk_keeps_two(attrs, read, i, j);
}

/// Where no annotation of a list is kept, the list does not hold exactly
/// one: the result is `CardinalityError`.
pub proof fn lemma_none_at_all<T>(
    attrs: Seq<AnnotationModel>,
    read: spec_fn(AnnotationModel) -> Result<Option<T>, Diagnostic>,
    position: Position,
)
    requires
        forall|k: int|
            0 <= k < attrs.len() ==> (#[trigger] read(attrs[k])) == Ok::<Option<T>, Diagnostic>(
                None,
            ),
    ensures
        exactly_one(try_filter_map(attrs, read), position) == Err::<T, Diagnostic>(
            Diagnostic { kind: ErrorKind::CardinalityError, position },
        ),
{
    crate::fold::lemma_walk_keeps_none(attrs, read);
}

} // verus!
