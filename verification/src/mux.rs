//! Multiplexing: one declaration in, one copy out for each name.
//!
//! Every copy is the declaration under a new name, with each attribute list
//! of its tree rewritten for the key of the copy: the `names` annotation
//! is dropped, a `mux` annotation is replaced by the content that it holds
//! for the key (or dropped where it holds none), and all other annotations
//! stay as they are.

use vstd::prelude::*;
use crate::attrs::{
    exactly_one,
    has_unknown_key,
    mux_of,
    name_keys,
    name_pairs,
    names_of,
    resolve,
    transposed,
    MuxAttr,
    MuxNamesAttr,
    MuxNamesModel,
};
use crate::diagnostic::{Diagnostic, ErrorKind};
use crate::fold::{
    keeping,
    lemma_try_map_step,
    lemma_walk_end,
    lemma_walk_failed,
    lemma_walk_step,
    models,
    try_filter_map,
    try_map,
};
use crate::syntax::{parse_meta, parsed_meta};
use crate::tree::{
    names_tag,
    Annotation,
    AnnotationModel,
    Data,
    DataModel,
    Declaration,
    DeclarationModel,
    Field,
    FieldModel,
    Fields,
    FieldsModel,
    Form,
    NamedField,
    NamedFieldModel,
    Variant,
    VariantModel,
};

verus! {

// ---------------------------------------------------------------------------
// What rewriting gives
// ---------------------------------------------------------------------------

/// The annotation that takes the place of `a`, given what the chosen
/// content was read as: its tag, its shape and its content, at the position
/// of `a`. A content that is no annotation is a failure at `a`.
pub open spec fn replaced(a: AnnotationModel, read: Option<(Seq<char>, Form, Seq<char>)>) -> Result<
    Option<AnnotationModel>,
    Diagnostic,
> {
    match read {
        Some((tag, form, inner)) => Ok(
            Some(AnnotationModel { tag, form, content: inner, position: a.position }),
        ),
        None => Err(Diagnostic { kind: ErrorKind::MalformedAnnotation, position: a.position }),
    }
}

/// The annotation that takes the place of `a` when `content` was chosen for
/// it: `content` read as an annotation, at the position of `a`.
pub open spec fn substituted(a: AnnotationModel, content: Seq<char>) -> Result<
    Option<AnnotationModel>,
    Diagnostic,
> {
    replaced(a, parsed_meta(content))
}

/// The model of an annotation as read.
pub open spec fn read_model(read: Option<(String, Form, String)>) -> Option<
    (Seq<char>, Form, Seq<char>),
> {
    match read {
        Some(meta) => Some((meta.0@, meta.1, meta.2@)),
        None => None,
    }
}

/// What becomes of one annotation in the copy with the given key, where
/// `keys` are the keys of all copies: `Ok(None)` where it is dropped.
pub open spec fn demux_attr(a: AnnotationModel, key: Option<Seq<char>>, keys: Seq<Seq<char>>) -> Result<
    Option<AnnotationModel>,
    Diagnostic,
> {
    match mux_of(a) {
        Some(Err(e)) => Err(e),
        Some(Ok(m)) => if has_unknown_key(m, keys) {
            Err(Diagnostic { kind: ErrorKind::UnknownKey, position: a.position })
        } else {
            match resolve(m, key) {
                Some(content) => substituted(a, content),
                None => Ok(None),
            }
        },
        None => if a.tag == names_tag() {
            Ok(None)
        } else {
            Ok(Some(a))
        },
    }
}

/// `demux_attr` for a fixed copy, as the step of a walk.
pub open spec fn demuxing(key: Option<Seq<char>>, keys: Seq<Seq<char>>) -> spec_fn(
    AnnotationModel,
) -> Result<Option<AnnotationModel>, Diagnostic> {
    |a: AnnotationModel| demux_attr(a, key, keys)
}

/// What becomes of an attribute list: its annotations rewritten from left
/// to right, the surviving ones in their order.
pub open spec fn rewrite_attrs(
    attrs: Seq<AnnotationModel>,
    key: Option<Seq<char>>,
    keys: Seq<Seq<char>>,
) -> Result<Seq<AnnotationModel>, Diagnostic> {
    try_filter_map(attrs, demuxing(key, keys))
}

/// What becomes of a field: its attribute list is rewritten.
pub open spec fn rewrite_field(f: FieldModel, key: Option<Seq<char>>, keys: Seq<Seq<char>>) -> Result<
    FieldModel,
    Diagnostic,
> {
    match rewrite_attrs(f.attrs, key, keys) {
        Ok(attrs) => Ok(FieldModel { attrs, ty: f.ty }),
        Err(e) => Err(e),
    }
}

/// `rewrite_field` for a fixed copy, as the step of a walk.
pub open spec fn rewriting_field(key: Option<Seq<char>>, keys: Seq<Seq<char>>) -> spec_fn(
    FieldModel,
) -> Result<FieldModel, Diagnostic> {
    |f: FieldModel| rewrite_field(f, key, keys)
}

/// What becomes of a named field: it keeps its name.
pub open spec fn rewrite_named(
    f: NamedFieldModel,
    key: Option<Seq<char>>,
    keys: Seq<Seq<char>>,
) -> Result<NamedFieldModel, Diagnostic> {
    match rewrite_field(f.field, key, keys) {
        Ok(field) => Ok(NamedFieldModel { name: f.name, field }),
        Err(e) => Err(e),
    }
}

/// `rewrite_named` for a fixed copy, as the step of a walk.
pub open spec fn rewriting_named(key: Option<Seq<char>>, keys: Seq<Seq<char>>) -> spec_fn(
    NamedFieldModel,
) -> Result<NamedFieldModel, Diagnostic> {
    |f: NamedFieldModel| rewrite_named(f, key, keys)
}

/// What becomes of a field group: its fields rewritten from left to right.
pub open spec fn rewrite_fields(
    fields: FieldsModel,
    key: Option<Seq<char>>,
    keys: Seq<Seq<char>>,
) -> Result<FieldsModel, Diagnostic> {
    match fields {
        FieldsModel::Named(named) => match try_map(named, rewriting_named(key, keys)) {
            Ok(named) => Ok(FieldsModel::Named(named)),
            Err(e) => Err(e),
        },
        FieldsModel::Unnamed(unnamed) => match try_map(unnamed, rewriting_field(key, keys)) {
            Ok(unnamed) => Ok(FieldsModel::Unnamed(unnamed)),
            Err(e) => Err(e),
        },
        FieldsModel::Unit => Ok(FieldsModel::Unit),
    }
}

/// What becomes of a variant: its own attribute list first, then its fields.
pub open spec fn rewrite_variant(
    v: VariantModel,
    key: Option<Seq<char>>,
    keys: Seq<Seq<char>>,
) -> Result<VariantModel, Diagnostic> {
    match rewrite_attrs(v.attrs, key, keys) {
        Ok(attrs) => match rewrite_fields(v.fields, key, keys) {
            Ok(fields) => Ok(VariantModel { attrs, ident: v.ident, fields }),
            Err(e) => Err(e),
        },
        Err(e) => Err(e),
    }
}

/// `rewrite_variant` for a fixed copy, as the step of a walk.
pub open spec fn rewriting_variant(key: Option<Seq<char>>, keys: Seq<Seq<char>>) -> spec_fn(
    VariantModel,
) -> Result<VariantModel, Diagnostic> {
    |v: VariantModel| rewrite_variant(v, key, keys)
}

/// What becomes of the fields or variants of a declaration: they are
/// rewritten from the first to the last.
pub open spec fn rewrite_data(data: DataModel, key: Option<Seq<char>>, keys: Seq<Seq<char>>) -> Result<
    DataModel,
    Diagnostic,
> {
    match data {
        DataModel::Struct(fields) => match rewrite_fields(fields, key, keys) {
            Ok(fields) => Ok(DataModel::Struct(fields)),
            Err(e) => Err(e),
        },
        DataModel::Enum(variants) => match try_map(variants, rewriting_variant(key, keys)) {
            Ok(variants) => Ok(DataModel::Enum(variants)),
            Err(e) => Err(e),
        },
        DataModel::Union(fields) => match rewrite_fields(fields, key, keys) {
            Ok(fields) => Ok(DataModel::Union(fields)),
            Err(e) => Err(e),
        },
    }
}

/// The copy of `d` under the name `name` for the given key: the attribute
/// list of the declaration is rewritten first, then those of its fields or
/// variants in their order, each variant before its own fields. The first
/// failure on this way is the result.
pub open spec fn rewrite_declaration(
    d: DeclarationModel,
    name: Seq<char>,
    key: Option<Seq<char>>,
    keys: Seq<Seq<char>>,
) -> Result<DeclarationModel, Diagnostic> {
    match rewrite_attrs(d.attrs, key, keys) {
        Ok(attrs) => match rewrite_data(d.data, key, keys) {
            Ok(data) => Ok(
                DeclarationModel {
                    attrs,
                    ident: name,
                    generics: d.generics,
                    data,
                    position: d.position,
                },
            ),
            Err(e) => Err(e),
        },
        Err(e) => Err(e),
    }
}

/// What one annotation of the declaration gives when the names are looked
/// for.
pub open spec fn reading_names_attr() -> spec_fn(AnnotationModel) -> Result<
    Option<MuxNamesModel>,
    Diagnostic,
> {
    |a: AnnotationModel| transposed(names_of(a))
}

/// The names of the copies of `d`: what its one `names` annotation
/// holds. The annotations of the declaration itself are read from left to
/// right; one that cannot be read fails at its own position, and a number of
/// `names` annotations other than one fails at the declaration's.
pub open spec fn names_spec(d: DeclarationModel) -> Result<MuxNamesModel, Diagnostic> {
    exactly_one(try_filter_map(d.attrs, reading_names_attr()), d.position)
}

/// The copy of `d` for one name and its key, as the step of a walk.
pub open spec fn copying(d: DeclarationModel, keys: Seq<Seq<char>>) -> spec_fn(
    (Option<Seq<char>>, Seq<char>),
) -> Result<DeclarationModel, Diagnostic> {
    |pair: (Option<Seq<char>>, Seq<char>)| rewrite_declaration(d, pair.1, pair.0, keys)
}

/// The copies of `d`: one for each name, in the order of the names. Any
/// failure is the result of the whole.
pub open spec fn multiplex(d: DeclarationModel) -> Result<Seq<DeclarationModel>, Diagnostic> {
    match names_spec(d) {
        Ok(names) => try_map(name_pairs(names), copying(d, name_keys(names))),
        Err(e) => Err(e),
    }
}

// ---------------------------------------------------------------------------
// Rewriting
// ---------------------------------------------------------------------------

/// Replaces `attr` by `content` read as an annotation.
pub fn substitute(attr: &Annotation, content: &str) -> (r: Result<Option<Annotation>, Diagnostic>)
    ensures
        models(r) == substituted(attr@, content@),
{
    match parse_meta(content) {
        Ok(meta) => replace(attr, Some(meta)),
        Err(_) => replace(attr, None),
    }
}

/// Replaces `attr` by an annotation that was read already: `None` stands
/// for a content that is no annotation.
pub fn replace(attr: &Annotation, read: Option<(String, Form, String)>) -> (r: Result<
    Option<Annotation>,
    Diagnostic,
>)
    ensures
        models(r) == replaced(attr@, read_model(read)),
{
    match read {
        Some(meta) => Ok(
            Some(Annotation { tag: meta.0, form: meta.1, content: meta.2, position: attr.position }),
        ),
        None => Err(Diagnostic { kind: ErrorKind::MalformedAnnotation, position: attr.position }),
    }
}

/// Rewrites a tree for one copy: `key` is the key of the copy, `all_keys`
/// are the keys of all copies.
pub struct Demuxer<'a> {
    pub key: Option<&'a String>,
    pub all_keys: &'a Vec<String>,
}

impl<'a> Demuxer<'a> {
    /// The key of the copy, as a model.
    pub open spec fn key_model(&self) -> Option<Seq<char>> {
        self.key.deep_view()
    }

    /// The keys of all copies, as a model.
    pub open spec fn keys_model(&self) -> Seq<Seq<char>> {
        self.all_keys.deep_view()
    }

    /// Rewrites one annotation. `Ok(None)` where it is dropped.
    pub fn demux_attr(&self, attr: &Annotation) -> (r: Result<Option<Annotation>, Diagnostic>)
        ensures
            models(r) == demux_attr(attr@, self.key_model(), self.keys_model()),
    {
        let mux = match MuxAttr::new(attr) {
            Some(Ok(mux)) => mux,
            Some(Err(e)) => {
                return Err(e);
            },
            None => {
                return Ok(
                    if attr.has_tag("names") {
                        None
                    } else {
                        Some(attr.clone())
                    },
                );
            },
        };
        if mux.has_unknown_key(self.all_keys) {
            return Err(Diagnostic { kind: ErrorKind::UnknownKey, position: attr.position });
        }
        match mux.resolve(self.key) {
            Some(content) => substitute(attr, content.as_str()),
            None => Ok(None),
        }
    }

    /// Rewrites an attribute list.
    pub fn visit_attributes(&self, attrs: &Vec<Annotation>) -> (r: Result<
        Vec<Annotation>,
        Diagnostic,
    >)
        ensures
            models(r) == rewrite_attrs(attrs.deep_view(), self.key_model(), self.keys_model()),
    {
        let ghost f = demuxing(self.key_model(), self.keys_model());
        let ghost s = attrs.deep_view();
        let mut new_attrs: Vec<Annotation> = Vec::new();
        assert(new_attrs.deep_view() =~= Seq::empty());
        let mut i: usize = 0;
        while i < attrs.len()
            invariant
                i <= attrs.len(),
                s == attrs.deep_view(),
                f == demuxing(self.key_model(), self.keys_model()),
                try_filter_map(s.take(i as int), f) == Ok::<Seq<AnnotationModel>, Diagnostic>(
                    new_attrs.deep_view(),
                ),
            decreases attrs.len() - i,
        {
            proof {
                lemma_walk_step(s, f, i as int);
            }
            let ghost before = new_attrs.deep_view();
            match self.demux_attr(&attrs[i]) {
                Ok(Some(attr)) => {
                    let ghost kept = attr@;
                    new_attrs.push(attr);
                    assert(new_attrs.deep_view() =~= before.push(kept));
                },
                Ok(None) => {},
                Err(e) => {
                    proof {
                        lemma_walk_failed(s, f, i + 1);
                    }
                    return Err(e);
                },
            }
            i = i + 1;
        }
        proof {
            lemma_walk_end(s, f);
        }
        Ok(new_attrs)
    }

    /// Rewrites a field.
    pub fn visit_field(&self, field: &Field) -> (r: Result<Field, Diagnostic>)
        ensures
            models(r) == rewrite_field(field@, self.key_model(), self.keys_model()),
    {
        match self.visit_attributes(&field.attrs) {
            Ok(attrs) => Ok(Field { attrs, ty: field.ty.clone() }),
            Err(e) => Err(e),
        }
    }

    /// Rewrites a field group.
    pub fn visit_fields(&self, fields: &Fields) -> (r: Result<Fields, Diagnostic>)
        ensures
            models(r) == rewrite_fields(fields@, self.key_model(), self.keys_model()),
    {
        match fields {
            Fields::Named(named) => {
                let ghost f = rewriting_named(self.key_model(), self.keys_model());
                let ghost s = named.deep_view();
                let mut new_fields: Vec<NamedField> = Vec::new();
                assert(new_fields.deep_view() =~= Seq::empty());
                let mut i: usize = 0;
                while i < named.len()
                    invariant
                        i <= named.len(),
                        s == named.deep_view(),
                        fields@ == FieldsModel::Named(s),
                        f == rewriting_named(self.key_model(), self.keys_model()),
                        try_map(s.take(i as int), f) == Ok::<Seq<NamedFieldModel>, Diagnostic>(
                            new_fields.deep_view(),
                        ),
                    decreases named.len() - i,
                {
                    proof {
                        lemma_try_map_step(s, f, i as int);
                    }
                    let ghost before = new_fields.deep_view();
                    match self.visit_field(&named[i].field) {
                        Ok(field) => {
                            let new_field = NamedField { name: named[i].name.clone(), field };
                            let ghost kept = new_field@;
                            new_fields.push(new_field);
                            assert(new_fields.deep_view() =~= before.push(kept));
                        },
                        Err(e) => {
                            proof {
                                lemma_walk_failed(s, keeping(f), i + 1);
                            }
                            return Err(e);
                        },
                    }
                    i = i + 1;
                }
                proof {
                    lemma_walk_end(s, keeping(f));
                }
                Ok(Fields::Named(new_fields))
            },
            Fields::Unnamed(unnamed) => {
                let ghost f = rewriting_field(self.key_model(), self.keys_model());
                let ghost s = unnamed.deep_view();
                let mut new_fields: Vec<Field> = Vec::new();
                assert(new_fields.deep_view() =~= Seq::empty());
                let mut i: usize = 0;
                while i < unnamed.len()
                    invariant
                        i <= unnamed.len(),
                        s == unnamed.deep_view(),
                        fields@ == FieldsModel::Unnamed(s),
                        f == rewriting_field(self.key_model(), self.keys_model()),
                        try_map(s.take(i as int), f) == Ok::<Seq<FieldModel>, Diagnostic>(
                            new_fields.deep_view(),
                        ),
                    decreases unnamed.len() - i,
                {
                    proof {
                        lemma_try_map_step(s, f, i as int);
                    }
                    let ghost before = new_fields.deep_view();
                    match self.visit_field(&unnamed[i]) {
                        Ok(field) => {
                            let ghost kept = field@;
                            new_fields.push(field);
                            assert(new_fields.deep_view() =~= before.push(kept));
                        },
                        Err(e) => {
                            proof {
                                lemma_walk_failed(s, keeping(f), i + 1);
                            }
                            return Err(e);
                        },
                    }
                    i = i + 1;
                }
                proof {
                    lemma_walk_end(s, keeping(f));
                }
                Ok(Fields::Unnamed(new_fields))
            },
            Fields::Unit => Ok(Fields::Unit),
        }
    }

    /// Rewrites a variant.
    pub fn visit_variant(&self, variant: &Variant) -> (r: Result<Variant, Diagnostic>)
        ensures
            models(r) == rewrite_variant(variant@, self.key_model(), self.keys_model()),
    {
        let attrs = match self.visit_attributes(&variant.attrs) {
            Ok(attrs) => attrs,
            Err(e) => {
                return Err(e);
            },
        };
        match self.visit_fields(&variant.fields) {
            Ok(fields) => Ok(Variant { attrs, ident: variant.ident.clone(), fields }),
            Err(e) => Err(e),
        }
    }

    /// Rewrites what a declaration contains.
    pub fn visit_data(&self, data: &Data) -> (r: Result<Data, Diagnostic>)
        ensures
            models(r) == rewrite_data(data@, self.key_model(), self.keys_model()),
    {
        match data {
            Data::Struct(fields) => match self.visit_fields(fields) {
                Ok(fields) => Ok(Data::Struct(fields)),
                Err(e) => Err(e),
            },
            Data::Enum(variants) => {
                let ghost f = rewriting_variant(self.key_model(), self.keys_model());
                let ghost s = variants.deep_view();
                let mut new_variants: Vec<Variant> = Vec::new();
                assert(new_variants.deep_view() =~= Seq::empty());
                let mut i: usize = 0;
                while i < variants.len()
                    invariant
                        i <= variants.len(),
                        s == variants.deep_view(),
                        data@ == DataModel::Enum(s),
                        f == rewriting_variant(self.key_model(), self.keys_model()),
                        try_map(s.take(i as int), f) == Ok::<Seq<VariantModel>, Diagnostic>(
                            new_variants.deep_view(),
                        ),
                    decreases variants.len() - i,
                {
                    proof {
                        lemma_try_map_step(s, f, i as int);
                    }
                    let ghost before = new_variants.deep_view();
                    match self.visit_variant(&variants[i]) {
                        Ok(variant) => {
                            let ghost kept = variant@;
                            new_variants.push(variant);
                            assert(new_variants.deep_view() =~= before.push(kept));
                        },
                        Err(e) => {
                            proof {
                                lemma_walk_failed(s, keeping(f), i + 1);
                            }
                            return Err(e);
                        },
                    }
                    i = i + 1;
                }
                proof {
                    lemma_walk_end(s, keeping(f));
                }
                Ok(Data::Enum(new_variants))
            },
            Data::Union(fields) => match self.visit_fields(fields) {
                Ok(fields) => Ok(Data::Union(fields)),
                Err(e) => Err(e),
            },
        }
    }

    /// Makes the copy of `input` under the name `name`.
    pub fn visit_declaration(&self, input: &Declaration, name: &String) -> (r: Result<
        Declaration,
        Diagnostic,
    >)
        ensures
            models(r) == rewrite_declaration(input@, name@, self.key_model(), self.keys_model()),
    {
        let attrs = match self.visit_attributes(&input.attrs) {
            Ok(attrs) => attrs,
            Err(e) => {
                return Err(e);
            },
        };
        match self.visit_data(&input.data) {
            Ok(data) => Ok(
                Declaration {
                    attrs,
                    ident: name.clone(),
                    generics: input.generics.clone(),
                    data,
                    position: input.position,
                },
            ),
            Err(e) => Err(e),
        }
    }
}

// ---------------------------------------------------------------------------
// The copies
// ---------------------------------------------------------------------------

/// Reads the names of the copies from the annotations of the declaration.
pub fn names_of_declaration(input: &Declaration) -> (r: Result<MuxNamesAttr, Diagnostic>)
    ensures
        models(r) == names_spec(input@),
        r matches Ok(names) ==> names.wf(),
{
    let ghost f = reading_names_attr();
    let ghost s = input.attrs.deep_view();
    let mut found: Vec<MuxNamesAttr> = Vec::new();
    assert(found.deep_view() =~= Seq::empty());
    let mut i: usize = 0;
    while i < input.attrs.len()
        invariant
            i <= input.attrs.len(),
            s == input.attrs.deep_view(),
            f == reading_names_attr(),
            try_filter_map(s.take(i as int), f) == Ok::<Seq<MuxNamesModel>, Diagnostic>(
                found.deep_view(),
            ),
        decreases input.attrs.len() - i,
    {
        proof {
            lemma_walk_step(s, f, i as int);
        }
        let ghost before = found.deep_view();
        match MuxNamesAttr::new(&input.attrs[i]) {
            Some(Ok(names)) => {
                let ghost kept = names@;
                found.push(names);
                assert(found.deep_view() =~= before.push(kept));
            },
            Some(Err(e)) => {
                proof {
                    lemma_walk_failed(s, f, i + 1);
                }
                return Err(e);
            },
            None => {},
        }
        i = i + 1;
    }
    proof {
        lemma_walk_end(s, f);
    }
    if found.len() == 1 {
        match found.pop() {
            Some(names) => {
                proof {
                    if let MuxNamesModel::Multiple(entries) = names@ {
                        lemma_name_keys_unique(input@, entries);
                    }
                }
                Ok(names)
            },
            None => Err(Diagnostic { kind: ErrorKind::CardinalityError, position: input.position }),
        }
    } else {
        Err(Diagnostic { kind: ErrorKind::CardinalityError, position: input.position })
    }
}

/// Multiplexes a declaration: one copy for each name that its `names`
/// annotation gives, in the order of the names. Nothing is returned where
/// anything fails.
pub fn derive(input: &Declaration) -> (r: Result<Vec<Declaration>, Diagnostic>)
    ensures
        models(r) == multiplex(input@),
{
    let names = match names_of_declaration(input) {
        Ok(names) => names,
        Err(e) => {
            return Err(e);
        },
    };
    let all_keys = names.keys();
    let pairs = names.iter();
    let ghost f = copying(input@, all_keys.deep_view());
    let ghost s = pairs.deep_view();
    let mut items: Vec<Declaration> = Vec::new();
    assert(items.deep_view() =~= Seq::empty());
    let mut i: usize = 0;
    while i < pairs.len()
        invariant
            i <= pairs.len(),
            s == pairs.deep_view(),
            names_spec(input@) == Ok::<MuxNamesModel, Diagnostic>(names@),
            s == name_pairs(names@),
            all_keys.deep_view() == name_keys(names@),
            f == copying(input@, all_keys.deep_view()),
            try_map(s.take(i as int), f) == Ok::<Seq<DeclarationModel>, Diagnostic>(
                items.deep_view(),
            ),
        decreases pairs.len() - i,
    {
        proof {
            lemma_try_map_step(s, f, i as int);
        }
        let ghost before = items.deep_view();
        let demuxer = Demuxer { key: pairs[i].0.as_ref(), all_keys: &all_keys };
        match demuxer.visit_declaration(input, &pairs[i].1) {
            Ok(new_input) => {
                let ghost kept = new_input@;
                items.push(new_input);
                assert(items.deep_view() =~= before.push(kept));
            },
            Err(e) => {
                proof {
                    lemma_walk_failed(s, keeping(f), i + 1);
                }
                return Err(e);
            },
        }
        i = i + 1;
    }
    proof {
        lemma_walk_end(s, keeping(f));
    }
    Ok(items)
}

/// What to tell the user about a failure of multiplexing.
pub open spec fn message_text(e: Diagnostic) -> Seq<char> {
    match e.kind {
        ErrorKind::CardinalityError => "There must be exactly one `names` attribute"@,
        kind => crate::diagnostic::message_of(kind),
    }
}

/// What to tell the user about a failure of `derive`.
pub fn message(e: &Diagnostic) -> (r: String)
    ensures
        r@ == message_text(*e),
{
    match e.kind {
        ErrorKind::CardinalityError => String::from_str(
            "There must be exactly one `names` attribute",
        ),
        _ => e.message(),
    }
}

// ---------------------------------------------------------------------------
// Theorems
// ---------------------------------------------------------------------------

/// A field without its annotations.
pub open spec fn bare_field(f: FieldModel) -> FieldModel {
    FieldModel { attrs: Seq::empty(), ty: f.ty }
}

/// A field group without the annotations of its fields.
pub open spec fn bare_fields(fields: FieldsModel) -> FieldsModel {
    match fields {
        FieldsModel::Named(named) => FieldsModel::Named(
            Seq::new(
                named.len(),
                |i: int| NamedFieldModel { name: named[i].name, field: bare_field(named[i].field) },
            ),
        ),
        FieldsModel::Unnamed(unnamed) => FieldsModel::Unnamed(
            Seq::new(unnamed.len(), |i: int| bare_field(unnamed[i])),
        ),
        FieldsModel::Unit => FieldsModel::Unit,
    }
}

/// A variant without its annotations and those of its fields.
pub open spec fn bare_variant(v: VariantModel) -> VariantModel {
    VariantModel { attrs: Seq::empty(), ident: v.ident, fields: bare_fields(v.fields) }
}

/// What a declaration contains, without any annotation.
pub open spec fn bare_data(data: DataModel) -> DataModel {
    match data {
        DataModel::Struct(fields) => DataModel::Struct(bare_fields(fields)),
        DataModel::Enum(variants) => DataModel::Enum(
            Seq::new(variants.len(), |i: int| bare_variant(variants[i])),
        ),
        DataModel::Union(fields) => DataModel::Union(bare_fields(fields)),
    }
}

/// Whether two declarations have the same shape: the same kind, the same
/// generic parameters, and the same fields and variants, with the same
/// names and types in the same order. Their own names and all annotations
/// are left out of the comparison.
pub open spec fn same_shape(a: DeclarationModel, b: DeclarationModel) -> bool {
    a.generics == b.generics && bare_data(a.data) == bare_data(b.data)
}

/// The identifiers of a list of declarations, in order.
pub open spec fn identifiers(copies: Seq<DeclarationModel>) -> Seq<Seq<char>> {
    Seq::new(copies.len(), |i: int| copies[i].ident)
}

/// The names of a list of pairs, in order.
pub open spec fn targets(entries: Seq<(Seq<char>, Seq<char>)>) -> Seq<Seq<char>> {
    Seq::new(entries.len(), |i: int| entries[i].1)
}

/// Rewriting leaves the shape of a field group as it is.
pub proof fn lemma_fields_keep_shape(
    fields: FieldsModel,
    key: Option<Seq<char>>,
    keys: Seq<Seq<char>>,
)
    requires
        rewrite_fields(fields, key, keys) is Ok,
    ensures
        bare_fields(rewrite_fields(fields, key, keys)->Ok_0) == bare_fields(fields),
{
    match fields {
        FieldsModel::Named(named) => {
            let f = rewriting_named(key, keys);
            crate::fold::lemma_try_map_ok(named, f);
            let out = try_map(named, f)->Ok_0;
            assert forall|i: int| 0 <= i < named.len() implies out[i].name == named[i].name
                && bare_field(out[i].field) == bare_field(named[i].field) by {
                assert(f(named[i]) == Ok::<NamedFieldModel, Diagnostic>(out[i]));
            }
            assert(bare_fields(FieldsModel::Named(out))->Named_0 =~= bare_fields(
                fields,
            )->Named_0);
        },
        FieldsModel::Unnamed(unnamed) => {
            let f = rewriting_field(key, keys);
            crate::fold::lemma_try_map_ok(unnamed, f);
            let out = try_map(unnamed, f)->Ok_0;
            assert forall|i: int| 0 <= i < unnamed.len() implies bare_field(out[i]) == bare_field(
                unnamed[i],
            ) by {
                assert(f(unnamed[i]) == Ok::<FieldModel, Diagnostic>(out[i]));
            }
            assert(bare_fields(FieldsModel::Unnamed(out))->Unnamed_0 =~= bare_fields(
                fields,
            )->Unnamed_0);
        },
        FieldsModel::Unit => {},
    }
}

/// Rewriting leaves the shape of what a declaration contains as it is.
pub proof fn lemma_data_keeps_shape(data: DataModel, key: Option<Seq<char>>, keys: Seq<Seq<char>>)
    requires
        rewrite_data(data, key, keys) is Ok,
    ensures
        bare_data(rewrite_data(data, key, keys)->Ok_0) == bare_data(data),
{
    match data {
        DataModel::Struct(fields) => {
            lemma_fields_keep_shape(fields, key, keys);
        },
        DataModel::Enum(variants) => {
            let f = rewriting_variant(key, keys);
            crate::fold::lemma_try_map_ok(variants, f);
            let out = try_map(variants, f)->Ok_0;
            assert forall|i: int| 0 <= i < variants.len() implies bare_variant(out[i])
                == bare_variant(variants[i]) by {
                assert(f(variants[i]) == Ok::<VariantModel, Diagnostic>(out[i]));
                lemma_fields_keep_shape(variants[i].fields, key, keys);
            }
            assert(bare_data(DataModel::Enum(out))->Enum_0 =~= bare_data(data)->Enum_0);
        },
        DataModel::Union(fields) => {
            lemma_fields_keep_shape(fields, key, keys);
        },
    }
}

/// A copy has the name that it was made for, and the shape and the position
/// of the declaration that it was made of.
pub proof fn lemma_copy_keeps_shape(
    d: DeclarationModel,
    name: Seq<char>,
    key: Option<Seq<char>>,
    keys: Seq<Seq<char>>,
)
    requires
        rewrite_declaration(d, name, key, keys) is Ok,
    ensures
        rewrite_declaration(d, name, key, keys)->Ok_0.ident == name,
        rewrite_declaration(d, name, key, keys)->Ok_0.position == d.position,
        same_shape(rewrite_declaration(d, name, key, keys)->Ok_0, d),
{
    lemma_data_keeps_shape(d.data, key, keys);
}

/// A declaration with a single name has one copy and no more: it has that
/// name and the shape of the declaration, and its annotations are those for
/// no key. (Where rewriting fails there is no copy at all: a `mux`
/// annotation with a keyed entry, for one, has a key that is not known.)
pub proof fn lemma_single_name(d: DeclarationModel, name: Seq<char>)
    requires
        names_spec(d) == Ok::<MuxNamesModel, Diagnostic>(MuxNamesModel::Single(name)),
    ensures
        multiplex(d) == match rewrite_declaration(d, name, None, Seq::empty()) {
            Ok(copy) => Ok(seq![copy]),
            Err(e) => Err(e),
        },
        multiplex(d) matches Ok(copies) ==> copies.len() == 1 && copies[0].ident == name
            && same_shape(copies[0], d),
{
    let names = MuxNamesModel::Single(name);
    let pairs = name_pairs(names);
    let f = copying(d, name_keys(names));
    assert(pairs.len() == 1);
    assert(pairs[0] == (None::<Seq<char>>, name));
    assert(pairs.drop_last() =~= Seq::empty());
    assert(try_map(pairs.drop_last(), f) == Ok::<Seq<DeclarationModel>, Diagnostic>(Seq::empty()));
    assert(f(pairs[0]) == rewrite_declaration(d, name, None, Seq::empty()));
    if rewrite_declaration(d, name, None, Seq::empty()) is Ok {
        let copy = rewrite_declaration(d, name, None, Seq::empty())->Ok_0;
        assert(Seq::<DeclarationModel>::empty().push(copy) =~= seq![copy]);
        lemma_copy_keeps_shape(d, name, None, Seq::empty());
    }
}

/// A declaration with names by key has as many copies as names, in the
/// order of the names: each has its name and the shape of the declaration,
/// and its annotations are those for its key. So the identifiers of the
/// copies are the names, and no identifier occurs twice unless a name does.
pub proof fn lemma_names_by_key(d: DeclarationModel, entries: Seq<(Seq<char>, Seq<char>)>)
    requires
        names_spec(d) == Ok::<MuxNamesModel, Diagnostic>(MuxNamesModel::Multiple(entries)),
        multiplex(d) is Ok,
    ensures
        multiplex(d)->Ok_0.len() == entries.len(),
        forall|i: int|
            0 <= i < entries.len() ==> rewrite_declaration(
                d,
                entries[i].1,
                Some(entries[i].0),
                name_keys(MuxNamesModel::Multiple(entries)),
            ) == Ok::<DeclarationModel, Diagnostic>(#[trigger] multiplex(d)->Ok_0[i]),
        forall|i: int|
            0 <= i < entries.len() ==> same_shape(#[trigger] multiplex(d)->Ok_0[i], d),
        identifiers(multiplex(d)->Ok_0) == targets(entries),
        targets(entries).no_duplicates() ==> identifiers(multiplex(d)->Ok_0).no_duplicates(),
{
    let names = MuxNamesModel::Multiple(entries);
    let keys = name_keys(names);
    let pairs = name_pairs(names);
    let f = copying(d, keys);
    crate::fold::lemma_try_map_ok(pairs, f);
    let copies = multiplex(d)->Ok_0;
    assert forall|i: int| 0 <= i < entries.len() implies rewrite_declaration(
        d,
        entries[i].1,
        Some(entries[i].0),
        keys,
    ) == Ok::<DeclarationModel, Diagnostic>(#[trigger] copies[i]) && same_shape(copies[i], d)
        && copies[i].ident == entries[i].1 by {
        assert(f(pairs[i]) == Ok::<DeclarationModel, Diagnostic>(copies[i]));
        lemma_copy_keeps_shape(d, entries[i].1, Some(entries[i].0), keys);
    }
    assert(identifiers(copies) =~= targets(entries));
}

/// The keys of names by key are all different.
pub proof fn lemma_name_keys_unique(d: DeclarationModel, entries: Seq<(Seq<char>, Seq<char>)>)
    requires
        names_spec(d) == Ok::<MuxNamesModel, Diagnostic>(MuxNamesModel::Multiple(entries)),
    ensures
        crate::attrs::distinct_keys(entries),
{
    let f = reading_names_attr();
    crate::fold::lemma_walk_kept_from(d.attrs, f);
    let found = try_filter_map(d.attrs, f)->Ok_0;
    assert(found[0] == MuxNamesModel::Multiple(entries));
    let j = choose|j: int|
        0 <= j < d.attrs.len() && #[trigger] f(d.attrs[j]) == Ok::<
            Option<MuxNamesModel>,
            Diagnostic,
        >(Some(found[0]));
    let a = d.attrs[j];
    assert(names_of(a) == Some(Ok::<MuxNamesModel, Diagnostic>(MuxNamesModel::Multiple(entries))));
    assert(crate::attrs::reading_names()(a.content) == crate::attrs::names_of_content(a.content));
    let m = crate::attrs::mux_of_content(a.content)->Ok_0;
    crate::attrs::lemma_names_keep_keys(m);
    crate::attrs::lemma_keys_are_distinct(crate::syntax::parsed_entries(a.content)->Some_0);
    let keys = name_keys(MuxNamesModel::Multiple(entries));
    assert(crate::attrs::names_of_mux(m) == Ok::<MuxNamesModel, ErrorKind>(
        MuxNamesModel::Multiple(entries),
    ));
    assert(keys.len() == entries.len());
    assert(keys.len() == m.entries.len());
    assert forall|x: int, y: int| 0 <= x < y < entries.len() implies (#[trigger] entries[x]).0 != (
    #[trigger] entries[y]).0 by {
        assert(keys[x] == entries[x].0);
        assert(keys[y] == entries[y].0);
        assert(keys[x] == m.entries[x].0);
        assert(keys[y] == m.entries[y].0);
    }
}

/// A `mux` annotation with a default and no keyed entry becomes the same in
/// every copy, whatever the key of the copy and whatever the keys of the
/// other copies.
pub proof fn lemma_default_alone(
    a: AnnotationModel,
    key1: Option<Seq<char>>,
    keys1: Seq<Seq<char>>,
    key2: Option<Seq<char>>,
    keys2: Seq<Seq<char>>,
)
    requires
        mux_of(a) matches Some(Ok(m)) && m.entries.len() == 0,
    ensures
        demux_attr(a, key1, keys1) == demux_attr(a, key2, keys2),
        demux_attr(a, key1, keys1) == match mux_of(a)->Some_0->Ok_0.default {
            Some(content) => substituted(a, content),
            None => Ok(None),
        },
{
    let m = mux_of(a)->Some_0->Ok_0;
    crate::attrs::lemma_resolve_without_keys(m, key1);
    crate::attrs::lemma_resolve_without_keys(m, key2);
}

/// A `mux` annotation becomes, in the copy whose key one of its entries
/// has, the content of that entry.
pub proof fn lemma_keyed_entry(a: AnnotationModel, i: int, keys: Seq<Seq<char>>)
    requires
        mux_of(a) matches Some(Ok(m)) && 0 <= i < m.entries.len() && !has_unknown_key(m, keys),
    ensures
        demux_attr(a, Some(mux_of(a)->Some_0->Ok_0.entries[i].0), keys) == substituted(
            a,
            mux_of(a)->Some_0->Ok_0.entries[i].1,
        ),
{
    let m = mux_of(a)->Some_0->Ok_0;
    assert(crate::attrs::reading_mux()(a.content) == crate::attrs::mux_of_content(a.content));
    crate::attrs::lemma_keys_are_distinct(crate::syntax::parsed_entries(a.content)->Some_0);
    crate::attrs::lemma_resolve_keyed(m, i);
}

/// A `mux` annotation becomes its default, or nothing where it has none, in
/// every copy whose key none of its entries has, and in the copy that has
/// no key.
pub proof fn lemma_default_elsewhere(
    a: AnnotationModel,
    key: Option<Seq<char>>,
    keys: Seq<Seq<char>>,
)
    requires
        mux_of(a) matches Some(Ok(m)) && !has_unknown_key(m, keys) && (key matches Some(k)
            ==> forall|i: int| 0 <= i < m.entries.len() ==> (#[trigger] m.entries[i]).0 != k),
    ensures
        demux_attr(a, key, keys) == match mux_of(a)->Some_0->Ok_0.default {
            Some(content) => substituted(a, content),
            None => Ok(None),
        },
{
    let m = mux_of(a)->Some_0->Ok_0;
    crate::attrs::lemma_resolve_default(m, key);
}

/// A `mux` annotation with a default that is not its first entry fails with
/// `OrderError` at its own position, in every copy, where nothing is wrong
/// with the entries before that default. (Where an earlier entry has a key
/// twice, say, that is what the annotation fails with.)
pub proof fn lemma_misplaced_default(
    a: AnnotationModel,
    i: int,
    key: Option<Seq<char>>,
    keys: Seq<Seq<char>>,
)
    requires
        a.tag == crate::tree::mux_tag(),
        a.form is List,
        crate::syntax::parsed_entries(a.content) matches Some(es) && 0 < i < es.len()
            && es[i] is Bare && crate::attrs::faultless(es, i),
    ensures
        demux_attr(a, key, keys) == Err::<Option<AnnotationModel>, Diagnostic>(
            Diagnostic { kind: ErrorKind::OrderError, position: a.position },
        ),
{
    let es = crate::syntax::parsed_entries(a.content)->Some_0;
    crate::attrs::lemma_default_not_first(es, i);
    assert(crate::attrs::reading_mux()(a.content) == crate::attrs::mux_of_content(a.content));
}

/// A `mux` annotation with a key that no copy has fails with `UnknownKey`
/// at its own position, in every copy.
pub proof fn lemma_unknown_key(
    a: AnnotationModel,
    i: int,
    key: Option<Seq<char>>,
    keys: Seq<Seq<char>>,
)
    requires
        mux_of(a) matches Some(Ok(m)) && 0 <= i < m.entries.len() && !keys.contains(
            m.entries[i].0,
        ),
    ensures
        demux_attr(a, key, keys) == Err::<Option<AnnotationModel>, Diagnostic>(
            Diagnostic { kind: ErrorKind::UnknownKey, position: a.position },
        ),
{
}

/// The annotation that takes the place of `a`, if one does, where `a` does
/// not fail.
pub open spec fn surviving(key: Option<Seq<char>>, keys: Seq<Seq<char>>) -> spec_fn(
    AnnotationModel,
) -> Option<AnnotationModel> {
    |a: AnnotationModel| demux_attr(a, key, keys)->Ok_0
}

/// An attribute list of which no annotation fails becomes the list of what
/// takes the place of its annotations, in their order.
pub proof fn lemma_survivors_in_order(
    attrs: Seq<AnnotationModel>,
    key: Option<Seq<char>>,
    keys: Seq<Seq<char>>,
)
    requires
        forall|i: int| 0 <= i < attrs.len() ==> (#[trigger] demux_attr(attrs[i], key, keys)) is Ok,
    ensures
        rewrite_attrs(attrs, key, keys) == Ok::<Seq<AnnotationModel>, Diagnostic>(
            attrs.filter_map(surviving(key, keys)),
        ),
{
    let f = demuxing(key, keys);
    let g = surviving(key, keys);
    assert forall|i: int| 0 <= i < attrs.len() implies (#[trigger] f(attrs[i])) == Ok::<
        Option<AnnotationModel>,
        Diagnostic,
    >(g(attrs[i])) by {
        assert(demux_attr(attrs[i], key, keys) is Ok);
    }
    crate::fold::lemma_walk_without_failure(attrs, f, g);
}

/// An attribute list fails exactly where one of its annotations fails, and
/// then as the first of them does.
pub proof fn lemma_first_failing_annotation(
    attrs: Seq<AnnotationModel>,
    key: Option<Seq<char>>,
    keys: Seq<Seq<char>>,
)
    ensures
        rewrite_attrs(attrs, key, keys) is Err <==> exists|i: int|
            crate::fold::first_failure(attrs, demuxing(key, keys), i),
        forall|i: int|
            crate::fold::first_failure(attrs, demuxing(key, keys), i) ==> rewrite_attrs(
                attrs,
                key,
                keys,
            ) == Err::<Seq<AnnotationModel>, Diagnostic>(demux_attr(attrs[i], key, keys)->Err_0),
{
    crate::fold::lemma_walk_error(attrs, demuxing(key, keys));
}

/// A declaration with two `names` annotations, none of which fails to be
/// read, has no copies: multiplexing fails with `CardinalityError` at the
/// position of the declaration.
pub proof fn lemma_two_names(d: DeclarationModel, i: int, j: int)
    requires
        0 <= i < j < d.attrs.len(),
        names_of(d.attrs[i]) is Some,
        names_of(d.attrs[j]) is Some,
        forall|k: int| 0 <= k < d.attrs.len() ==> !(#[trigger] names_of(d.attrs[k]) matches Some(
            Err(_),
        )),
    ensures
        multiplex(d) == Err::<Seq<DeclarationModel>, Diagnostic>(
            Diagnostic { kind: ErrorKind::CardinalityError, position: d.position },
        ),
{
    let f = reading_names_attr();
    assert forall|k: int| 0 <= k < d.attrs.len() implies (#[trigger] f(d.attrs[k])) is Ok by {
        assert(!(names_of(d.attrs[k]) matches Some(Err(_))));
    }
    assert(!(names_of(d.attrs[i]) matches Some(Err(_))));
    assert(!(names_of(d.attrs[j]) matches Some(Err(_))));
    crate::attrs::lemma_more_than_one(d.attrs, f, d.position, i, j);
}

/// A declaration without a `names` annotation has no copies:
/// multiplexing fails with `CardinalityError` at the position of the
/// declaration.
pub proof fn lemma_no_names(d: DeclarationModel)
    requires
        forall|k: int| 0 <= k < d.attrs.len() ==> (#[trigger] d.attrs[k]).tag != names_tag(),
    ensures
        multiplex(d) == Err::<Seq<DeclarationModel>, Diagnostic>(
            Diagnostic { kind: ErrorKind::CardinalityError, position: d.position },
        ),
{
    let f = reading_names_attr();
    assert forall|k: int| 0 <= k < d.attrs.len() implies (#[trigger] f(d.attrs[k])) == Ok::<
        Option<MuxNamesModel>,
        Diagnostic,
    >(None) by {
        assert(d.attrs[k].tag != names_tag());
    }
    crate::attrs::lemma_none_at_all(d.attrs, f, d.position);
}

/// The failure of a result, if it is one.
pub open spec fn failure<T>(r: Result<T, Diagnostic>) -> Option<Diagnostic> {
    match r {
        Ok(_) => None,
        Err(e) => Some(e),
    }
}

/// The annotations of unnamed fields, field by field.
pub open spec fn field_annotations(fields: Seq<FieldModel>) -> Seq<AnnotationModel>
    decreases fields.len(),
{
    if fields.len() == 0 {
        Seq::empty()
    } else {
        field_annotations(fields.drop_last()) + fields.last().attrs
    }
}

/// The annotations of named fields, field by field.
pub open spec fn named_annotations(fields: Seq<NamedFieldModel>) -> Seq<AnnotationModel>
    decreases fields.len(),
{
    if fields.len() == 0 {
        Seq::empty()
    } else {
        named_annotations(fields.drop_last()) + fields.last().field.attrs
    }
}

/// The annotations of a field group, field by field.
pub open spec fn fields_annotations(fields: FieldsModel) -> Seq<AnnotationModel> {
    match fields {
        FieldsModel::Named(named) => named_annotations(named),
        FieldsModel::Unnamed(unnamed) => field_annotations(unnamed),
        FieldsModel::Unit => Seq::empty(),
    }
}

/// The annotations of variants, variant by variant: those of the variant
/// itself, then those of its fields.
pub open spec fn variant_annotations(variants: Seq<VariantModel>) -> Seq<AnnotationModel>
    decreases variants.len(),
{
    if variants.len() == 0 {
        Seq::empty()
    } else {
        variant_annotations(variants.drop_last()) + variants.last().attrs + fields_annotations(
            variants.last().fields,
        )
    }
}

/// All annotations of a declaration in the order in which rewriting comes to
/// them: those of the declaration itself, then those of its fields or
/// variants from the first to the last, each variant before its own fields.
pub open spec fn all_annotations(d: DeclarationModel) -> Seq<AnnotationModel> {
    d.attrs + match d.data {
        DataModel::Struct(fields) => fields_annotations(fields),
        DataModel::Enum(variants) => variant_annotations(variants),
        DataModel::Union(fields) => fields_annotations(fields),
    }
}

/// A field group fails as the list of all its annotations does.
pub proof fn lemma_fields_fail_in_order(
    fields: FieldsModel,
    key: Option<Seq<char>>,
    keys: Seq<Seq<char>>,
)
    ensures
        failure(rewrite_fields(fields, key, keys)) == failure(
            rewrite_attrs(fields_annotations(fields), key, keys),
        ),
{
    match fields {
        FieldsModel::Named(named) => {
            lemma_named_fail_in_order(named, key, keys);
        },
        FieldsModel::Unnamed(unnamed) => {
            lemma_unnamed_fail_in_order(unnamed, key, keys);
        },
        FieldsModel::Unit => {},
    }
}

proof fn lemma_named_fail_in_order(
    fields: Seq<NamedFieldModel>,
    key: Option<Seq<char>>,
    keys: Seq<Seq<char>>,
)
    ensures
        failure(try_map(fields, rewriting_named(key, keys))) == failure(
            rewrite_attrs(named_annotations(fields), key, keys),
        ),
    decreases fields.len(),
{
    if fields.len() > 0 {
        lemma_named_fail_in_order(fields.drop_last(), key, keys);
        crate::fold::lemma_walk_concat(
            named_annotations(fields.drop_last()),
            fields.last().field.attrs,
            demuxing(key, keys),
        );
        assert(rewriting_named(key, keys)(fields.last()) == rewrite_named(
            fields.last(),
            key,
            keys,
        ));
    }
}

proof fn lemma_unnamed_fail_in_order(
    fields: Seq<FieldModel>,
    key: Option<Seq<char>>,
    keys: Seq<Seq<char>>,
)
    ensures
        failure(try_map(fields, rewriting_field(key, keys))) == failure(
            rewrite_attrs(field_annotations(fields), key, keys),
        ),
    decreases fields.len(),
{
    if fields.len() > 0 {
        lemma_unnamed_fail_in_order(fields.drop_last(), key, keys);
        crate::fold::lemma_walk_concat(
            field_annotations(fields.drop_last()),
            fields.last().attrs,
            demuxing(key, keys),
        );
        assert(rewriting_field(key, keys)(fields.last()) == rewrite_field(
            fields.last(),
            key,
            keys,
        ));
    }
}

proof fn lemma_variants_fail_in_order(
    variants: Seq<VariantModel>,
    key: Option<Seq<char>>,
    keys: Seq<Seq<char>>,
)
    ensures
        failure(try_map(variants, rewriting_variant(key, keys))) == failure(
            rewrite_attrs(variant_annotations(variants), key, keys),
        ),
    decreases variants.len(),
{
    if variants.len() > 0 {
        let last = variants.last();
        lemma_variants_fail_in_order(variants.drop_last(), key, keys);
        lemma_fields_fail_in_order(last.fields, key, keys);
        crate::fold::lemma_walk_concat(
            variant_annotations(variants.drop_last()),
            last.attrs,
            demuxing(key, keys),
        );
        crate::fold::lemma_walk_concat(
            variant_annotations(variants.drop_last()) + last.attrs,
            fields_annotations(last.fields),
            demuxing(key, keys),
        );
        assert(rewriting_variant(key, keys)(last) == rewrite_variant(last, key, keys));
    }
}

/// First failure first: making a copy fails exactly where one of the
/// annotations of the declaration fails, and then as the first of them
/// does, in the order of `all_annotations`.
pub proof fn lemma_copy_fails_in_order(
    d: DeclarationModel,
    name: Seq<char>,
    key: Option<Seq<char>>,
    keys: Seq<Seq<char>>,
)
    ensures
        failure(rewrite_declaration(d, name, key, keys)) == failure(
            rewrite_attrs(all_annotations(d), key, keys),
        ),
        rewrite_declaration(d, name, key, keys) is Err <==> exists|i: int|
            crate::fold::first_failure(all_annotations(d), demuxing(key, keys), i),
        forall|i: int|
            crate::fold::first_failure(all_annotations(d), demuxing(key, keys), i)
                ==> rewrite_declaration(d, name, key, keys) == Err::<DeclarationModel, Diagnostic>(
                demux_attr(all_annotations(d)[i], key, keys)->Err_0,
            ),
{
    let f = demuxing(key, keys);
    match d.data {
        DataModel::Struct(fields) => {
            lemma_fields_fail_in_order(fields, key, keys);
            crate::fold::lemma_walk_concat(d.attrs, fields_annotations(fields), f);
        },
        DataModel::Enum(variants) => {
            lemma_variants_fail_in_order(variants, key, keys);
            crate::fold::lemma_walk_concat(d.attrs, variant_annotations(variants), f);
        },
        DataModel::Union(fields) => {
            lemma_fields_fail_in_order(fields, key, keys);
            crate::fold::lemma_walk_concat(d.attrs, fields_annotations(fields), f);
        },
    }
    lemma_first_failing_annotation(all_annotations(d), key, keys);
}

/// Whether `a`, where it is a `mux` annotation, is well formed and has no
/// keyed entry: it can be read, it holds a default at most, and that default
/// reads as an annotation.
pub open spec fn default_at_most(a: AnnotationModel) -> bool {
    mux_of(a) is Some ==> (mux_of(a) matches Some(Ok(m)) && m.entries.len() == 0 && (
    m.default matches Some(content) ==> parsed_meta(content) is Some))
}

/// A declaration with a single name, of which every `mux` annotation is
/// well formed and has no keyed entry, is multiplexed with success: there is
/// one copy and no more, it has that name, and it has the kind, the generic
/// parameters and the fields or variants of the declaration.
pub proof fn lemma_single_name_succeeds(d: DeclarationModel, name: Seq<char>)
    requires
        names_spec(d) == Ok::<MuxNamesModel, Diagnostic>(MuxNamesModel::Single(name)),
        forall|i: int|
            0 <= i < all_annotations(d).len() ==> default_at_most(#[trigger] all_annotations(d)[i]),
    ensures
        multiplex(d) matches Ok(copies) && copies.len() == 1 && copies[0].ident == name
            && same_shape(copies[0], d),
{
    let keys = Seq::<Seq<char>>::empty();
    let all = all_annotations(d);
    lemma_copy_fails_in_order(d, name, None, keys);
    if rewrite_declaration(d, name, None, keys) is Err {
        let i = choose|i: int| crate::fold::first_failure(all, demuxing(None, keys), i);
        assert(default_at_most(all[i]));
        assert(demux_attr(all[i], None, keys) is Err);
    }
    lemma_single_name(d, name);
}

} // verus!
