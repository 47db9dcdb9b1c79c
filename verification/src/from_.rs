//! Conversions between declarations of the same shape.
//!
//! For a declaration `D` that lists source types, one routine is described
//! for each source `S` other than `D` itself. The routine takes a value of
//! `S` apart, field by field, and puts the same fields together as a value
//! of `D`: named fields by name, unnamed fields by place. For a tagged
//! union it does so variant by variant, for the variants that `D` declares.
//! That `S` and `D` really have the same shape is never looked at here: it
//! shows when the routine is compiled.

use vstd::prelude::*;
use crate::attrs::{exactly_one, from_of, transposed, FromAttr, FromAttrModel};
use crate::diagnostic::{Diagnostic, ErrorKind};
use crate::fold::{lemma_walk_end, lemma_walk_failed, lemma_walk_step, models, try_filter_map};
use crate::syntax::{TypeRef, TypeRefModel};
use crate::tree::{
    same_text,
    AnnotationModel,
    Data,
    DataModel,
    Declaration,
    DeclarationModel,
    Fields,
    FieldsModel,
    VariantModel,
};

verus! {

// ---------------------------------------------------------------------------
// Routines
// ---------------------------------------------------------------------------

/// The names under which the fields of one field group are bound: the field
/// names of a named group, made-up names `t0`, `t1`, ... for an unnamed one.
#[derive(Clone, Debug, PartialEq, Eq)]
pub enum Bindings {
    Named(Vec<String>),
    Unnamed(Vec<String>),
    Unit,
}

/// The model of [`Bindings`].
pub enum BindingsModel {
    Named(Seq<Seq<char>>),
    Unnamed(Seq<Seq<char>>),
    Unit,
}

impl View for Bindings {
    type V = BindingsModel;

    open spec fn view(&self) -> BindingsModel {
        match self {
            Bindings::Named(names) => BindingsModel::Named(names.deep_view()),
            Bindings::Unnamed(names) => BindingsModel::Unnamed(names.deep_view()),
            Bindings::Unit => BindingsModel::Unit,
        }
    }
}

impl DeepView for Bindings {
    type V = BindingsModel;

    open spec fn deep_view(&self) -> BindingsModel {
        self@
    }
}

/// One arm of the conversion of a tagged union: the variant of this name is
/// taken apart and put together with these bindings.
#[derive(Clone, Debug, PartialEq, Eq)]
pub struct Arm {
    pub variant: String,
    pub bindings: Bindings,
}

/// The model of an [`Arm`].
pub struct ArmModel {
    pub variant: Seq<char>,
    pub bindings: BindingsModel,
}

impl View for Arm {
    type V = ArmModel;

    open spec fn view(&self) -> ArmModel {
        ArmModel { variant: self.variant@, bindings: self.bindings@ }
    }
}

impl DeepView for Arm {
    type V = ArmModel;

    open spec fn deep_view(&self) -> ArmModel {
        self@
    }
}

/// What a routine does with its argument.
#[derive(Clone, Debug, PartialEq, Eq)]
pub enum Body {
    /// One field group is taken apart and put together.
    Struct(Bindings),
    /// The argument is matched against these arms, in this order.
    Enum(Vec<Arm>),
}

/// The model of a [`Body`].
pub enum BodyModel {
    Struct(BindingsModel),
    Enum(Seq<ArmModel>),
}

impl View for Body {
    type V = BodyModel;

    open spec fn view(&self) -> BodyModel {
        match self {
            Body::Struct(bindings) => BodyModel::Struct(bindings@),
            Body::Enum(arms) => BodyModel::Enum(arms.deep_view()),
        }
    }
}

impl DeepView for Body {
    type V = BodyModel;

    open spec fn deep_view(&self) -> BodyModel {
        self@
    }
}

/// A conversion routine from the type `source` to the type `target`.
#[derive(Clone, Debug, PartialEq, Eq)]
pub struct Routine {
    /// The source type, as it was written in the annotation.
    pub source: String,
    /// The identifier of the declaration that the routine builds.
    pub target: String,
    pub body: Body,
}

/// The model of a [`Routine`].
pub struct RoutineModel {
    pub source: Seq<char>,
    pub target: Seq<char>,
    pub body: BodyModel,
}

impl View for Routine {
    type V = RoutineModel;

    open spec fn view(&self) -> RoutineModel {
        RoutineModel { source: self.source@, target: self.target@, body: self.body@ }
    }
}

impl DeepView for Routine {
    type V = RoutineModel;

    open spec fn deep_view(&self) -> RoutineModel {
        self@
    }
}

// ---------------------------------------------------------------------------
// What conversion gives
// ---------------------------------------------------------------------------

/// The character of a decimal digit.
pub open spec fn digit(d: nat) -> char {
    if d == 0 {
        '0'
    } else if d == 1 {
        '1'
    } else if d == 2 {
        '2'
    } else if d == 3 {
        '3'
    } else if d == 4 {
        '4'
    } else if d == 5 {
        '5'
    } else if d == 6 {
        '6'
    } else if d == 7 {
        '7'
    } else if d == 8 {
        '8'
    } else {
        '9'
    }
}

/// A number in decimal notation, without leading zeros.
pub open spec fn decimal(n: nat) -> Seq<char>
    decreases n,
{
    if n < 10 {
        seq![digit(n)]
    } else {
        decimal(n / 10).push(digit(n % 10))
    }
}

/// The name under which the unnamed field at place `i` is bound: `t0`,
/// `t1`, and so on.
pub open spec fn positional_name(i: nat) -> Seq<char> {
    seq!['t'] + decimal(i)
}

/// The bindings for a field group.
pub open spec fn bindings_of(fields: FieldsModel) -> BindingsModel {
    match fields {
        FieldsModel::Named(named) => BindingsModel::Named(
            Seq::new(named.len(), |i: int| named[i].name),
        ),
        FieldsModel::Unnamed(unnamed) => BindingsModel::Unnamed(
            Seq::new(unnamed.len(), |i: int| positional_name(i as nat)),
        ),
        FieldsModel::Unit => BindingsModel::Unit,
    }
}

/// The arm for a variant.
pub open spec fn arm_of(v: VariantModel) -> ArmModel {
    ArmModel { variant: v.ident, bindings: bindings_of(v.fields) }
}

/// The routine that converts `source` into the type that `d` declares. It
/// has one arm for each variant of `d`, in the order of `d`.
pub open spec fn routine_for(d: DeclarationModel, source: TypeRefModel) -> Result<
    RoutineModel,
    Diagnostic,
> {
    match d.data {
        DataModel::Struct(fields) => Ok(
            RoutineModel {
                source: source.path,
                target: d.ident,
                body: BodyModel::Struct(bindings_of(fields)),
            },
        ),
        DataModel::Enum(variants) => Ok(
            RoutineModel {
                source: source.path,
                target: d.ident,
                body: BodyModel::Enum(Seq::new(variants.len(), |i: int| arm_of(variants[i]))),
            },
        ),
        DataModel::Union(fields) => Err(
            Diagnostic { kind: ErrorKind::UnsupportedKind, position: d.position },
        ),
    }
}

/// Whether `source` names the type that `d` itself declares.
pub open spec fn is_self_reference(d: DeclarationModel, source: TypeRefModel) -> bool {
    source.ident == Some(d.ident)
}

/// What one listed source gives: nothing for the declared type itself,
/// else its routine.
pub open spec fn converting(d: DeclarationModel) -> spec_fn(TypeRefModel) -> Result<
    Option<RoutineModel>,
    Diagnostic,
> {
    |source: TypeRefModel|
        if is_self_reference(d, source) {
            Ok(None)
        } else {
            match routine_for(d, source) {
                Ok(routine) => Ok(Some(routine)),
                Err(e) => Err(e),
            }
        }
}

/// What one annotation of the declaration gives when the list of sources
/// is looked for.
pub open spec fn reading_from_attr() -> spec_fn(AnnotationModel) -> Result<
    Option<FromAttrModel>,
    Diagnostic,
> {
    |a: AnnotationModel| transposed(from_of(a))
}

/// The source types of `d`: what its one `from` annotation holds. The
/// annotations of the declaration itself are read from left to right; one
/// that cannot be read fails at its own position, and a number of `from`
/// annotations other than one fails at the declaration's.
pub open spec fn conversion_spec(d: DeclarationModel) -> Result<FromAttrModel, Diagnostic> {
    exactly_one(try_filter_map(d.attrs, reading_from_attr()), d.position)
}

/// The routines for `d`: one for each listed source other than `d` itself,
/// in the order of the list. Any failure is the result of the whole.
pub open spec fn convert(d: DeclarationModel) -> Result<Seq<RoutineModel>, Diagnostic> {
    match conversion_spec(d) {
        Ok(from) => try_filter_map(from.types, converting(d)),
        Err(e) => Err(e),
    }
}

// ---------------------------------------------------------------------------
// Generating
// ---------------------------------------------------------------------------

/// The text of one decimal digit.
fn digit_text(d: usize) -> (r: &'static str)
    requires
        d < 10,
    ensures
        r@ == seq![digit(d as nat)],
{
    proof {
        reveal_strlit("0");
        reveal_strlit("1");
        reveal_strlit("2");
        reveal_strlit("3");
        reveal_strlit("4");
        reveal_strlit("5");
        reveal_strlit("6");
        reveal_strlit("7");
        reveal_strlit("8");
        reveal_strlit("9");
    }
    let r = if d == 0 {
        "0"
    } else if d == 1 {
        "1"
    } else if d == 2 {
        "2"
    } else if d == 3 {
        "3"
    } else if d == 4 {
        "4"
    } else if d == 5 {
        "5"
    } else if d == 6 {
        "6"
    } else if d == 7 {
        "7"
    } else if d == 8 {
        "8"
    } else {
        "9"
    };
    assert(r@ =~= seq![digit(d as nat)]);
    r
}

/// Appends `n` in decimal notation to `text`.
fn append_decimal(text: &mut String, n: usize)
    ensures
        final(text)@ == old(text)@ + decimal(n as nat),
    decreases n,
{
    if n >= 10 {
        append_decimal(text, n / 10);
    }
    text.append(digit_text(n % 10));
    assert(text@ =~= old(text)@ + decimal(n as nat));
}

/// The name under which the unnamed field at place `i` is bound.
pub fn positional(i: usize) -> (r: String)
    ensures
        r@ == positional_name(i as nat),
{
    proof {
        reveal_strlit("t");
    }
    let mut name = String::from_str("t");
    append_decimal(&mut name, i);
    assert(name@ =~= positional_name(i as nat));
    name
}

/// The bindings for a field group.
pub fn list_fields(fields: &Fields) -> (r: Bindings)
    ensures
        r@ == bindings_of(fields@),
{
    match fields {
        Fields::Named(named) => {
            let mut names: Vec<String> = Vec::new();
            let mut i: usize = 0;
            while i < named.len()
                invariant
                    i <= named.len(),
                    names.len() == i,
                    forall|j: int|
                        0 <= j < i ==> (#[trigger] names.deep_view()[j]) == named.deep_view()[j].name,
                decreases named.len() - i,
            {
                let ghost before = names.deep_view();
                names.push(named[i].name.clone());
                assert(names.deep_view() =~= before.push(named.deep_view()[i as int].name));
                i = i + 1;
            }
            assert(names.deep_view() =~= Seq::new(
                named.deep_view().len(),
                |i: int| named.deep_view()[i].name,
            ));
            Bindings::Named(names)
        },
        Fields::Unnamed(unnamed) => {
            let mut names: Vec<String> = Vec::new();
            let mut i: usize = 0;
            while i < unnamed.len()
                invariant
                    i <= unnamed.len(),
                    names.len() == i,
                    forall|j: int|
                        0 <= j < i ==> (#[trigger] names.deep_view()[j]) == positional_name(
                            j as nat,
                        ),
                decreases unnamed.len() - i,
            {
                let ghost before = names.deep_view();
                names.push(positional(i));
                assert(names.deep_view() =~= before.push(positional_name(i as nat)));
                i = i + 1;
            }
            assert(names.deep_view() =~= Seq::new(
                unnamed.deep_view().len(),
                |i: int| positional_name(i as nat),
            ));
            Bindings::Unnamed(names)
        },
        Fields::Unit => Bindings::Unit,
    }
}

/// The routine that converts `src` into the type that `input` declares.
pub fn derive_single(input: &Declaration, src: &TypeRef) -> (r: Result<Routine, Diagnostic>)
    ensures
        models(r) == routine_for(input@, src@),
{
    let body = match &input.data {
        Data::Struct(fields) => Body::Struct(list_fields(fields)),
        Data::Enum(variants) => {
            let mut arms: Vec<Arm> = Vec::new();
            let mut i: usize = 0;
            while i < variants.len()
                invariant
                    i <= variants.len(),
                    arms.len() == i,
                    forall|j: int|
                        0 <= j < i ==> (#[trigger] arms.deep_view()[j]) == arm_of(
                            variants.deep_view()[j],
                        ),
                decreases variants.len() - i,
            {
                let ghost before = arms.deep_view();
                let arm = Arm {
                    variant: variants[i].ident.clone(),
                    bindings: list_fields(&variants[i].fields),
                };
                let ghost added = arm@;
                arms.push(arm);
                assert(arms.deep_view() =~= before.push(added));
                i = i + 1;
            }
            assert(arms.deep_view() =~= Seq::new(
                variants.deep_view().len(),
                |i: int| arm_of(variants.deep_view()[i]),
            ));
            Body::Enum(arms)
        },
        Data::Union(_) => {
            return Err(Diagnostic { kind: ErrorKind::UnsupportedKind, position: input.position });
        },
    };
    Ok(Routine { source: src.path.clone(), target: input.ident.clone(), body })
}

/// Whether `src` names the type that `input` itself declares.
pub fn refers_to_itself(input: &Declaration, src: &TypeRef) -> (r: bool)
    ensures
        r == is_self_reference(input@, src@),
{
    match &src.ident {
        Some(ident) => same_text(ident, &input.ident),
        None => false,
    }
}

/// Reads the source types from the annotations of the declaration.
pub fn sources_of_declaration(input: &Declaration) -> (r: Result<FromAttr, Diagnostic>)
    ensures
        models(r) == conversion_spec(input@),
{
    let ghost f = reading_from_attr();
    let ghost s = input.attrs.deep_view();
    let mut found: Vec<FromAttr> = Vec::new();
    assert(found.deep_view() =~= Seq::empty());
    let mut i: usize = 0;
    while i < input.attrs.len()
        invariant
            i <= input.attrs.len(),
            s == input.attrs.deep_view(),
            f == reading_from_attr(),
            try_filter_map(s.take(i as int), f) == Ok::<Seq<FromAttrModel>, Diagnostic>(
                found.deep_view(),
            ),
        decreases input.attrs.len() - i,
    {
        proof {
            lemma_walk_step(s, f, i as int);
        }
        let ghost before = found.deep_view();
        match FromAttr::new(&input.attrs[i]) {
            Some(Ok(from)) => {
                let ghost kept = from@;
                found.push(from);
                assert(found.deep_view() =~= before.push(kept));
            },
            Some(Err(e)) => {
                proof {
                    lemma_walk_failed(s, f, i + 1);
                }
                return Err(e);
            },
            None => {},
        }
        i = i + 1;
    }
    proof {
        lemma_walk_end(s, f);
    }
    if found.len() == 1 {
        match found.pop() {
            Some(from) => Ok(from),
            None => Err(Diagnostic { kind: ErrorKind::CardinalityError, position: input.position }),
        }
    } else {
        Err(Diagnostic { kind: ErrorKind::CardinalityError, position: input.position })
    }
}

/// Generates the conversions into the declared type: one routine for each
/// type that its `from` annotation lists, but for the declared type itself,
/// in the order of the list. Nothing is returned where anything fails.
pub fn derive(input: &Declaration) -> (r: Result<Vec<Routine>, Diagnostic>)
    ensures
        models(r) == convert(input@),
{
    let attr = match sources_of_declaration(input) {
        Ok(attr) => attr,
        Err(e) => {
            return Err(e);
        },
    };
    let ghost f = converting(input@);
    let ghost s = attr.types.deep_view();
    let mut accum: Vec<Routine> = Vec::new();
    assert(accum.deep_view() =~= Seq::empty());
    let mut i: usize = 0;
    while i < attr.types.len()
        invariant
            i <= attr.types.len(),
            s == attr.types.deep_view(),
            f == converting(input@),
            conversion_spec(input@) == Ok::<FromAttrModel, Diagnostic>(attr@),
            try_filter_map(s.take(i as int), f) == Ok::<Seq<RoutineModel>, Diagnostic>(
                accum.deep_view(),
            ),
        decreases attr.types.len() - i,
    {
        proof {
            lemma_walk_step(s, f, i as int);
        }
        let ghost before = accum.deep_view();
        if !refers_to_itself(input, &attr.types[i]) {
            match derive_single(input, &attr.types[i]) {
                Ok(routine) => {
                    let ghost kept = routine@;
                    accum.push(routine);
                    assert(accum.deep_view() =~= before.push(kept));
                },
                Err(e) => {
                    proof {
                        lemma_walk_failed(s, f, i + 1);
                    }
                    return Err(e);
                },
            }
        }
        i = i + 1;
    }
    proof {
        lemma_walk_end(s, f);
    }
    Ok(accum)
}

/// What to tell the user about a failure of converting.
pub open spec fn message_text(e: Diagnostic) -> Seq<char> {
    match e.kind {
        ErrorKind::CardinalityError => "There must be exactly one `from` attribute"@,
        kind => crate::diagnostic::message_of(kind),
    }
}

/// What to tell the user about a failure of `derive`.
pub fn message(e: &Diagnostic) -> (r: String)
    ensures
        r@ == message_text(*e),
{
    match e.kind {
        ErrorKind::CardinalityError => String::from_str(
            "There must be exactly one `from` attribute",
        ),
        _ => e.message(),
    }
}

// ---------------------------------------------------------------------------
// Routines as source text
// ---------------------------------------------------------------------------

/// The names, each followed by a comma.
pub open spec fn listed(names: Seq<Seq<char>>) -> Seq<char>
    decreases names.len(),
{
    if names.len() == 0 {
        Seq::empty()
    } else {
        listed(names.drop_last()) + names.last() + ", "@
    }
}

/// The bindings as they stand both in a pattern and in the expression that
/// builds the value: `{ a, b, }`, `(t0, t1, )`, or nothing.
pub open spec fn bindings_text(bindings: BindingsModel) -> Seq<char> {
    match bindings {
        BindingsModel::Named(names) => "{ "@ + listed(names) + "}"@,
        BindingsModel::Unnamed(names) => "("@ + listed(names) + ")"@,
        BindingsModel::Unit => Seq::empty(),
    }
}

/// One arm: `source::V bindings => Self::V bindings, `.
pub open spec fn arm_text(source: Seq<char>, arm: ArmModel) -> Seq<char> {
    source + "::"@ + arm.variant + " "@ + bindings_text(arm.bindings) + " => Self::"@
        + arm.variant + " "@ + bindings_text(arm.bindings) + ", "@
}

/// The arms one after the other.
pub open spec fn arms_text(source: Seq<char>, arms: Seq<ArmModel>) -> Seq<char>
    decreases arms.len(),
{
    if arms.len() == 0 {
        Seq::empty()
    } else {
        arms_text(source, arms.drop_last()) + arm_text(source, arms.last())
    }
}

/// What stands inside the routine: for a record
/// `let source bindings = value; Self bindings`, for a tagged union
/// `match value { arms }`.
pub open spec fn body_text(source: Seq<char>, body: BodyModel) -> Seq<char> {
    match body {
        BodyModel::Struct(bindings) => "let "@ + source + " "@ + bindings_text(bindings)
            + " = value; Self "@ + bindings_text(bindings),
        BodyModel::Enum(arms) => "match value { "@ + arms_text(source, arms) + "}"@,
    }
}

/// The routine as an implementation of `From`:
/// `impl From<source> for target { fn from(value: source) -> Self { body } }`.
pub open spec fn routine_text(routine: RoutineModel) -> Seq<char> {
    "impl From<"@ + routine.source + "> for "@ + routine.target + " { fn from(value: "@
        + routine.source + ") -> Self { "@ + body_text(routine.source, routine.body) + " } }"@
}

/// Appends the names, each followed by a comma.
fn push_listed(text: &mut String, names: &Vec<String>)
    ensures
        final(text)@ == old(text)@ + listed(names.deep_view()),
{
    let ghost all = names.deep_view();
    let mut i: usize = 0;
    assert(all.take(0) =~= Seq::empty());
    assert(text@ =~= old(text)@ + listed(all.take(0)));
    while i < names.len()
        invariant
            i <= names.len(),
            all == names.deep_view(),
            text@ == old(text)@ + listed(all.take(i as int)),
        decreases names.len() - i,
    {
        let ghost before = text@;
        text.append(names[i].as_str());
        text.append(", ");
        proof {
            assert(all.take(i + 1).drop_last() =~= all.take(i as int));
            assert(all.take(i + 1).last() == all[i as int]);
            assert(text@ =~= old(text)@ + listed(all.take(i + 1)));
        }
        i = i + 1;
    }
    assert(all.take(i as int) =~= all);
}

/// Appends the bindings.
fn push_bindings(text: &mut String, bindings: &Bindings)
    ensures
        final(text)@ == old(text)@ + bindings_text(bindings@),
{
    match bindings {
        Bindings::Named(names) => {
            text.append("{ ");
            push_listed(text, names);
            text.append("}");
            assert(text@ =~= old(text)@ + bindings_text(bindings@));
        },
        Bindings::Unnamed(names) => {
            text.append("(");
            push_listed(text, names);
            text.append(")");
            assert(text@ =~= old(text)@ + bindings_text(bindings@));
        },
        Bindings::Unit => {
            assert(text@ =~= old(text)@ + bindings_text(bindings@));
        },
    }
}

/// Appends one arm.
fn push_arm(text: &mut String, source: &String, arm: &Arm)
    ensures
        final(text)@ == old(text)@ + arm_text(source@, arm@),
{
    text.append(source.as_str());
    text.append("::");
    text.append(arm.variant.as_str());
    text.append(" ");
    push_bindings(text, &arm.bindings);
    text.append(" => Self::");
    text.append(arm.variant.as_str());
    text.append(" ");
    push_bindings(text, &arm.bindings);
    text.append(", ");
    assert(text@ =~= old(text)@ + arm_text(source@, arm@));
}

/// Appends what stands inside the routine.
fn push_body(text: &mut String, source: &String, body: &Body)
    ensures
        final(text)@ == old(text)@ + body_text(source@, body@),
{
    match body {
        Body::Struct(bindings) => {
            text.append("let ");
            text.append(source.as_str());
            text.append(" ");
            push_bindings(text, bindings);
            text.append(" = value; Self ");
            push_bindings(text, bindings);
            assert(text@ =~= old(text)@ + body_text(source@, body@));
        },
        Body::Enum(arms) => {
            text.append("match value { ");
            let ghost all = arms.deep_view();
            let ghost start = text@;
            let mut i: usize = 0;
            assert(all.take(0) =~= Seq::empty());
            assert(text@ =~= start + arms_text(source@, all.take(0)));
            while i < arms.len()
                invariant
                    i <= arms.len(),
                    all == arms.deep_view(),
                    text@ == start + arms_text(source@, all.take(i as int)),
                decreases arms.len() - i,
            {
                push_arm(text, source, &arms[i]);
                proof {
                    assert(all.take(i + 1).drop_last() =~= all.take(i as int));
                    assert(all.take(i + 1).last() == all[i as int]);
                    assert(text@ =~= start + arms_text(source@, all.take(i + 1)));
                }
                i = i + 1;
            }
            assert(all.take(i as int) =~= all);
            text.append("}");
            assert(text@ =~= old(text)@ + body_text(source@, body@));
        },
    }
}

impl Routine {
    /// The routine as source text: an implementation of `From<source>` for
    /// the target.
    pub fn render(&self) -> (r: String)
        ensures
            r@ == routine_text(self@),
    {
        let mut text = String::from_str("impl From<");
        text.append(self.source.as_str());
        text.append("> for ");
        text.append(self.target.as_str());
        text.append(" { fn from(value: ");
        text.append(self.source.as_str());
        text.append(") -> Self { ");
        push_body(&mut text, &self.source, &self.body);
        text.append(" } }");
        assert(text@ =~= routine_text(self@));
        text
    }
}

// ---------------------------------------------------------------------------
// Theorems
// ---------------------------------------------------------------------------

/// The routine for a source other than the declared type itself, where the
/// declaration is a record or a tagged union.
pub open spec fn routine_if_other(d: DeclarationModel) -> spec_fn(TypeRefModel) -> Option<
    RoutineModel,
> {
    |source: TypeRefModel|
        if is_self_reference(d, source) {
            None
        } else {
            Some(routine_for(d, source)->Ok_0)
        }
}

/// A record or a tagged union with one readable `from` annotation gets one
/// routine for each listed source other than itself, in the order of the
/// list, and nothing fails. A source that is listed twice gets two routines.
pub proof fn lemma_routine_for_each_other_source(d: DeclarationModel, from: FromAttrModel)
    requires
        conversion_spec(d) == Ok::<FromAttrModel, Diagnostic>(from),
        !(d.data is Union),
    ensures
        convert(d) == Ok::<Seq<RoutineModel>, Diagnostic>(
            from.types.filter_map(routine_if_other(d)),
        ),
{
    let f = converting(d);
    let g = routine_if_other(d);
    assert forall|i: int| 0 <= i < from.types.len() implies (#[trigger] f(from.types[i])) == Ok::<
        Option<RoutineModel>,
        Diagnostic,
    >(g(from.types[i])) by {}
    crate::fold::lemma_walk_without_failure(from.types, f, g);
}

/// A declaration that lists only itself gets no routine, and nothing fails,
/// of whatever kind the declaration is.
pub proof fn lemma_only_itself(d: DeclarationModel, from: FromAttrModel)
    requires
        conversion_spec(d) == Ok::<FromAttrModel, Diagnostic>(from),
        forall|i: int| 0 <= i < from.types.len() ==> is_self_reference(d, #[trigger] from.types[i]),
    ensures
        convert(d) == Ok::<Seq<RoutineModel>, Diagnostic>(Seq::empty()),
{
    let f = converting(d);
    assert forall|i: int| 0 <= i < from.types.len() implies (#[trigger] f(from.types[i])) == Ok::<
        Option<RoutineModel>,
        Diagnostic,
    >(None) by {
        assert(is_self_reference(d, from.types[i]));
    }
    crate::fold::lemma_walk_keeps_none(from.types, f);
}

/// A declaration that is neither a record nor a tagged union, and that
/// lists a source other than itself, fails with `UnsupportedKind` at the
/// position of the declaration.
pub proof fn lemma_union_unsupported(d: DeclarationModel, from: FromAttrModel, i: int)
    requires
        conversion_spec(d) == Ok::<FromAttrModel, Diagnostic>(from),
        d.data is Union,
        0 <= i < from.types.len(),
        !is_self_reference(d, from.types[i]),
    ensures
        convert(d) == Err::<Seq<RoutineModel>, Diagnostic>(
            Diagnostic { kind: ErrorKind::UnsupportedKind, position: d.position },
        ),
{
    let f = converting(d);
    assert(f(from.types[i]) is Err);
    crate::fold::lemma_some_first_failure(from.types, f, i);
    crate::fold::lemma_walk_error(from.types, f);
    let k = choose|k: int| 0 <= k <= i && crate::fold::first_failure(from.types, f, k);
    assert(f(from.types[k]) is Err);
}

/// A declaration with two `from` annotations, none of which fails to be
/// read, gets no routine: converting fails with `CardinalityError` at the
/// position of the declaration.
pub proof fn lemma_two_from(d: DeclarationModel, i: int, j: int)
    requires
        0 <= i < j < d.attrs.len(),
        from_of(d.attrs[i]) is Some,
        from_of(d.attrs[j]) is Some,
        forall|k: int| 0 <= k < d.attrs.len() ==> !(#[trigger] from_of(d.attrs[k]) matches Some(
            Err(_),
        )),
    ensures
        convert(d) == Err::<Seq<RoutineModel>, Diagnostic>(
            Diagnostic { kind: ErrorKind::CardinalityError, position: d.position },
        ),
{
    let f = reading_from_attr();
    assert forall|k: int| 0 <= k < d.attrs.len() implies (#[trigger] f(d.attrs[k])) is Ok by {
        assert(!(from_of(d.attrs[k]) matches Some(Err(_))));
    }
    assert(!(from_of(d.attrs[i]) matches Some(Err(_))));
    assert(!(from_of(d.attrs[j]) matches Some(Err(_))));
    crate::attrs::lemma_more_than_one(d.attrs, f, d.position, i, j);
}

/// A declaration without a `from` annotation gets no routine: converting
/// fails with `CardinalityError` at the position of the declaration.
pub proof fn lemma_no_from(d: DeclarationModel)
    requires
        forall|k: int| 0 <= k < d.attrs.len() ==> (#[trigger] d.attrs[k]).tag != crate::tree::from_tag(),
    ensures
        convert(d) == Err::<Seq<RoutineModel>, Diagnostic>(
            Diagnostic { kind: ErrorKind::CardinalityError, position: d.position },
        ),
{
    let f = reading_from_attr();
    assert forall|k: int| 0 <= k < d.attrs.len() implies (#[trigger] f(d.attrs[k])) == Ok::<
        Option<FromAttrModel>,
        Diagnostic,
    >(None) by {
        assert(d.attrs[k].tag != crate::tree::from_tag());
    }
    crate::attrs::lemma_none_at_all(d.attrs, f, d.position);
}

} // verus!
