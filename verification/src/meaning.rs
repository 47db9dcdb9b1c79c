//! What a conversion routine does to a value.
//!
//! A value is described as far as a routine can tell values apart: by its
//! variant, if it is of a tagged union, and by the contents of its fields.
//! Running a routine on a value matches the value against the routine's
//! pattern, which binds the contents of the fields to names, and builds a
//! value from those names. The theorems at the end say that a routine
//! generated for a declaration hands every value of that shape on as it is.

use vstd::prelude::*;
use crate::from_::{
    arm_of,
    bindings_of,
    decimal,
    digit,
    positional_name,
    routine_for,
    ArmModel,
    BindingsModel,
    BodyModel,
    RoutineModel,
};
use crate::mux::{bare_data, same_shape};
use crate::syntax::TypeRefModel;
use crate::tree::{DataModel, DeclarationModel, FieldsModel, VariantModel};

verus! {

/// The contents of the fields of a value: by name, by place, or none.
pub enum Payload<X> {
    Named(Seq<(Seq<char>, X)>),
    Unnamed(Seq<X>),
    Unit,
}

/// A value: its variant, where its type is a tagged union, and the contents
/// of its fields.
pub struct Value<X> {
    pub variant: Option<Seq<char>>,
    pub payload: Payload<X>,
}

/// The names of the fields of a payload by name.
pub open spec fn field_names<X>(fields: Seq<(Seq<char>, X)>) -> Seq<Seq<char>> {
    Seq::new(fields.len(), |i: int| fields[i].0)
}

/// Whether a payload has the fields of a field group.
pub open spec fn fits<X>(payload: Payload<X>, fields: FieldsModel) -> bool {
    match (payload, fields) {
        (Payload::Named(contents), FieldsModel::Named(named)) => field_names(contents)
            == bindings_of(fields)->Named_0,
        (Payload::Unnamed(contents), FieldsModel::Unnamed(unnamed)) => contents.len()
            == unnamed.len(),
        (Payload::Unit, FieldsModel::Unit) => true,
        _ => false,
    }
}

/// Whether a value is of the type that a declaration declares.
pub open spec fn inhabits<X>(value: Value<X>, d: DeclarationModel) -> bool {
    match d.data {
        DataModel::Struct(fields) => value.variant is None && fits(value.payload, fields),
        DataModel::Enum(variants) => value.variant matches Some(name) && exists|i: int|
            0 <= i < variants.len() && (#[trigger] variants[i]).ident == name && fits(
                value.payload,
                variants[i].fields,
            ),
        DataModel::Union(fields) => false,
    }
}

/// Whether the names of a field group are all different.
pub open spec fn distinct_fields(fields: FieldsModel) -> bool {
    match fields {
        FieldsModel::Named(named) => bindings_of(fields)->Named_0.no_duplicates(),
        _ => true,
    }
}

/// Whether a declaration is one that the compiler accepts as far as names
/// go: no two fields of a group and no two variants have the same name.
pub open spec fn distinct_names(d: DeclarationModel) -> bool {
    match d.data {
        DataModel::Struct(fields) => distinct_fields(fields),
        DataModel::Enum(variants) => {
            &&& forall|i: int|
                0 <= i < variants.len() ==> distinct_fields((#[trigger] variants[i]).fields)
            &&& forall|i: int, j: int|
                0 <= i < j < variants.len() ==> (#[trigger] variants[i]).ident != (
                #[trigger] variants[j]).ident
        },
        DataModel::Union(fields) => distinct_fields(fields),
    }
}

/// What a pattern binds when it is matched against a payload: for each name
/// the content of the field of that name, or of the field at the place of
/// that name. `None` where the pattern does not fit the payload, or binds a
/// name twice.
pub open spec fn bound<X>(bindings: BindingsModel, payload: Payload<X>) -> Option<
    Map<Seq<char>, X>,
> {
    match (bindings, payload) {
        (BindingsModel::Named(names), Payload::Named(contents)) => if names.no_duplicates()
            && names == field_names(contents) {
            Some(Map::new(|n: Seq<char>| names.contains(n), |n: Seq<char>| contents[names.index_of(n)].1))
        } else {
            None
        },
        (BindingsModel::Unnamed(names), Payload::Unnamed(contents)) => if names.no_duplicates()
            && names.len() == contents.len() {
            Some(Map::new(|n: Seq<char>| names.contains(n), |n: Seq<char>| contents[names.index_of(n)]))
        } else {
            None
        },
        (BindingsModel::Unit, Payload::Unit) => Some(Map::empty()),
        _ => None,
    }
}

/// The payload that is built from what the names are bound to.
pub open spec fn built<X>(bindings: BindingsModel, env: Map<Seq<char>, X>) -> Payload<X> {
    match bindings {
        BindingsModel::Named(names) => Payload::Named(
            Seq::new(names.len(), |i: int| (names[i], env[names[i]])),
        ),
        BindingsModel::Unnamed(names) => Payload::Unnamed(
            Seq::new(names.len(), |i: int| env[names[i]]),
        ),
        BindingsModel::Unit => Payload::Unit,
    }
}

/// Whether `i` is the first arm for the variant `name`.
pub open spec fn is_first_arm(arms: Seq<ArmModel>, name: Seq<char>, i: int) -> bool {
    &&& 0 <= i < arms.len()
    &&& arms[i].variant == name
    &&& forall|j: int| 0 <= j < i ==> (#[trigger] arms[j]).variant != name
}

/// What a routine makes of a value. `None` where the routine does not apply
/// to the value: the pattern does not fit, or no arm is for the variant.
pub open spec fn run<X>(routine: RoutineModel, value: Value<X>) -> Option<Value<X>> {
    match routine.body {
        BodyModel::Struct(bindings) => match (value.variant, bound(bindings, value.payload)) {
            (None, Some(env)) => Some(Value { variant: None, payload: built(bindings, env) }),
            _ => None,
        },
        BodyModel::Enum(arms) => match value.variant {
            Some(name) => if exists|i: int| is_first_arm(arms, name, i) {
                let arm = arms[choose|i: int| is_first_arm(arms, name, i)];
                match bound(arm.bindings, value.payload) {
                    Some(env) => Some(
                        Value { variant: Some(arm.variant), payload: built(arm.bindings, env) },
                    ),
                    None => None,
                }
            } else {
                None
            },
            None => None,
        },
    }
}

/// Decimal notation has at least one digit, and two from ten on.
pub proof fn lemma_decimal_len(n: nat)
    ensures
        decimal(n).len() >= 1,
        n >= 10 ==> decimal(n).len() >= 2,
    decreases n,
{
    if n >= 10 {
        lemma_decimal_len(n / 10);
    }
}

/// Different numbers have different decimal notations.
pub proof fn lemma_decimal_injective(a: nat, b: nat)
    requires
        decimal(a) == decimal(b),
    ensures
        a == b,
    decreases a,
{
    lemma_decimal_len(a);
    lemma_decimal_len(b);
    if a < 10 && b < 10 {
        assert(decimal(a)[0] == digit(a));
        assert(decimal(b)[0] == digit(b));
    } else if a >= 10 && b >= 10 {
        let x = decimal(a / 10);
        let y = decimal(b / 10);
        assert(x.push(digit(a % 10)).drop_last() =~= x);
        assert(y.push(digit(b % 10)).drop_last() =~= y);
        assert(x.push(digit(a % 10)).last() == digit(a % 10));
        assert(y.push(digit(b % 10)).last() == digit(b % 10));
        lemma_decimal_injective(a / 10, b / 10);
        assert(a % 10 == b % 10);
    } else {
        assert(decimal(a).len() != decimal(b).len());
    }
}

/// The names of the unnamed fields of a group are all different.
pub proof fn lemma_positional_names_differ(n: nat)
    ensures
        Seq::new(n, |i: int| positional_name(i as nat)).no_duplicates(),
{
    let names = Seq::new(n, |i: int| positional_name(i as nat));
    assert forall|i: int, j: int| 0 <= i < n && 0 <= j < n && i != j implies names[i]
        != names[j] by {
        if names[i] == names[j] {
            let x = decimal(i as nat);
            let y = decimal(j as nat);
            assert((seq!['t'] + x).skip(1) =~= x);
            assert((seq!['t'] + y).skip(1) =~= y);
            lemma_decimal_len(i as nat);
            lemma_decimal_len(j as nat);
            assert(x.len() == y.len()) by {
                assert((seq!['t'] + x).len() == 1 + x.len());
                assert((seq!['t'] + y).len() == 1 + y.len());
            }
            lemma_decimal_injective(i as nat, j as nat);
        }
    }
}

/// Taking a payload apart with the bindings of its field group and putting
/// it together again gives the payload.
pub proof fn lemma_apart_and_together<X>(fields: FieldsModel, payload: Payload<X>)
    requires
        distinct_fields(fields),
        fits(payload, fields),
    ensures
        bound(bindings_of(fields), payload) is Some,
        built(bindings_of(fields), bound(bindings_of(fields), payload)->Some_0) == payload,
{
    let bindings = bindings_of(fields);
    match (payload, fields) {
        (Payload::Named(contents), FieldsModel::Named(named)) => {
            let names = bindings->Named_0;
            let env = bound(bindings, payload)->Some_0;
            assert forall|i: int| 0 <= i < names.len() implies (names[i], env[names[i]])
                == contents[i] by {
                assert(names.contains(names[i]));
                let k = names.index_of(names[i]);
                assert(names[k] == names[i]);
                assert(k == i);
                assert(field_names(contents)[i] == contents[i].0);
            }
            assert(built(bindings, env)->Named_0 =~= contents);
        },
        (Payload::Unnamed(contents), FieldsModel::Unnamed(unnamed)) => {
            lemma_positional_names_differ(unnamed.len());
            let names = bindings->Unnamed_0;
            let env = bound(bindings, payload)->Some_0;
            assert forall|i: int| 0 <= i < names.len() implies env[names[i]] == contents[i] by {
                assert(names.contains(names[i]));
                let k = names.index_of(names[i]);
                assert(names[k] == names[i]);
                assert(k == i);
            }
            assert(built(bindings, env)->Unnamed_0 =~= contents);
        },
        _ => {},
    }
}

/// A routine that was generated for a declaration hands every value of the
/// declared shape on as it is: the same variant, and in every field the
/// same content.
pub proof fn lemma_conversion_keeps_value<X>(
    d: DeclarationModel,
    source: TypeRefModel,
    value: Value<X>,
)
    requires
        distinct_names(d),
        inhabits(value, d),
    ensures
        routine_for(d, source) is Ok,
        run(routine_for(d, source)->Ok_0, value) == Some(value),
{
    match d.data {
        DataModel::Struct(fields) => {
            lemma_apart_and_together(fields, value.payload);
        },
        DataModel::Enum(variants) => {
            let name = value.variant->Some_0;
            let arms = Seq::new(variants.len(), |i: int| arm_of(variants[i]));
            let i = choose|i: int|
                0 <= i < variants.len() && (#[trigger] variants[i]).ident == name && fits(
                    value.payload,
                    variants[i].fields,
                );
            assert(is_first_arm(arms, name, i)) by {
                assert forall|j: int| 0 <= j < i implies (#[trigger] arms[j]).variant != name by {
                    assert(variants[j].ident != variants[i].ident);
                }
            }
            let c = choose|c: int| is_first_arm(arms, name, c);
            assert(c == i) by {
                if c < i {
                    assert(arms[c].variant != name);
                } else if i < c {
                    assert(arms[i].variant != name);
                }
            }
            assert(distinct_fields(variants[i].fields));
            lemma_apart_and_together(variants[i].fields, value.payload);
        },
        DataModel::Union(fields) => {},
    }
}

/// Declarations of the same shape declare the same values.
pub proof fn lemma_same_shape_same_values<X>(s: DeclarationModel, d: DeclarationModel, value: Value<X>)
    requires
        same_shape(s, d),
    ensures
        inhabits(value, s) == inhabits(value, d),
        distinct_names(s) == distinct_names(d),
{
    lemma_shape_decides(s, d, value);
    lemma_shape_decides(d, s, value);
}

/// One direction of `lemma_same_shape_same_values`.
proof fn lemma_shape_decides<X>(s: DeclarationModel, d: DeclarationModel, value: Value<X>)
    requires
        bare_data(s.data) == bare_data(d.data),
    ensures
        inhabits(value, s) ==> inhabits(value, d),
        distinct_names(s) ==> distinct_names(d),
{
    match (s.data, d.data) {
        (DataModel::Struct(a), DataModel::Struct(b)) => {
            lemma_fields_of_same_shape(a, b, value.payload);
        },
        (DataModel::Union(a), DataModel::Union(b)) => {
            lemma_fields_of_same_shape(a, b, value.payload);
        },
        (DataModel::Enum(a), DataModel::Enum(b)) => {
            let x = bare_data(s.data)->Enum_0;
            let y = bare_data(d.data)->Enum_0;
            assert(x.len() == a.len() && y.len() == b.len());
            assert forall|i: int| 0 <= i < a.len() implies (#[trigger] a[i]).ident == b[i].ident
                && crate::mux::bare_fields(a[i].fields) == crate::mux::bare_fields(b[i].fields) by {
                assert(x[i] == crate::mux::bare_variant(a[i]));
                assert(y[i] == crate::mux::bare_variant(b[i]));
            }
            if inhabits(value, s) {
                let name = value.variant->Some_0;
                let i = choose|i: int|
                    0 <= i < a.len() && (#[trigger] a[i]).ident == name && fits(
                        value.payload,
                        a[i].fields,
                    );
                lemma_fields_of_same_shape(a[i].fields, b[i].fields, value.payload);
                assert(b[i].ident == name && fits(value.payload, b[i].fields));
            }
            if distinct_names(s) {
                assert forall|i: int| 0 <= i < b.len() implies distinct_fields(
                    (#[trigger] b[i]).fields,
                ) by {
                    assert(distinct_fields(a[i].fields));
                    lemma_fields_of_same_shape(a[i].fields, b[i].fields, value.payload);
                }
                assert forall|i: int, j: int| 0 <= i < j < b.len() implies (#[trigger] b[i]).ident
                    != (#[trigger] b[j]).ident by {
                    assert(a[i].ident != a[j].ident);
                }
            }
        },
        _ => {},
    }
}

/// Field groups of the same shape have the same bindings, so the same
/// payloads fit them.
proof fn lemma_fields_of_same_shape<X>(a: FieldsModel, b: FieldsModel, payload: Payload<X>)
    requires
        crate::mux::bare_fields(a) == crate::mux::bare_fields(b),
    ensures
        bindings_of(a) == bindings_of(b),
        fits(payload, a) == fits(payload, b),
        distinct_fields(a) == distinct_fields(b),
{
    match (a, b) {
        (FieldsModel::Named(x), FieldsModel::Named(y)) => {
            let p = crate::mux::bare_fields(a)->Named_0;
            let q = crate::mux::bare_fields(b)->Named_0;
            assert(p.len() == x.len() && q.len() == y.len());
            assert forall|i: int| 0 <= i < x.len() implies x[i].name == y[i].name by {
                assert(p[i].name == x[i].name);
                assert(q[i].name == y[i].name);
            }
            assert(bindings_of(a)->Named_0 =~= bindings_of(b)->Named_0);
        },
        (FieldsModel::Unnamed(x), FieldsModel::Unnamed(y)) => {
            let p = crate::mux::bare_fields(a)->Unnamed_0;
            let q = crate::mux::bare_fields(b)->Unnamed_0;
            assert(p.len() == x.len() && q.len() == y.len());
            assert(bindings_of(a)->Unnamed_0 =~= bindings_of(b)->Unnamed_0);
        },
        _ => {},
    }
}

/// There and back: where two declarations have the same shape, converting a
/// value of the one into the other and back again gives the value with
/// which one started, and so does each of the two steps.
pub proof fn lemma_there_and_back<X>(
    s: DeclarationModel,
    d: DeclarationModel,
    s_ref: TypeRefModel,
    d_ref: TypeRefModel,
    value: Value<X>,
)
    requires
        same_shape(s, d),
        distinct_names(s),
        inhabits(value, s),
    ensures
        routine_for(d, s_ref) is Ok,
        routine_for(s, d_ref) is Ok,
        run(routine_for(d, s_ref)->Ok_0, value) == Some(value),
        run(routine_for(s, d_ref)->Ok_0, run(routine_for(d, s_ref)->Ok_0, value)->Some_0) == Some(
            value,
        ),
{
    lemma_same_shape_same_values(s, d, value);
    lemma_conversion_keeps_value(d, s_ref, value);
    lemma_conversion_keeps_value(s, d_ref, value);
}

} // verus!
