use mux_attrs::diagnostic::{Diagnostic, ErrorKind};
use mux_attrs::from_::{
    derive_single, list_fields, positional, refers_to_itself, sources_of_declaration, Arm,
    Bindings, Body, Routine,
};
use mux_attrs::syntax::TypeRef;
use mux_attrs::tree::{
    Annotation, Data, Declaration, Delimiter, Field, Fields, Form, NamedField, Position, Variant,
};

fn at(line: usize, column: usize) -> Position {
    Position { line, column }
}

fn list(tag: &str, content: &str, line: usize) -> Annotation {
    Annotation {
        tag: tag.to_string(),
        form: Form::List(Delimiter::Paren),
        content: content.to_string(),
        position: at(line, 0),
    }
}

fn field(ty: &str) -> Field {
    Field { attrs: vec![], ty: ty.to_string() }
}

fn named(name: &str, ty: &str) -> NamedField {
    NamedField { name: name.to_string(), field: field(ty) }
}

fn variant(ident: &str, fields: Fields) -> Variant {
    Variant { attrs: vec![], ident: ident.to_string(), fields }
}

fn declaration(attrs: Vec<Annotation>, ident: &str, data: Data) -> Declaration {
    Declaration {
        attrs,
        ident: ident.to_string(),
        generics: String::new(),
        data,
        position: at(100, 0),
    }
}

fn record(attrs: Vec<Annotation>, ident: &str) -> Declaration {
    declaration(
        attrs,
        ident,
        Data::Struct(Fields::Named(vec![named("x", "i32"), named("y", "bool")])),
    )
}

fn tagged(attrs: Vec<Annotation>, ident: &str) -> Declaration {
    declaration(
        attrs,
        ident,
        Data::Enum(vec![
            variant("U", Fields::Unit),
            variant("T", Fields::Unnamed(vec![field("i32"), field("bool")])),
            variant("S", Fields::Named(vec![named("x", "i32"), named("y", "bool")])),
        ]),
    )
}

fn names(list: &[&str]) -> Vec<String> {
    list.iter().map(|name| name.to_string()).collect()
}

fn source(path: &str) -> TypeRef {
    TypeRef { path: path.to_string(), ident: Some(path.to_string()) }
}

fn convert(input: &Declaration) -> Result<Vec<Routine>, Diagnostic> {
    mux_attrs::from_::derive(input)
}

fn failure(kind: ErrorKind, line: usize) -> Diagnostic {
    Diagnostic { kind, position: at(line, 0) }
}

fn is_an_impl(text: &str) -> bool {
    syn::parse_str::<syn::ItemImpl>(text).is_ok()
}

#[test]
fn the_declared_type_itself_is_skipped() {
    let routines = convert(&record(vec![list("from", "A, B", 1)], "A")).unwrap();
    assert_eq!(routines, vec![Routine {
        source: "B".to_string(),
        target: "A".to_string(),
        body: Body::Struct(Bindings::Named(names(&["x", "y"]))),
    }]);
}

#[test]
fn record_and_its_copy_convert_into_each_other() {
    let into_a = convert(&record(vec![list("from", "A, B", 1)], "A")).unwrap();
    let into_b = convert(&record(vec![list("from", "A, B", 1)], "B")).unwrap();
    assert_eq!(into_a.len(), 1);
    assert_eq!(into_b.len(), 1);
    assert_eq!((into_a[0].source.as_str(), into_a[0].target.as_str()), ("B", "A"));
    assert_eq!((into_b[0].source.as_str(), into_b[0].target.as_str()), ("A", "B"));
    assert_eq!(into_a[0].body, into_b[0].body);
    assert_eq!(into_a[0].body, Body::Struct(Bindings::Named(names(&["x", "y"]))));
}

#[test]
fn tagged_union_gets_one_arm_for_each_variant() {
    let routines = convert(&tagged(vec![list("from", "C, D", 1)], "C")).unwrap();
    assert_eq!(routines, vec![Routine {
        source: "D".to_string(),
        target: "C".to_string(),
        body: Body::Enum(vec![
            Arm { variant: "U".to_string(), bindings: Bindings::Unit },
            Arm { variant: "T".to_string(), bindings: Bindings::Unnamed(names(&["t0", "t1"])) },
            Arm { variant: "S".to_string(), bindings: Bindings::Named(names(&["x", "y"])) },
        ]),
    }]);
}

#[test]
fn every_other_source_gets_a_routine_in_order() {
    let routines = convert(&record(vec![list("from", "B, A, m::A, C, B", 1)], "A")).unwrap();
    let sources: Vec<&str> = routines.iter().map(|routine| routine.source.as_str()).collect();
    assert_eq!(sources, vec!["B", "m :: A", "C", "B"]);
    for routine in &routines {
        assert_eq!(routine.target, "A");
    }
}

#[test]
fn only_itself_gives_nothing() {
    assert_eq!(convert(&record(vec![list("from", "A", 1)], "A")), Ok(vec![]));
    assert_eq!(convert(&record(vec![list("from", "", 1)], "A")), Ok(vec![]));
}

#[test]
fn other_annotations_are_passed_over() {
    let input = record(
        vec![list("derive", "Clone", 1), list("names", "B", 2), list("from", "B", 3), list("mux", "x, y", 4)],
        "A",
    );
    assert_eq!(convert(&input).unwrap().len(), 1);
}

#[test]
fn two_from_annotations_fail_with_cardinality_error() {
    let input = record(vec![list("from", "B", 1), list("from", "C", 2)], "A");
    assert_eq!(convert(&input), Err(failure(ErrorKind::CardinalityError, 100)));
}

#[test]
fn no_from_annotation_fails_with_cardinality_error() {
    assert_eq!(convert(&record(vec![], "A")), Err(failure(ErrorKind::CardinalityError, 100)));
    assert_eq!(
        convert(&record(vec![list("names", "B", 1)], "A")),
        Err(failure(ErrorKind::CardinalityError, 100))
    );
}

#[test]
fn a_from_annotation_that_cannot_be_read_fails_first() {
    let input = record(vec![list("from", "B", 1), list("from", "B C", 2)], "A");
    assert_eq!(convert(&input), Err(failure(ErrorKind::MalformedAnnotation, 2)));
    let bare = record(
        vec![Annotation {
            tag: "from".to_string(),
            form: Form::Bare,
            content: String::new(),
            position: at(3, 0),
        }],
        "A",
    );
    assert_eq!(convert(&bare), Err(failure(ErrorKind::MalformedAnnotation, 3)));
}

#[test]
fn a_union_is_not_supported() {
    let union = declaration(
        vec![list("from", "A, B", 1)],
        "A",
        Data::Union(Fields::Named(vec![named("x", "i32")])),
    );
    assert_eq!(convert(&union), Err(failure(ErrorKind::UnsupportedKind, 100)));
    assert_eq!(
        derive_single(&union, &source("B")),
        Err(failure(ErrorKind::UnsupportedKind, 100))
    );
}

#[test]
fn a_union_that_lists_only_itself_gets_nothing() {
    let union = declaration(
        vec![list("from", "A", 1)],
        "A",
        Data::Union(Fields::Named(vec![named("x", "i32")])),
    );
    assert_eq!(convert(&union), Ok(vec![]));
}

#[test]
fn sources_are_read_from_the_declaration() {
    let input = record(vec![list("derive", "Clone", 1), list("from", "A, B", 2)], "A");
    let from = sources_of_declaration(&input).unwrap();
    assert_eq!(from.types, vec![source("A"), source("B")]);
}

#[test]
fn self_reference_goes_by_the_identifier() {
    let input = record(vec![], "A");
    assert!(refers_to_itself(&input, &source("A")));
    assert!(!refers_to_itself(&input, &source("B")));
    assert!(!refers_to_itself(&input, &TypeRef { path: "m :: A".to_string(), ident: None }));
}

#[test]
fn bindings_of_field_groups() {
    assert_eq!(
        list_fields(&Fields::Named(vec![named("a", "u8"), named("b", "u8")])),
        Bindings::Named(names(&["a", "b"]))
    );
    assert_eq!(
        list_fields(&Fields::Unnamed(vec![field("u8"), field("u8"), field("u8")])),
        Bindings::Unnamed(names(&["t0", "t1", "t2"]))
    );
    assert_eq!(list_fields(&Fields::Unit), Bindings::Unit);
    assert_eq!(list_fields(&Fields::Named(vec![])), Bindings::Named(vec![]));
    assert_eq!(list_fields(&Fields::Unnamed(vec![])), Bindings::Unnamed(vec![]));
}

#[test]
fn positional_names_are_numbered_in_decimal() {
    assert_eq!(positional(0), "t0");
    assert_eq!(positional(9), "t9");
    assert_eq!(positional(10), "t10");
    assert_eq!(positional(123), "t123");
    assert_eq!(positional(1000), "t1000");
    assert_eq!(positional(usize::MAX), format!("t{}", usize::MAX));
    let many: Vec<Field> = (0..12).map(|_| field("u8")).collect();
    match list_fields(&Fields::Unnamed(many)) {
        Bindings::Unnamed(list) => {
            assert_eq!(list.len(), 12);
            assert_eq!(list[11], "t11");
        }
        other => panic!("{:?}", other),
    }
}

#[test]
fn routine_of_a_record_as_text() {
    let routines = convert(&record(vec![list("from", "B", 1)], "A")).unwrap();
    let text = routines[0].render();
    assert_eq!(
        text,
        "impl From<B> for A { fn from(value: B) -> Self { let B { x, y, } = value; Self { x, y, } } }"
    );
    assert!(is_an_impl(&text));
}

#[test]
fn routine_of_a_tuple_record_as_text() {
    let input = declaration(
        vec![list("from", "B", 1)],
        "A",
        Data::Struct(Fields::Unnamed(vec![field("u8"), field("u32")])),
    );
    let text = convert(&input).unwrap()[0].render();
    assert_eq!(
        text,
        "impl From<B> for A { fn from(value: B) -> Self { let B (t0, t1, ) = value; Self (t0, t1, ) } }"
    );
    assert!(is_an_impl(&text));
}

#[test]
fn routine_of_a_unit_record_as_text() {
    let input = declaration(vec![list("from", "B", 1)], "A", Data::Struct(Fields::Unit));
    let text = convert(&input).unwrap()[0].render();
    assert_eq!(text, "impl From<B> for A { fn from(value: B) -> Self { let B  = value; Self  } }");
    assert!(is_an_impl(&text));
}

#[test]
fn routine_of_a_tagged_union_as_text() {
    let text = convert(&tagged(vec![list("from", "D", 1)], "C")).unwrap()[0].render();
    assert_eq!(
        text,
        "impl From<D> for C { fn from(value: D) -> Self { match value { \
         D::U  => Self::U , \
         D::T (t0, t1, ) => Self::T (t0, t1, ), \
         D::S { x, y, } => Self::S { x, y, }, \
         } } }"
    );
    assert!(is_an_impl(&text));
}

#[test]
fn routine_of_an_empty_tagged_union_as_text() {
    let input = declaration(vec![list("from", "D", 1)], "C", Data::Enum(vec![]));
    let text = convert(&input).unwrap()[0].render();
    assert_eq!(text, "impl From<D> for C { fn from(value: D) -> Self { match value { } } }");
    assert!(is_an_impl(&text));
}

#[test]
fn routine_with_a_path_as_source_as_text() {
    let routines = convert(&record(vec![list("from", "m::B", 1)], "A")).unwrap();
    let text = routines[0].render();
    assert_eq!(
        text,
        "impl From<m :: B> for A { fn from(value: m :: B) -> Self { \
         let m :: B { x, y, } = value; Self { x, y, } } }"
    );
    assert!(is_an_impl(&text));
}

#[test]
fn there_and_back_uses_the_same_bindings() {
    let into_d = convert(&tagged(vec![list("from", "C, D", 1)], "D")).unwrap();
    let into_c = convert(&tagged(vec![list("from", "C, D", 1)], "C")).unwrap();
    assert_eq!(into_d.len(), 1);
    assert_eq!(into_c.len(), 1);
    assert_eq!(into_d[0].source, into_c[0].target);
    assert_eq!(into_c[0].source, into_d[0].target);
    assert_eq!(into_d[0].body, into_c[0].body);
}

#[test]
fn messages_of_converting() {
    let input = record(vec![list("from", "B", 1), list("from", "C", 2)], "A");
    let e = convert(&input).unwrap_err();
    assert_eq!(mux_attrs::from_::message(&e), "There must be exactly one `from` attribute");
    let union = failure(ErrorKind::UnsupportedKind, 100);
    assert_eq!(mux_attrs::from_::message(&union), "Unions are not supported");
    assert_eq!(mux_attrs::from_::message(&union), union.message());
}
