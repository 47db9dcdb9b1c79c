use mux_attrs::attrs::{
    at as put_at, clone_optional, content_of, find_key, read_ident, FromAttr, MuxAttr, MuxNamesAttr,
};
use mux_attrs::diagnostic::{Diagnostic, ErrorKind};
use mux_attrs::syntax::{Entry, TypeRef};
use mux_attrs::tree::{contains_text, same_text, Annotation, Delimiter, Form, Position};

fn at(line: usize, column: usize) -> Position {
    Position { line, column }
}

fn list(tag: &str, content: &str, position: Position) -> Annotation {
    Annotation {
        tag: tag.to_string(),
        form: Form::List(Delimiter::Paren),
        content: content.to_string(),
        position,
    }
}

fn pair(key: &str, value: &str) -> (String, String) {
    (key.to_string(), value.to_string())
}

fn keyed(key: &str, value: &str) -> Entry {
    Entry::Keyed { key: Some(key.to_string()), value: value.to_string() }
}

fn bare(content: &str) -> Entry {
    Entry::Bare { content: content.to_string() }
}

#[test]
fn mux_content_with_default_and_keys() {
    let mux = MuxAttr::from_args("derive(Default), b = repr(C), c = repr(C, packed)").unwrap();
    assert_eq!(mux.default, Some("derive (Default)".to_string()));
    assert_eq!(mux.entries, vec![pair("b", "repr (C)"), pair("c", "repr (C , packed)")]);
}

#[test]
fn mux_content_with_default_alone() {
    let mux = MuxAttr::from_args("derive(Default)").unwrap();
    assert_eq!(mux.default, Some("derive (Default)".to_string()));
    assert!(mux.entries.is_empty());
}

#[test]
fn mux_content_with_keys_alone() {
    let mux = MuxAttr::from_args("b = default").unwrap();
    assert_eq!(mux.default, None);
    assert_eq!(mux.entries, vec![pair("b", "default")]);
}

#[test]
fn mux_content_may_be_empty() {
    let mux = MuxAttr::from_args("").unwrap();
    assert_eq!(mux, MuxAttr { default: None, entries: vec![] });
}

#[test]
fn mux_content_may_end_with_a_comma() {
    let mux = MuxAttr::from_args("a = x, b = y,").unwrap();
    assert_eq!(mux.entries, vec![pair("a", "x"), pair("b", "y")]);
}

#[test]
fn default_after_first_place_is_refused() {
    assert_eq!(MuxAttr::from_args("a = x, y"), Err(ErrorKind::OrderError));
    assert_eq!(MuxAttr::from_args("x, y"), Err(ErrorKind::OrderError));
}

#[test]
fn key_twice_is_refused() {
    assert_eq!(MuxAttr::from_args("a = x, b = y, a = z"), Err(ErrorKind::DuplicateKey));
}

#[test]
fn first_fault_decides() {
    assert_eq!(MuxAttr::from_args("a = x, a = y, z"), Err(ErrorKind::DuplicateKey));
    assert_eq!(MuxAttr::from_args("a = x, z, a = y"), Err(ErrorKind::OrderError));
    assert_eq!(MuxAttr::from_args("a = x, p::q = y, z"), Err(ErrorKind::MalformedAnnotation));
}

#[test]
fn key_that_is_a_path_is_refused() {
    assert_eq!(MuxAttr::from_args("p::q = x"), Err(ErrorKind::MalformedAnnotation));
}

#[test]
fn content_that_is_no_list_is_refused() {
    assert_eq!(MuxAttr::from_args("a = "), Err(ErrorKind::MalformedAnnotation));
    assert_eq!(MuxAttr::from_args("1 + 2"), Err(ErrorKind::MalformedAnnotation));
    assert_eq!(MuxAttr::from_args("a b"), Err(ErrorKind::MalformedAnnotation));
    assert_eq!(MuxAttr::from_args("(unclosed"), Err(ErrorKind::MalformedAnnotation));
}

#[test]
fn entries_are_taken_from_left_to_right() {
    let entries = vec![bare("d"), keyed("a", "x"), keyed("b", "y")];
    assert_eq!(
        MuxAttr::from_entries(&entries),
        Ok(MuxAttr { default: Some("d".to_string()), entries: vec![pair("a", "x"), pair("b", "y")] })
    );
    assert_eq!(MuxAttr::from_entries(&vec![]), Ok(MuxAttr { default: None, entries: vec![] }));
}

#[test]
fn entries_with_a_fault_are_refused() {
    assert_eq!(
        MuxAttr::from_entries(&vec![keyed("a", "x"), bare("d")]),
        Err(ErrorKind::OrderError)
    );
    assert_eq!(
        MuxAttr::from_entries(&vec![keyed("a", "x"), keyed("a", "x")]),
        Err(ErrorKind::DuplicateKey)
    );
    assert_eq!(
        MuxAttr::from_entries(&vec![Entry::Keyed { key: None, value: "x".to_string() }]),
        Err(ErrorKind::MalformedAnnotation)
    );
}

#[test]
fn mux_annotation_is_recognised_by_its_tag() {
    assert_eq!(MuxAttr::new(&list("derive", "Clone", at(1, 0))), None);
    assert_eq!(MuxAttr::new(&list("names", "B", at(1, 0))), None);
    assert_eq!(MuxAttr::new(&list("a :: mux", "B", at(1, 0))), None);
    assert_eq!(
        MuxAttr::new(&list("mux", "b = x", at(1, 0))),
        Some(Ok(MuxAttr { default: None, entries: vec![pair("b", "x")] }))
    );
}

#[test]
fn mux_annotation_accepts_any_brackets() {
    let mut attr = list("mux", "b = x", at(1, 0));
    attr.form = Form::List(Delimiter::Bracket);
    assert!(matches!(MuxAttr::new(&attr), Some(Ok(_))));
    attr.form = Form::List(Delimiter::Brace);
    assert!(matches!(MuxAttr::new(&attr), Some(Ok(_))));
}

#[test]
fn mux_annotation_must_be_a_list() {
    let word = Annotation {
        tag: "mux".to_string(),
        form: Form::Bare,
        content: String::new(),
        position: at(3, 4),
    };
    assert_eq!(
        MuxAttr::new(&word),
        Some(Err(Diagnostic { kind: ErrorKind::MalformedAnnotation, position: at(3, 4) }))
    );
    let value = Annotation {
        tag: "mux".to_string(),
        form: Form::Value,
        content: "\"x\"".to_string(),
        position: at(5, 6),
    };
    assert_eq!(
        MuxAttr::new(&value),
        Some(Err(Diagnostic { kind: ErrorKind::MalformedAnnotation, position: at(5, 6) }))
    );
}

#[test]
fn mux_annotation_fails_at_its_position() {
    assert_eq!(
        MuxAttr::new(&list("mux", "a = x, a = y", at(7, 2))),
        Some(Err(Diagnostic { kind: ErrorKind::DuplicateKey, position: at(7, 2) }))
    );
    assert_eq!(
        MuxAttr::new(&list("mux", "a = x, y", at(8, 2))),
        Some(Err(Diagnostic { kind: ErrorKind::OrderError, position: at(8, 2) }))
    );
}

#[test]
fn resolve_prefers_the_entry_of_the_key() {
    let mux = MuxAttr::from_args("d, b = x, c = y").unwrap();
    let b = "b".to_string();
    let c = "c".to_string();
    let e = "e".to_string();
    assert_eq!(mux.resolve(Some(&b)), Some("x".to_string()));
    assert_eq!(mux.resolve(Some(&c)), Some("y".to_string()));
    assert_eq!(mux.resolve(Some(&e)), Some("d".to_string()));
    assert_eq!(mux.resolve(None), Some("d".to_string()));
}

#[test]
fn resolve_without_default_may_give_nothing() {
    let mux = MuxAttr::from_args("b = x").unwrap();
    let b = "b".to_string();
    let c = "c".to_string();
    assert_eq!(mux.resolve(Some(&b)), Some("x".to_string()));
    assert_eq!(mux.resolve(Some(&c)), None);
    assert_eq!(mux.resolve(None), None);
}

#[test]
fn resolve_with_default_alone_is_the_same_for_every_key() {
    let mux = MuxAttr::from_args("derive(Default)").unwrap();
    let b = "b".to_string();
    let c = "c".to_string();
    assert_eq!(mux.resolve(Some(&b)), mux.resolve(Some(&c)));
    assert_eq!(mux.resolve(Some(&b)), mux.resolve(None));
    assert_eq!(mux.resolve(None), Some("derive (Default)".to_string()));
}

#[test]
fn unknown_keys_are_found() {
    let mux = MuxAttr::from_args("d, b = x, c = y").unwrap();
    let all = vec!["b".to_string(), "c".to_string()];
    assert!(!mux.has_unknown_key(&all));
    assert!(mux.has_unknown_key(&vec!["b".to_string()]));
    assert!(mux.has_unknown_key(&vec![]));
    let default_only = MuxAttr::from_args("d").unwrap();
    assert!(!default_only.has_unknown_key(&vec![]));
}

#[test]
fn names_single() {
    let mux = MuxAttr::from_args("B").unwrap();
    assert_eq!(MuxNamesAttr::from_mux(&mux), Ok(MuxNamesAttr::Single("B".to_string())));
}

#[test]
fn names_by_key() {
    let mux = MuxAttr::from_args("b = B, c = C").unwrap();
    assert_eq!(
        MuxNamesAttr::from_mux(&mux),
        Ok(MuxNamesAttr::Multiple(vec![pair("b", "B"), pair("c", "C")]))
    );
}

#[test]
fn names_may_be_none_at_all() {
    let mux = MuxAttr::from_args("").unwrap();
    assert_eq!(MuxNamesAttr::from_mux(&mux), Ok(MuxNamesAttr::Multiple(vec![])));
}

#[test]
fn names_single_and_by_key_together_are_refused() {
    let mux = MuxAttr::from_args("A, b = B").unwrap();
    assert_eq!(MuxNamesAttr::from_mux(&mux), Err(ErrorKind::MalformedAnnotation));
}

#[test]
fn names_must_be_identifiers() {
    let single = MuxAttr::from_args("derive(Default)").unwrap();
    assert_eq!(MuxNamesAttr::from_mux(&single), Err(ErrorKind::MalformedAnnotation));
    let path = MuxAttr::from_args("a::B").unwrap();
    assert_eq!(MuxNamesAttr::from_mux(&path), Err(ErrorKind::MalformedAnnotation));
    let by_key = MuxAttr::from_args("b = B, c = 1 + 2").unwrap();
    assert_eq!(MuxNamesAttr::from_mux(&by_key), Err(ErrorKind::MalformedAnnotation));
    assert_eq!(MuxAttr::from_args("b = struct"), Err(ErrorKind::MalformedAnnotation));
    let keyword = MuxAttr { default: None, entries: vec![pair("b", "struct")] };
    assert_eq!(MuxNamesAttr::from_mux(&keyword), Err(ErrorKind::MalformedAnnotation));
}

#[test]
fn names_annotation_is_recognised_by_its_tag() {
    assert_eq!(MuxNamesAttr::new(&list("mux", "B", at(1, 0))), None);
    assert_eq!(MuxNamesAttr::new(&list("name", "B", at(1, 0))), None);
    assert_eq!(
        MuxNamesAttr::new(&list("names", "B", at(1, 0))),
        Some(Ok(MuxNamesAttr::Single("B".to_string())))
    );
    assert_eq!(
        MuxNamesAttr::new(&list("names", "b = B, c = C", at(1, 0))),
        Some(Ok(MuxNamesAttr::Multiple(vec![pair("b", "B"), pair("c", "C")])))
    );
}

#[test]
fn names_annotation_fails_at_its_position() {
    assert_eq!(
        MuxNamesAttr::new(&list("names", "b = B, b = C", at(2, 1))),
        Some(Err(Diagnostic { kind: ErrorKind::DuplicateKey, position: at(2, 1) }))
    );
    assert_eq!(
        MuxNamesAttr::new(&list("names", "A, b = B", at(2, 1))),
        Some(Err(Diagnostic { kind: ErrorKind::MalformedAnnotation, position: at(2, 1) }))
    );
    assert_eq!(
        MuxNamesAttr::new(&list("names", "b = B, A", at(2, 1))),
        Some(Err(Diagnostic { kind: ErrorKind::MalformedAnnotation, position: at(2, 1) }))
    );
    assert_eq!(
        MuxNamesAttr::new(&list("names", "A, B", at(2, 1))),
        Some(Err(Diagnostic { kind: ErrorKind::MalformedAnnotation, position: at(2, 1) }))
    );
    let word = Annotation {
        tag: "names".to_string(),
        form: Form::Bare,
        content: String::new(),
        position: at(9, 9),
    };
    assert_eq!(
        MuxNamesAttr::new(&word),
        Some(Err(Diagnostic { kind: ErrorKind::MalformedAnnotation, position: at(9, 9) }))
    );
}

#[test]
fn names_iter_single() {
    let names = MuxNamesAttr::Single("B".to_string());
    assert_eq!(names.iter(), vec![(None, "B".to_string())]);
    assert_eq!(names.keys(), Vec::<String>::new());
}

#[test]
fn names_iter_by_key() {
    let names = MuxNamesAttr::Multiple(vec![pair("b", "B"), pair("c", "C")]);
    assert_eq!(
        names.iter(),
        vec![(Some("b".to_string()), "B".to_string()), (Some("c".to_string()), "C".to_string())]
    );
    assert_eq!(names.keys(), vec!["b".to_string(), "c".to_string()]);
}

#[test]
fn from_list_keeps_order_and_duplicates() {
    let from = FromAttr::from_args("A, b::B, A, C<T>").unwrap();
    assert_eq!(
        from.types,
        vec![
            TypeRef { path: "A".to_string(), ident: Some("A".to_string()) },
            TypeRef { path: "b :: B".to_string(), ident: None },
            TypeRef { path: "A".to_string(), ident: Some("A".to_string()) },
            TypeRef { path: "C < T >".to_string(), ident: None },
        ]
    );
}

#[test]
fn from_list_may_be_empty() {
    assert_eq!(FromAttr::from_args(""), Ok(FromAttr { types: vec![] }));
}

#[test]
fn from_list_that_is_no_list_of_paths_is_refused() {
    assert_eq!(FromAttr::from_args("A B"), Err(ErrorKind::MalformedAnnotation));
    assert_eq!(FromAttr::from_args("a = B"), Err(ErrorKind::MalformedAnnotation));
    assert_eq!(FromAttr::from_args("1"), Err(ErrorKind::MalformedAnnotation));
}

#[test]
fn from_annotation_is_recognised_by_its_tag() {
    assert_eq!(FromAttr::new(&list("mux", "A", at(1, 0))), None);
    assert_eq!(
        FromAttr::new(&list("from", "A", at(1, 0))),
        Some(Ok(FromAttr { types: vec![TypeRef { path: "A".to_string(), ident: Some("A".to_string()) }] }))
    );
    assert_eq!(
        FromAttr::new(&list("from", "A B", at(4, 5))),
        Some(Err(Diagnostic { kind: ErrorKind::MalformedAnnotation, position: at(4, 5) }))
    );
    let word = Annotation {
        tag: "from".to_string(),
        form: Form::Bare,
        content: String::new(),
        position: at(6, 7),
    };
    assert_eq!(
        FromAttr::new(&word),
        Some(Err(Diagnostic { kind: ErrorKind::MalformedAnnotation, position: at(6, 7) }))
    );
}

#[test]
fn find_key_gives_the_first_place() {
    let entries = vec![pair("a", "1"), pair("b", "2"), pair("a", "3")];
    assert_eq!(find_key(&entries, &"a".to_string()), Some(0));
    assert_eq!(find_key(&entries, &"b".to_string()), Some(1));
    assert_eq!(find_key(&entries, &"c".to_string()), None);
}

#[test]
fn small_helpers() {
    assert_eq!(clone_optional(&Some("x".to_string())), Some("x".to_string()));
    assert_eq!(clone_optional(&None), None);
    assert!(same_text(&"ab".to_string(), &"ab".to_string()));
    assert!(!same_text(&"ab".to_string(), &"abc".to_string()));
    let keys = vec!["a".to_string(), "b".to_string()];
    assert!(contains_text(&keys, &"b".to_string()));
    assert!(!contains_text(&keys, &"c".to_string()));
    let attr = list("mux", "", at(0, 0));
    assert!(attr.has_tag("mux"));
    assert!(!attr.has_tag("names"));
    assert_eq!(attr.clone(), attr);
}

#[test]
fn messages() {
    let at0 = at(0, 0);
    let message = |kind| Diagnostic { kind, position: at0 }.message();
    assert_eq!(message(ErrorKind::MalformedAnnotation), "Unsupported attribute format");
    assert_eq!(
        message(ErrorKind::CardinalityError),
        "There must be exactly one attribute of this name"
    );
    assert_eq!(message(ErrorKind::DuplicateKey), "Duplicate key");
    assert_eq!(message(ErrorKind::OrderError), "Default entry must be the first");
    assert_eq!(message(ErrorKind::UnknownKey), "Name not found in `names`");
    assert_eq!(message(ErrorKind::UnsupportedKind), "Unions are not supported");
}

#[test]
fn names_are_given_as_the_parser_reads_them() {
    let single = MuxAttr { default: Some("  B /* the copy */ ".to_string()), entries: vec![] };
    assert_eq!(MuxNamesAttr::from_mux(&single), Ok(MuxNamesAttr::Single("B".to_string())));
    let by_key = MuxAttr { default: None, entries: vec![pair("b", " r#type ")] };
    assert_eq!(
        MuxNamesAttr::from_mux(&by_key),
        Ok(MuxNamesAttr::Multiple(vec![pair("b", "r#type")]))
    );
}

#[test]
fn keys_are_compared_as_written() {
    let mux = MuxAttr::from_args("r#a = x, a = y").unwrap();
    assert_eq!(mux.entries, vec![pair("r#a", "x"), pair("a", "y")]);
    let a = "a".to_string();
    assert_eq!(mux.resolve(Some(&a)), Some("y".to_string()));
}

#[test]
fn keys_of_names_are_unique() {
    let names = MuxNamesAttr::new(&list("names", "b = B, c = C, d = B", at(1, 0))).unwrap().unwrap();
    let keys = names.keys();
    for (i, key) in keys.iter().enumerate() {
        assert!(!keys[..i].contains(key));
    }
    assert_eq!(keys.len(), 3);
}

#[test]
fn names_content() {
    assert_eq!(MuxNamesAttr::from_args("B"), Ok(MuxNamesAttr::Single("B".to_string())));
    assert_eq!(
        MuxNamesAttr::from_args("b = B, c = C"),
        Ok(MuxNamesAttr::Multiple(vec![pair("b", "B"), pair("c", "C")]))
    );
    assert_eq!(MuxNamesAttr::from_args("A, b = B"), Err(ErrorKind::MalformedAnnotation));
    assert_eq!(MuxNamesAttr::from_args("b = B, A"), Err(ErrorKind::MalformedAnnotation));
    assert_eq!(MuxNamesAttr::from_args("b = B, b = C"), Err(ErrorKind::DuplicateKey));
    assert_eq!(MuxNamesAttr::from_args("b = "), Err(ErrorKind::MalformedAnnotation));
}

#[test]
fn names_from_identifiers_as_read() {
    let read = |key: &str, name: Option<&str>| (key.to_string(), name.map(str::to_string));
    assert_eq!(
        MuxNamesAttr::from_idents(Some(Some("B".to_string())), &vec![]),
        Ok(MuxNamesAttr::Single("B".to_string()))
    );
    assert_eq!(
        MuxNamesAttr::from_idents(Some(None), &vec![]),
        Err(ErrorKind::MalformedAnnotation)
    );
    assert_eq!(
        MuxNamesAttr::from_idents(Some(Some("A".to_string())), &vec![read("b", Some("B"))]),
        Err(ErrorKind::MalformedAnnotation)
    );
    assert_eq!(
        MuxNamesAttr::from_idents(None, &vec![read("b", Some("B")), read("c", Some("C"))]),
        Ok(MuxNamesAttr::Multiple(vec![pair("b", "B"), pair("c", "C")]))
    );
    assert_eq!(
        MuxNamesAttr::from_idents(None, &vec![read("b", Some("B")), read("c", None)]),
        Err(ErrorKind::MalformedAnnotation)
    );
    assert_eq!(MuxNamesAttr::from_idents(None, &vec![]), Ok(MuxNamesAttr::Multiple(vec![])));
}

#[test]
fn identifiers_are_read() {
    assert_eq!(read_ident(" B "), Some("B".to_string()));
    assert_eq!(read_ident("r#type"), Some("r#type".to_string()));
    assert_eq!(read_ident("type"), None);
    assert_eq!(read_ident("_"), None);
    assert_eq!(read_ident("a b"), None);
    assert_eq!(read_ident("a::b"), None);
    assert_eq!(read_ident("1"), None);
    assert_eq!(read_ident(""), None);
}

#[test]
fn types_from_paths_as_read() {
    let a = TypeRef { path: "A".to_string(), ident: Some("A".to_string()) };
    assert_eq!(FromAttr::from_paths(Some(vec![a.clone()])), Ok(FromAttr { types: vec![a] }));
    assert_eq!(FromAttr::from_paths(Some(vec![])), Ok(FromAttr { types: vec![] }));
    assert_eq!(FromAttr::from_paths(None), Err(ErrorKind::MalformedAnnotation));
}

#[test]
fn content_of_an_annotation() {
    let attr = list("mux", "b = x", at(3, 1));
    assert_eq!(content_of(&attr, "mux"), Some(Ok("b = x")));
    assert_eq!(content_of(&attr, "from"), None);
    let word = Annotation {
        tag: "mux".to_string(),
        form: Form::Bare,
        content: String::new(),
        position: at(4, 1),
    };
    assert_eq!(
        content_of(&word, "mux"),
        Some(Err(Diagnostic { kind: ErrorKind::MalformedAnnotation, position: at(4, 1) }))
    );
}

#[test]
fn failures_are_put_at_a_position() {
    assert_eq!(put_at(Ok::<u8, ErrorKind>(1), at(1, 2)), Ok(1));
    assert_eq!(
        put_at(Err::<u8, ErrorKind>(ErrorKind::OrderError), at(1, 2)),
        Err(Diagnostic { kind: ErrorKind::OrderError, position: at(1, 2) })
    );
}
