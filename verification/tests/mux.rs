use mux_attrs::diagnostic::{Diagnostic, ErrorKind};
use mux_attrs::mux::{names_of_declaration, replace, substitute, Demuxer};
use mux_attrs::attrs::MuxNamesAttr;
use mux_attrs::tree::{
    Annotation, Data, Declaration, Delimiter, Field, Fields, Form, NamedField, Position, Variant,
};

fn at(line: usize, column: usize) -> Position {
    Position { line, column }
}

fn list(tag: &str, content: &str, line: usize) -> Annotation {
    Annotation {
        tag: tag.to_string(),
        form: Form::List(Delimiter::Paren),
        content: content.to_string(),
        position: at(line, 0),
    }
}

fn word(tag: &str, line: usize) -> Annotation {
    Annotation { tag: tag.to_string(), form: Form::Bare, content: String::new(), position: at(line, 0) }
}

fn field(attrs: Vec<Annotation>, ty: &str) -> Field {
    Field { attrs, ty: ty.to_string() }
}

fn named(attrs: Vec<Annotation>, name: &str, ty: &str) -> NamedField {
    NamedField { name: name.to_string(), field: field(attrs, ty) }
}

fn variant(attrs: Vec<Annotation>, ident: &str, fields: Fields) -> Variant {
    Variant { attrs, ident: ident.to_string(), fields }
}

fn declaration(attrs: Vec<Annotation>, ident: &str, data: Data) -> Declaration {
    Declaration {
        attrs,
        ident: ident.to_string(),
        generics: String::new(),
        data,
        position: at(100, 0),
    }
}

fn record_a(attrs: Vec<Annotation>) -> Declaration {
    declaration(
        attrs,
        "A",
        Data::Struct(Fields::Named(vec![named(vec![], "x", "i32"), named(vec![], "y", "bool")])),
    )
}

fn multiplex(input: &Declaration) -> Result<Vec<Declaration>, Diagnostic> {
    mux_attrs::mux::derive(input)
}

fn failure(kind: ErrorKind, line: usize) -> Diagnostic {
    Diagnostic { kind, position: at(line, 0) }
}

#[test]
fn single_name_gives_one_copy_of_the_same_shape() {
    let input = record_a(vec![list("names", "B", 1)]);
    let copies = multiplex(&input).unwrap();
    assert_eq!(copies, vec![declaration(
        vec![],
        "B",
        Data::Struct(Fields::Named(vec![named(vec![], "x", "i32"), named(vec![], "y", "bool")])),
    )]);
}

#[test]
fn copy_keeps_generics_and_position() {
    let mut input = record_a(vec![list("names", "B", 1)]);
    input.generics = "< T : Clone >".to_string();
    input.position = at(42, 7);
    let copies = multiplex(&input).unwrap();
    assert_eq!(copies.len(), 1);
    assert_eq!(copies[0].generics, "< T : Clone >");
    assert_eq!(copies[0].position, at(42, 7));
    assert_eq!(copies[0].data, input.data);
}

#[test]
fn names_by_key_give_one_copy_for_each_name() {
    let input = record_a(vec![list("names", "b = B, c = C, d = D", 1)]);
    let copies = multiplex(&input).unwrap();
    assert_eq!(copies.len(), 3);
    let idents: Vec<&str> = copies.iter().map(|copy| copy.ident.as_str()).collect();
    assert_eq!(idents, vec!["B", "C", "D"]);
    for copy in &copies {
        assert_eq!(copy.data, input.data);
        assert!(copy.attrs.is_empty());
    }
}

#[test]
fn the_same_name_twice_gives_two_copies() {
    let input = record_a(vec![list("names", "b = X, c = X", 1)]);
    let copies = multiplex(&input).unwrap();
    assert_eq!(copies.len(), 2);
    assert_eq!(copies[0].ident, "X");
    assert_eq!(copies[1].ident, "X");
}

#[test]
fn no_names_at_all_give_no_copy() {
    let input = record_a(vec![list("names", "", 1)]);
    assert_eq!(multiplex(&input), Ok(vec![]));
}

#[test]
fn other_annotations_stay_as_they_are() {
    let keep = vec![
        list("derive", "Clone , Copy", 2),
        word("non_exhaustive", 3),
        Annotation {
            tag: "doc".to_string(),
            form: Form::Value,
            content: "\"text\"".to_string(),
            position: at(4, 0),
        },
        list("from", "A , B", 5),
        Annotation {
            tag: "a :: mux".to_string(),
            form: Form::List(Delimiter::Bracket),
            content: "1 + ".to_string(),
            position: at(6, 0),
        },
    ];
    let mut attrs = vec![list("names", "B", 1)];
    attrs.extend(keep.iter().cloned());
    let copies = multiplex(&record_a(attrs)).unwrap();
    assert_eq!(copies[0].attrs, keep);
}

#[test]
fn default_alone_is_the_same_in_every_copy() {
    let input = record_a(vec![
        list("names", "b = B, c = C", 1),
        list("mux", "derive(Default)", 2),
    ]);
    let copies = multiplex(&input).unwrap();
    let expected = vec![list("derive", "Default", 2)];
    assert_eq!(copies[0].attrs, expected);
    assert_eq!(copies[1].attrs, expected);
}

#[test]
fn keyed_entry_for_its_copy_and_default_for_the_others() {
    let input = record_a(vec![
        list("names", "b = B, c = C, d = D", 1),
        list("mux", "repr(C), c = repr(C, packed)", 2),
    ]);
    let copies = multiplex(&input).unwrap();
    assert_eq!(copies[0].attrs, vec![list("repr", "C", 2)]);
    assert_eq!(copies[1].attrs, vec![list("repr", "C , packed", 2)]);
    assert_eq!(copies[2].attrs, vec![list("repr", "C", 2)]);
}

#[test]
fn annotation_without_content_for_a_copy_is_dropped() {
    let input = record_a(vec![
        list("derive", "Clone", 1),
        list("mux", "b = repr(C)", 2),
        list("names", "b = B, c = C", 3),
        word("last", 4),
    ]);
    let copies = multiplex(&input).unwrap();
    assert_eq!(copies[0].attrs, vec![list("derive", "Clone", 1), list("repr", "C", 2), word("last", 4)]);
    assert_eq!(copies[1].attrs, vec![list("derive", "Clone", 1), word("last", 4)]);
}

#[test]
fn content_may_be_a_word_or_a_value() {
    let input = record_a(vec![
        list("names", "b = B, c = C", 1),
        list("mux", "b = default, c = doc = \"text\"", 2),
    ]);
    let copies = multiplex(&input).unwrap();
    assert_eq!(copies[0].attrs, vec![word("default", 2)]);
    assert_eq!(copies[1].attrs, vec![Annotation {
        tag: "doc".to_string(),
        form: Form::Value,
        content: "\"text\"".to_string(),
        position: at(2, 0),
    }]);
}

#[test]
fn content_that_is_a_mux_annotation_is_not_rewritten_again() {
    let input = record_a(vec![list("names", "B", 1), list("mux", "mux(x)", 2)]);
    let copies = multiplex(&input).unwrap();
    assert_eq!(copies[0].attrs, vec![list("mux", "x", 2)]);
}

#[test]
fn different_defaults_for_the_variants_of_a_tagged_union() {
    let input = declaration(
        vec![
            list("names", "b = B, c = C", 1),
            list("derive", "Clone , Copy , From , PartialEq , Eq , Debug", 2),
            list("from", "A , B , C", 3),
            list("mux", "derive(Default)", 4),
        ],
        "A",
        Data::Enum(vec![
            variant(vec![list("mux", "b = default", 5)], "X", Fields::Unit),
            variant(vec![list("mux", "c = default", 6)], "Y", Fields::Unit),
        ]),
    );
    let copies = multiplex(&input).unwrap();
    let top = vec![
        list("derive", "Clone , Copy , From , PartialEq , Eq , Debug", 2),
        list("from", "A , B , C", 3),
        list("derive", "Default", 4),
    ];
    assert_eq!(copies, vec![
        declaration(
            top.clone(),
            "B",
            Data::Enum(vec![
                variant(vec![word("default", 5)], "X", Fields::Unit),
                variant(vec![], "Y", Fields::Unit),
            ]),
        ),
        declaration(
            top,
            "C",
            Data::Enum(vec![
                variant(vec![], "X", Fields::Unit),
                variant(vec![word("default", 6)], "Y", Fields::Unit),
            ]),
        ),
    ]);
}

#[test]
fn different_layouts_for_a_record() {
    let input = declaration(
        vec![
            list("names", "b = B, c = C", 1),
            list("mux", "b = repr(C),c = repr(C, packed)", 2),
        ],
        "A",
        Data::Struct(Fields::Unnamed(vec![field(vec![], "u8"), field(vec![], "u32")])),
    );
    let copies = multiplex(&input).unwrap();
    assert_eq!(copies[0].ident, "B");
    assert_eq!(copies[0].attrs, vec![list("repr", "C", 2)]);
    assert_eq!(copies[1].ident, "C");
    assert_eq!(copies[1].attrs, vec![list("repr", "C , packed", 2)]);
    assert_eq!(copies[0].data, input.data);
    assert_eq!(copies[1].data, input.data);
}

#[test]
fn annotations_of_fields_are_rewritten() {
    let input = declaration(
        vec![list("names", "b = B, c = C", 1)],
        "A",
        Data::Enum(vec![
            variant(
                vec![],
                "T",
                Fields::Unnamed(vec![field(vec![list("mux", "b = first", 2)], "i32")]),
            ),
            variant(
                vec![list("names", "ignored", 3)],
                "S",
                Fields::Named(vec![named(vec![list("mux", "all, c = second", 4)], "x", "i32")]),
            ),
        ]),
    );
    let copies = multiplex(&input).unwrap();
    assert_eq!(copies[0].data, Data::Enum(vec![
        variant(vec![], "T", Fields::Unnamed(vec![field(vec![word("first", 2)], "i32")])),
        variant(vec![], "S", Fields::Named(vec![named(vec![word("all", 4)], "x", "i32")])),
    ]));
    assert_eq!(copies[1].data, Data::Enum(vec![
        variant(vec![], "T", Fields::Unnamed(vec![field(vec![], "i32")])),
        variant(vec![], "S", Fields::Named(vec![named(vec![word("second", 4)], "x", "i32")])),
    ]));
}

#[test]
fn a_union_is_multiplexed_like_a_record() {
    let input = declaration(
        vec![list("names", "B", 1)],
        "A",
        Data::Union(Fields::Named(vec![named(vec![list("mux", "only", 2)], "x", "i32")])),
    );
    let copies = multiplex(&input).unwrap();
    assert_eq!(copies, vec![declaration(
        vec![],
        "B",
        Data::Union(Fields::Named(vec![named(vec![word("only", 2)], "x", "i32")])),
    )]);
}

#[test]
fn default_not_first_fails_with_order_error() {
    let input = record_a(vec![
        list("names", "b = B, c = C", 1),
        list("mux", "b = repr(C), derive(Default)", 2),
    ]);
    assert_eq!(multiplex(&input), Err(failure(ErrorKind::OrderError, 2)));
}

#[test]
fn unknown_key_fails() {
    let input = record_a(vec![
        list("names", "b = B, c = C", 1),
        list("mux", "b = repr(C), e = repr(C, packed)", 2),
    ]);
    assert_eq!(multiplex(&input), Err(failure(ErrorKind::UnknownKey, 2)));
}

#[test]
fn every_key_is_unknown_with_a_single_name() {
    let input = record_a(vec![list("names", "B", 1), list("mux", "b = repr(C)", 2)]);
    assert_eq!(multiplex(&input), Err(failure(ErrorKind::UnknownKey, 2)));
}

#[test]
fn duplicate_key_fails() {
    let input = record_a(vec![
        list("names", "b = B, c = C", 1),
        list("mux", "b = x, b = y", 2),
    ]);
    assert_eq!(multiplex(&input), Err(failure(ErrorKind::DuplicateKey, 2)));
    let names = record_a(vec![list("names", "b = B, b = C", 1)]);
    assert_eq!(multiplex(&names), Err(failure(ErrorKind::DuplicateKey, 1)));
}

#[test]
fn two_names_annotations_fail_with_cardinality_error() {
    let input = record_a(vec![list("names", "B", 1), list("names", "C", 2)]);
    assert_eq!(multiplex(&input), Err(failure(ErrorKind::CardinalityError, 100)));
}

#[test]
fn no_names_annotation_fails_with_cardinality_error() {
    let input = record_a(vec![list("derive", "Clone", 1)]);
    assert_eq!(multiplex(&input), Err(failure(ErrorKind::CardinalityError, 100)));
    assert_eq!(multiplex(&record_a(vec![])), Err(failure(ErrorKind::CardinalityError, 100)));
}

#[test]
fn names_annotation_of_a_field_does_not_count() {
    let input = declaration(
        vec![],
        "A",
        Data::Struct(Fields::Named(vec![named(vec![list("names", "B", 1)], "x", "i32")])),
    );
    assert_eq!(multiplex(&input), Err(failure(ErrorKind::CardinalityError, 100)));
}

#[test]
fn a_names_annotation_that_cannot_be_read_fails_first() {
    let input = record_a(vec![list("names", "B", 1), list("names", "1 + 2", 2)]);
    assert_eq!(multiplex(&input), Err(failure(ErrorKind::MalformedAnnotation, 2)));
    let mixed = record_a(vec![list("names", "A, b = B", 3)]);
    assert_eq!(multiplex(&mixed), Err(failure(ErrorKind::MalformedAnnotation, 3)));
    let bare = record_a(vec![word("names", 4)]);
    assert_eq!(multiplex(&bare), Err(failure(ErrorKind::MalformedAnnotation, 4)));
}

#[test]
fn content_that_is_no_annotation_fails() {
    let input = record_a(vec![
        list("names", "b = B, c = C", 1),
        list("mux", "c = 1 + 2", 2),
    ]);
    assert_eq!(multiplex(&input), Err(failure(ErrorKind::MalformedAnnotation, 2)));
}

#[test]
fn the_first_failure_on_the_way_through_the_tree_is_reported() {
    let input = declaration(
        vec![list("names", "b = B", 1), list("derive", "Clone", 2)],
        "A",
        Data::Enum(vec![
            variant(
                vec![],
                "T",
                Fields::Unnamed(vec![
                    field(vec![], "i32"),
                    field(vec![list("mux", "b = x, b = y", 3)], "i32"),
                ]),
            ),
            variant(vec![list("mux", "e = x", 4)], "S", Fields::Unit),
        ]),
    );
    assert_eq!(multiplex(&input), Err(failure(ErrorKind::DuplicateKey, 3)));
    let variant_first = declaration(
        vec![list("names", "b = B", 1)],
        "A",
        Data::Enum(vec![variant(
            vec![list("mux", "e = x", 5)],
            "T",
            Fields::Unnamed(vec![field(vec![list("mux", "b = x, b = y", 6)], "i32")]),
        )]),
    );
    assert_eq!(multiplex(&variant_first), Err(failure(ErrorKind::UnknownKey, 5)));
    let top_first = declaration(
        vec![list("names", "b = B", 1), list("mux", "x, y", 7)],
        "A",
        Data::Struct(Fields::Named(vec![named(vec![list("mux", "e = x", 8)], "x", "i32")])),
    );
    assert_eq!(multiplex(&top_first), Err(failure(ErrorKind::OrderError, 7)));
}

#[test]
fn names_are_read_from_the_declaration() {
    let input = record_a(vec![list("derive", "Clone", 1), list("names", "b = B", 2)]);
    assert_eq!(
        names_of_declaration(&input),
        Ok(MuxNamesAttr::Multiple(vec![("b".to_string(), "B".to_string())]))
    );
}

#[test]
fn substitute_reads_the_content_as_an_annotation() {
    let attr = list("mux", "whatever", 9);
    assert_eq!(substitute(&attr, "repr(C)"), Ok(Some(list("repr", "C", 9))));
    assert_eq!(substitute(&attr, "default"), Ok(Some(word("default", 9))));
    assert_eq!(
        substitute(&attr, "cfg[x]"),
        Ok(Some(Annotation {
            tag: "cfg".to_string(),
            form: Form::List(Delimiter::Bracket),
            content: "x".to_string(),
            position: at(9, 0),
        }))
    );
    assert_eq!(
        substitute(&attr, "cfg{x}"),
        Ok(Some(Annotation {
            tag: "cfg".to_string(),
            form: Form::List(Delimiter::Brace),
            content: "x".to_string(),
            position: at(9, 0),
        }))
    );
    assert_eq!(
        substitute(&attr, "a::b = 1"),
        Ok(Some(Annotation {
            tag: "a :: b".to_string(),
            form: Form::Value,
            content: "1".to_string(),
            position: at(9, 0),
        }))
    );
    assert_eq!(substitute(&attr, "1 + 2"), Err(failure(ErrorKind::MalformedAnnotation, 9)));
    assert_eq!(substitute(&attr, ""), Err(failure(ErrorKind::MalformedAnnotation, 9)));
}

#[test]
fn demuxer_rewrites_one_annotation() {
    let keys = vec!["b".to_string(), "c".to_string()];
    let b = "b".to_string();
    let c = "c".to_string();
    let for_b = Demuxer { key: Some(&b), all_keys: &keys };
    let for_c = Demuxer { key: Some(&c), all_keys: &keys };
    let attr = list("mux", "b = x", 1);
    assert_eq!(for_b.demux_attr(&attr), Ok(Some(word("x", 1))));
    assert_eq!(for_c.demux_attr(&attr), Ok(None));
    assert_eq!(for_b.demux_attr(&list("names", "anything at all", 2)), Ok(None));
    assert_eq!(for_b.demux_attr(&word("names", 2)), Ok(None));
    assert_eq!(for_b.demux_attr(&word("other", 3)), Ok(Some(word("other", 3))));
    assert_eq!(
        for_b.demux_attr(&list("mux", "z = x", 4)),
        Err(failure(ErrorKind::UnknownKey, 4))
    );
    assert_eq!(
        for_b.demux_attr(&word("mux", 5)),
        Err(failure(ErrorKind::MalformedAnnotation, 5))
    );
}

#[test]
fn demuxer_rewrites_a_list() {
    let keys = vec!["b".to_string()];
    let b = "b".to_string();
    let demuxer = Demuxer { key: Some(&b), all_keys: &keys };
    let attrs = vec![word("first", 1), list("mux", "", 2), list("mux", "b = second", 3), word("third", 4)];
    assert_eq!(
        demuxer.visit_attributes(&attrs),
        Ok(vec![word("first", 1), word("second", 3), word("third", 4)])
    );
    let failing = vec![list("mux", "x, y", 1), list("mux", "z = x", 2)];
    assert_eq!(demuxer.visit_attributes(&failing), Err(failure(ErrorKind::OrderError, 1)));
}

#[test]
fn messages_of_multiplexing() {
    let input = record_a(vec![list("names", "B", 1), list("names", "C", 2)]);
    let e = multiplex(&input).unwrap_err();
    assert_eq!(mux_attrs::mux::message(&e), "There must be exactly one `names` attribute");
    let unknown = failure(ErrorKind::UnknownKey, 1);
    assert_eq!(mux_attrs::mux::message(&unknown), "Name not found in `names`");
    assert_eq!(mux_attrs::mux::message(&unknown), unknown.message());
}

#[test]
fn replace_takes_the_annotation_as_read() {
    let attr = list("mux", "whatever", 9);
    assert_eq!(
        replace(&attr, Some(("repr".to_string(), Form::List(Delimiter::Paren), "C".to_string()))),
        Ok(Some(list("repr", "C", 9)))
    );
    assert_eq!(
        replace(&attr, Some(("default".to_string(), Form::Bare, String::new()))),
        Ok(Some(word("default", 9)))
    );
    assert_eq!(replace(&attr, None), Err(failure(ErrorKind::MalformedAnnotation, 9)));
}

#[test]
fn default_alone_in_both_copies_of_a_tagged_union() {
    let input = declaration(
        vec![list("names", "b = B, c = C", 1), list("mux", "derive(Default)", 2)],
        "A",
        Data::Enum(vec![variant(vec![], "X", Fields::Unit), variant(vec![], "Y", Fields::Unit)]),
    );
    let copies = multiplex(&input).unwrap();
    let variants = Data::Enum(vec![
        variant(vec![], "X", Fields::Unit),
        variant(vec![], "Y", Fields::Unit),
    ]);
    assert_eq!(copies, vec![
        declaration(vec![list("derive", "Default", 2)], "B", variants.clone()),
        declaration(vec![list("derive", "Default", 2)], "C", variants),
    ]);
}

#[test]
fn keyed_layout_for_one_copy_and_the_default_for_the_other() {
    let fields = Data::Struct(Fields::Unnamed(vec![field(vec![], "u8"), field(vec![], "u32")]));
    let input = declaration(
        vec![list("names", "b = B, c = C", 1), list("mux", "repr(C), c = repr(C, packed)", 2)],
        "A",
        fields.clone(),
    );
    let copies = multiplex(&input).unwrap();
    assert_eq!(copies, vec![
        declaration(vec![list("repr", "C", 2)], "B", fields.clone()),
        declaration(vec![list("repr", "C , packed", 2)], "C", fields),
    ]);
}

#[test]
fn an_annotation_of_another_spelling_is_no_names_annotation() {
    let input = record_a(vec![list("mux_names", "B", 1)]);
    assert_eq!(multiplex(&input), Err(failure(ErrorKind::CardinalityError, 100)));
    let both = record_a(vec![list("names", "B", 1), list("mux_names", "C", 2)]);
    let copies = multiplex(&both).unwrap();
    assert_eq!(copies.len(), 1);
    assert_eq!(copies[0].attrs, vec![list("mux_names", "C", 2)]);
}
