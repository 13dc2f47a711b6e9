use xml_decode::decoded::{Decoded, Entry};
use xml_decode::decode::from_node;
use xml_decode::shape::{Field, ScalarKind, Shape, Variant};
use xml_decode::text::{
    from_yes_no, parse_i16, parse_i32, parse_i8, parse_u16, parse_u32, parse_u8,
};
use xml_decode::option_ext::OptionExt;
use xml_decode::tree::{XmlChild, XmlNode};
use xml_decode::xml::{from_document, parse};

fn elem(tag: &str, attrs: &[(&str, &str)], children: Vec<XmlChild>) -> XmlNode {
    XmlNode {
        tag: tag.to_string(),
        attributes: attrs.iter().map(|(n, v)| (n.to_string(), v.to_string())).collect(),
        children,
    }
}

fn text(t: &str) -> XmlChild {
    XmlChild::Text(t.to_string())
}

fn comment(t: &str) -> XmlChild {
    XmlChild::Comment(t.to_string())
}

fn child(tag: &str, attrs: &[(&str, &str)], children: Vec<XmlChild>) -> XmlChild {
    XmlChild::Element(elem(tag, attrs, children))
}

fn field(name: &str, shape: Shape) -> Field {
    Field { name: name.to_string(), shape }
}

fn struct_shape(fields: Vec<Field>) -> Shape {
    Shape::Struct { fields }
}

#[test]
fn yes_no_literals() {
    assert_eq!(from_yes_no("yes").unwrap(), true);
    assert_eq!(from_yes_no("no").unwrap(), false);
}

#[test]
fn yes_no_rejects_and_names_the_text() {
    let e = from_yes_no("Yes").unwrap_err();
    assert_eq!(
        e.message().as_str(),
        "provided string was not `yes` or `no`, got Yes"
    );
    assert!(from_yes_no("true").is_err());
    assert!(from_yes_no("").is_err());
}

#[test]
fn integer_decimal_text() {
    assert_eq!(parse_u8("0").unwrap(), 0);
    assert_eq!(parse_u8("255").unwrap(), 255);
    assert!(parse_u8("256").is_err());
    assert_eq!(parse_u16("65535").unwrap(), 65535);
    assert_eq!(parse_u32("4294967295").unwrap(), 4294967295);
    assert_eq!(parse_u32("007").unwrap(), 7);
    assert_eq!(parse_u32("+42").unwrap(), 42);
    assert_eq!(parse_i8("-128").unwrap(), -128);
    assert!(parse_i8("-129").is_err());
    assert_eq!(parse_i16("-32768").unwrap(), -32768);
    assert_eq!(parse_i32("2147483647").unwrap(), 2147483647);
    assert_eq!(parse_i32("-2147483648").unwrap(), -2147483648);
    assert!(parse_u32("").is_err());
    assert!(parse_u32("+").is_err());
    assert!(parse_u32("12a").is_err());
    assert!(parse_i32("--1").is_err());
    assert!(parse_u32("4294967296").is_err());
}

#[test]
fn shape_attribute_and_repeating_children() {
    let node = elem(
        "row",
        &[("a", "1")],
        vec![child("b", &[], vec![text("x")]), child("b", &[], vec![text("y")])],
    );
    let shape = struct_shape(vec![
        field("a", Shape::Scalar(ScalarKind::U32)),
        field("b*", Shape::Sequence(Box::new(Shape::Scalar(ScalarKind::Str)))),
    ]);
    let got = from_node(&node, &shape).unwrap();
    let want = Decoded::Struct(vec![
        Entry { key: "a".to_string(), value: Decoded::U32(1) },
        Entry {
            key: "b*".to_string(),
            value: Decoded::Sequence(vec![
                Decoded::Str("x".to_string()),
                Decoded::Str("y".to_string()),
            ]),
        },
    ]);
    assert_eq!(got, want);
}

#[test]
fn sequence_stops_at_the_first_other_tag() {
    let node = elem(
        "row",
        &[],
        vec![
            child("b", &[], vec![text("x")]),
            child("c", &[], vec![text("z")]),
            child("b", &[], vec![text("y")]),
        ],
    );
    let shape = struct_shape(vec![field(
        "b*",
        Shape::Sequence(Box::new(Shape::Scalar(ScalarKind::Str))),
    )]);
    let got = from_node(&node, &shape).unwrap();
    // the run for `b` is exactly ["x"]; the later <b>y</b> is not rejoined,
    // and the unmatched <c> stops field iteration silently
    let want = Decoded::Struct(vec![Entry {
        key: "b*".to_string(),
        value: Decoded::Sequence(vec![Decoded::Str("x".to_string())]),
    }]);
    assert_eq!(got, want);
}

#[test]
fn a_second_run_restarts_after_a_matched_singular_field() {
    let node = elem(
        "row",
        &[],
        vec![
            child("b", &[], vec![text("x")]),
            child("c", &[], vec![text("z")]),
            child("b", &[], vec![text("y")]),
        ],
    );
    let shape = struct_shape(vec![
        field("b*", Shape::Sequence(Box::new(Shape::Scalar(ScalarKind::Str)))),
        field("c", Shape::Scalar(ScalarKind::Str)),
    ]);
    let got = from_node(&node, &shape).unwrap();
    let want = Decoded::Struct(vec![
        Entry {
            key: "b*".to_string(),
            value: Decoded::Sequence(vec![Decoded::Str("x".to_string())]),
        },
        Entry { key: "c".to_string(), value: Decoded::Str("z".to_string()) },
        Entry {
            key: "b*".to_string(),
            value: Decoded::Sequence(vec![Decoded::Str("y".to_string())]),
        },
    ]);
    assert_eq!(got, want);
}

#[test]
fn whitespace_and_comments_between_matched_elements_are_transparent() {
    let plain = elem(
        "row",
        &[("a", "1")],
        vec![child("b", &[], vec![text("x")]), child("b", &[], vec![text("y")])],
    );
    let padded = elem(
        "row",
        &[("a", "1")],
        vec![
            text("\n  "),
            comment(" first "),
            child("b", &[], vec![text("x")]),
            text("\t"),
            child("b", &[], vec![text("y")]),
            comment(" done "),
            text("  \n"),
        ],
    );
    let shape = struct_shape(vec![
        field("a", Shape::Scalar(ScalarKind::U32)),
        field("b*", Shape::Sequence(Box::new(Shape::Scalar(ScalarKind::Str)))),
    ]);
    assert_eq!(from_node(&plain, &shape).unwrap(), from_node(&padded, &shape).unwrap());
}

#[test]
fn simple_content_decodes_as_integer() {
    let node = elem("x", &[], vec![text("42")]);
    assert_eq!(
        from_node(&node, &Shape::Scalar(ScalarKind::U32)).unwrap(),
        Decoded::U32(42)
    );
}

#[test]
fn a_unit_request_fails_on_a_nonempty_element() {
    let node = elem("x", &[], vec![text("42")]);
    assert!(from_node(&node, &Shape::Unit).is_err());
    let empty = elem("x", &[], vec![]);
    assert_eq!(from_node(&empty, &Shape::Unit).unwrap(), Decoded::Unit);
}

#[test]
fn a_scalar_request_fails_on_mixed_content_or_attributes() {
    let with_attr = elem("x", &[("a", "1")], vec![text("42")]);
    assert!(from_node(&with_attr, &Shape::Scalar(ScalarKind::U32)).is_err());
    let mixed = elem("x", &[], vec![text("4"), child("y", &[], vec![])]);
    assert!(from_node(&mixed, &Shape::Scalar(ScalarKind::U32)).is_err());
    let empty = elem("x", &[], vec![]);
    assert!(from_node(&empty, &Shape::Scalar(ScalarKind::U32)).is_err());
}

#[test]
fn flatten_sees_the_rest_but_not_the_claimed_attribute() {
    let node = elem("row", &[("name", "n"), ("extra", "e")], vec![]);
    let shape = struct_shape(vec![
        field("name", Shape::Scalar(ScalarKind::Str)),
        field(
            "",
            struct_shape(vec![field("extra", Shape::Scalar(ScalarKind::Str))]),
        ),
    ]);
    let got = from_node(&node, &shape).unwrap();
    let want = Decoded::Struct(vec![
        Entry { key: "name".to_string(), value: Decoded::Str("n".to_string()) },
        Entry {
            key: "".to_string(),
            value: Decoded::Struct(vec![Entry {
                key: "extra".to_string(),
                value: Decoded::Str("e".to_string()),
            }]),
        },
    ]);
    assert_eq!(got, want);
}

#[test]
fn decoding_twice_yields_structurally_equal_results() {
    let node = elem(
        "row",
        &[("a", "1")],
        vec![child("b", &[], vec![text("x")]), child("b", &[], vec![text("y")])],
    );
    let shape = struct_shape(vec![
        field("a", Shape::Scalar(ScalarKind::U32)),
        field("b*", Shape::Sequence(Box::new(Shape::Scalar(ScalarKind::Str)))),
    ]);
    let first = from_node(&node, &shape).unwrap();
    let second = from_node(&node, &shape).unwrap();
    assert_eq!(first, second);
}

#[test]
fn internal_tagging_reads_the_variant_from_the_text() {
    let node = elem("color", &[], vec![text("red")]);
    let shape = Shape::Enum {
        name: "color".to_string(),
        variants: vec![
            Variant { name: "red".to_string(), shape: Shape::Unit },
            Variant { name: "blue".to_string(), shape: Shape::Unit },
        ],
    };
    let got = from_node(&node, &shape).unwrap();
    let want = Decoded::Enum {
        variant: "red".to_string(),
        payload: Box::new(Decoded::Unit),
    };
    assert_eq!(got, want);
    let bad = elem("color", &[], vec![text("green")]);
    assert!(from_node(&bad, &shape).is_err());
}

#[test]
fn external_tagging_reads_the_variant_from_the_tag() {
    let node = elem("red", &[], vec![text("5")]);
    let shape = Shape::Enum {
        name: "color".to_string(),
        variants: vec![Variant {
            name: "red".to_string(),
            shape: Shape::Scalar(ScalarKind::U32),
        }],
    };
    let got = from_node(&node, &shape).unwrap();
    let want = Decoded::Enum {
        variant: "red".to_string(),
        payload: Box::new(Decoded::U32(5)),
    };
    assert_eq!(got, want);
}

#[test]
fn the_text_catch_all_claims_bare_text() {
    let node = elem("x", &[], vec![text("hello")]);
    let shape = struct_shape(vec![field("$", Shape::Scalar(ScalarKind::Str))]);
    let got = from_node(&node, &shape).unwrap();
    let want = Decoded::Struct(vec![Entry {
        key: "$".to_string(),
        value: Decoded::Str("hello".to_string()),
    }]);
    assert_eq!(got, want);
    // without the catch-all field, the text stops iteration silently
    let none = struct_shape(vec![]);
    assert_eq!(from_node(&node, &none).unwrap(), Decoded::Struct(vec![]));
}

#[test]
fn an_optional_request_always_resolves_present() {
    let node = elem("x", &[], vec![text("5")]);
    let shape = Shape::Optional(Box::new(Shape::Scalar(ScalarKind::U32)));
    assert_eq!(
        from_node(&node, &shape).unwrap(),
        Decoded::Present(Box::new(Decoded::U32(5)))
    );
}

#[test]
fn a_repeating_field_needs_a_sequence_shape() {
    let node = elem("row", &[], vec![child("b", &[], vec![text("x")])]);
    let shape = struct_shape(vec![field("b*", Shape::Scalar(ScalarKind::Str))]);
    assert!(from_node(&node, &shape).is_err());
}

#[test]
fn non_whitespace_text_inside_a_run_fails() {
    let node = elem(
        "row",
        &[],
        vec![child("b", &[], vec![text("x")]), text("stray"), child("b", &[], vec![text("y")])],
    );
    let shape = struct_shape(vec![field(
        "b*",
        Shape::Sequence(Box::new(Shape::Scalar(ScalarKind::Str))),
    )]);
    assert!(from_node(&node, &shape).is_err());
}

#[test]
fn bool_scalars_use_the_yes_no_convention() {
    let node = elem("x", &[], vec![text("yes")]);
    assert_eq!(
        from_node(&node, &Shape::Scalar(ScalarKind::Bool)).unwrap(),
        Decoded::Bool(true)
    );
    let node = elem("x", &[], vec![text("true")]);
    assert!(from_node(&node, &Shape::Scalar(ScalarKind::Bool)).is_err());
}

#[test]
fn whole_element_sequences_take_every_element_child() {
    let node = elem(
        "list",
        &[],
        vec![
            child("i", &[], vec![text("1")]),
            text(" "),
            child("j", &[], vec![text("2")]),
        ],
    );
    let shape = Shape::Sequence(Box::new(Shape::Scalar(ScalarKind::U32)));
    assert_eq!(
        from_node(&node, &shape).unwrap(),
        Decoded::Sequence(vec![Decoded::U32(1), Decoded::U32(2)])
    );
}

#[test]
fn parse_builds_the_tree_and_decodes_end_to_end() {
    let tree = parse(b"<row a='1'><b>x</b><b>y</b></row>").unwrap();
    assert_eq!(tree.tag, "");
    assert_eq!(tree.children.len(), 1);
    let shape = struct_shape(vec![field(
        "row",
        struct_shape(vec![
            field("a", Shape::Scalar(ScalarKind::U32)),
            field("b*", Shape::Sequence(Box::new(Shape::Scalar(ScalarKind::Str)))),
        ]),
    )]);
    let got = from_document(&tree, &shape).unwrap();
    let want = Decoded::Struct(vec![Entry {
        key: "row".to_string(),
        value: Decoded::Struct(vec![
            Entry { key: "a".to_string(), value: Decoded::U32(1) },
            Entry {
                key: "b*".to_string(),
                value: Decoded::Sequence(vec![
                    Decoded::Str("x".to_string()),
                    Decoded::Str("y".to_string()),
                ]),
            },
        ]),
    }]);
    assert_eq!(got, want);
}

#[test]
fn parse_rejects_bad_input() {
    assert!(parse(b"<unclosed>").is_err());
    assert!(parse(&[0xff, 0xfe, 0x00]).is_err());
}

#[test]
fn numeric_flatten_fields_take_turns() {
    // two flatten fields, written as the decimal texts of the flatten
    // indices at which each becomes available
    let node = elem("row", &[("p", "1"), ("q", "2")], vec![]);
    let shape = struct_shape(vec![
        field("0", struct_shape(vec![field("p", Shape::Scalar(ScalarKind::Str))])),
        field("1", struct_shape(vec![field("q", Shape::Scalar(ScalarKind::Str))])),
    ]);
    let got = from_node(&node, &shape).unwrap();
    let want = Decoded::Struct(vec![
        Entry {
            key: "0".to_string(),
            value: Decoded::Struct(vec![Entry {
                key: "p".to_string(),
                value: Decoded::Str("1".to_string()),
            }]),
        },
        Entry {
            key: "1".to_string(),
            value: Decoded::Struct(vec![Entry {
                key: "q".to_string(),
                value: Decoded::Str("2".to_string()),
            }]),
        },
    ]);
    assert_eq!(got, want);
}

#[test]
fn try_map_threads_the_failure() {
    let none: Option<u32> = None;
    let r: Result<Option<u32>, String> = none.try_map(|x: u32| Ok(x + 1));
    assert_eq!(r, Ok(None));
    let some: Option<u32> = Some(4);
    let r: Result<Option<u32>, String> = some.try_map(|x: u32| Ok(x + 1));
    assert_eq!(r, Ok(Some(5)));
    let r: Result<Option<u32>, String> = Some(4u32).try_map(|_x: u32| Err("bad".to_string()));
    assert_eq!(r, Err("bad".to_string()));
}

#[test]
fn the_first_field_with_a_matching_tag_decides_the_mode() {
    // both "b" and "b*" match the tag `b`; the singular field comes first,
    // so each <b> is consumed singly
    let node = elem("row", &[], vec![child("b", &[], vec![text("x")])]);
    let shape = struct_shape(vec![
        field("b", Shape::Scalar(ScalarKind::Str)),
        field("b*", Shape::Sequence(Box::new(Shape::Scalar(ScalarKind::Str)))),
    ]);
    let got = from_node(&node, &shape).unwrap();
    let want = Decoded::Struct(vec![Entry {
        key: "b".to_string(),
        value: Decoded::Str("x".to_string()),
    }]);
    assert_eq!(got, want);
}

#[test]
fn a_flatten_union_is_tagged_by_the_next_child() {
    let node = elem("row", &[], vec![child("red", &[], vec![text("5")])]);
    let shape = struct_shape(vec![field(
        "",
        Shape::Enum {
            name: "color".to_string(),
            variants: vec![Variant {
                name: "red".to_string(),
                shape: Shape::Scalar(ScalarKind::U32),
            }],
        },
    )]);
    let got = from_node(&node, &shape).unwrap();
    let want = Decoded::Struct(vec![Entry {
        key: "".to_string(),
        value: Decoded::Enum {
            variant: "red".to_string(),
            payload: Box::new(Decoded::U32(5)),
        },
    }]);
    assert_eq!(got, want);
}

#[test]
fn an_unclaimed_attribute_stops_field_iteration() {
    // the attribute matches no field and no flatten field is available, so
    // iteration stops before the children are ever looked at
    let node = elem("row", &[("a", "1")], vec![child("b", &[], vec![text("x")])]);
    let shape = struct_shape(vec![field("b", Shape::Scalar(ScalarKind::Str))]);
    assert_eq!(from_node(&node, &shape).unwrap(), Decoded::Struct(vec![]));
}
