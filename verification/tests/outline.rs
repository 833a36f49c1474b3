use keystring_generator::{compile_input, count_leading_whitespaces, KeyElement, KeyError};

fn node(name: &str, children: Vec<KeyElement>) -> KeyElement {
    KeyElement { name: name.to_string(), children }
}

fn leaf(name: &str) -> KeyElement {
    node(name, vec![])
}

fn expected_structure() -> Vec<KeyElement> {
    vec![KeyElement {
        name: "hierarchical".to_string(),
        children: vec![KeyElement {
            name: "keys".to_string(),
            children: vec![KeyElement {
                name: "with".to_string(),
                children: vec![
                    KeyElement {
                        name: "five".to_string(),
                        children: vec![KeyElement {
                            name: "layers".to_string(),
                            children: vec![],
                        }],
                    },
                    KeyElement {
                        name: "six".to_string(),
                        children: vec![KeyElement {
                            name: "hierarchical".to_string(),
                            children: vec![KeyElement {
                                name: "layers".to_string(),
                                children: vec![],
                            }],
                        }],
                    },
                ],
            }],
        }],
    }]
}

const HIERARCHICAL: &str = "hierarchical
  keys
    with
      five
        layers
      six
        hierarchical
          layers
";

const ENUMERATED: &str = "hierarchical.keys.with.five.layers
hierarchical.keys.with.six.hierarchical.layers
";

const MIXED: &str = "hierarchical.keys
  with
    five.layers
    six
      hierarchical.layers
";

#[test]
fn hierarchical_input_compiles() {
    let input = HIERARCHICAL;
    assert_eq!(expected_structure(), compile_input(input).unwrap());
}

#[test]
fn enumerated_input_compiles() {
    let input = ENUMERATED;
    assert_eq!(expected_structure(), compile_input(input).unwrap());
}

#[test]
fn mixed_input_compiles() {
    let input = MIXED;
    assert_eq!(expected_structure(), compile_input(input).unwrap());
}

#[test]
fn flat_line_equals_nested_lines() {
    let flat = compile_input("a.b.c").unwrap();
    let nested = compile_input("a\n b\n  c").unwrap();
    assert_eq!(flat, nested);
    assert_eq!(flat, vec![node("a", vec![node("b", vec![leaf("c")])])]);
}

#[test]
fn nested_lines_may_start_indented() {
    let nested = compile_input("   a\n    b\n        c").unwrap();
    assert_eq!(nested, compile_input("a.b.c").unwrap());
}

#[test]
fn duplicate_lines_give_one_node() {
    let once = compile_input("a.b\nc").unwrap();
    let twice = compile_input("a.b\na.b\nc\nc").unwrap();
    assert_eq!(once, twice);
    assert_eq!(once, vec![node("a", vec![leaf("b")]), leaf("c")]);
}

#[test]
fn children_stay_in_first_seen_order() {
    let keys = compile_input("zebra\nalpha\nzebra.two\nmiddle\nzebra.one\nalpha.x").unwrap();
    assert_eq!(
        keys,
        vec![
            node("zebra", vec![leaf("two"), leaf("one")]),
            node("alpha", vec![leaf("x")]),
            leaf("middle"),
        ]
    );
}

#[test]
fn tab_is_four_spaces() {
    let tabbed = compile_input("a\n\tb\n\t\tc\n\td").unwrap();
    let spaced = compile_input("a\n    b\n        c\n    d").unwrap();
    assert_eq!(tabbed, spaced);
    assert_eq!(tabbed, vec![node("a", vec![node("b", vec![leaf("c")]), leaf("d")])]);
    let mixed = compile_input("a\n    b\n\tc").unwrap();
    assert_eq!(mixed, vec![node("a", vec![leaf("b"), leaf("c")])]);
}

#[test]
fn dedent_to_unknown_depth_is_refused() {
    let refused = compile_input("a\n    b\n c\nd");
    assert_eq!(
        refused,
        Err(KeyError::IllegalIndentation {
            line: " c".to_string()
        })
    );
}

#[test]
fn dedent_between_two_scopes_is_refused() {
    let refused = compile_input("a\n  b\n    c\n   d");
    assert_eq!(
        refused,
        Err(KeyError::IllegalIndentation {
            line: "   d".to_string()
        })
    );
    let refused = compile_input("a\n  b\n    c\n      d\n   e");
    assert_eq!(
        refused,
        Err(KeyError::IllegalIndentation {
            line: "   e".to_string()
        })
    );
}

#[test]
fn dedent_may_close_several_scopes() {
    let keys = compile_input("a\n  b\n    c\n      d\n  e\nf\n  g").unwrap();
    assert_eq!(
        keys,
        vec![
            node(
                "a",
                vec![node("b", vec![node("c", vec![leaf("d")])]), leaf("e")]
            ),
            node("f", vec![leaf("g")]),
        ]
    );
}

#[test]
fn dedent_returns_to_the_depth_of_the_first_line() {
    let keys = compile_input("  a\n    b\n  c").unwrap();
    assert_eq!(keys, vec![node("a", vec![leaf("b")]), leaf("c")]);
    let keys = compile_input("  a\n    b\nc").unwrap();
    assert_eq!(keys, vec![node("a", vec![leaf("b")]), leaf("c")]);
}

#[test]
fn a_closed_depth_is_unknown_afterwards() {
    let refused = compile_input("a\n  b\n    c\nd\n    e\n  f");
    assert_eq!(
        refused,
        Err(KeyError::IllegalIndentation {
            line: "  f".to_string()
        })
    );
}

#[test]
fn empty_input_gives_an_empty_tree() {
    assert_eq!(compile_input(""), Ok(vec![]));
}

#[test]
fn final_line_ending_is_optional() {
    assert_eq!(compile_input("a\nb\n"), compile_input("a\nb"));
    assert_eq!(compile_input("a\nb\n").unwrap(), vec![leaf("a"), leaf("b")]);
}

#[test]
fn carriage_return_ends_a_line_with_the_line_feed() {
    let keys = compile_input("a\r\n  b\r\nc\r\n").unwrap();
    assert_eq!(keys, vec![node("a", vec![leaf("b")]), leaf("c")]);
    let refused = compile_input("a\r\n  b\r\n c\r\n");
    assert_eq!(
        refused,
        Err(KeyError::IllegalIndentation {
            line: " c".to_string()
        })
    );
}

#[test]
fn white_space_after_the_key_is_dropped() {
    let keys = compile_input("a  \n  b\t\n  c \r").unwrap();
    assert_eq!(keys, vec![node("a", vec![leaf("b"), leaf("c")])]);
}

#[test]
fn white_space_inside_a_key_is_kept() {
    let keys = compile_input("a b\n  c").unwrap();
    assert_eq!(keys, vec![node("a b", vec![leaf("c")])]);
}

#[test]
fn empty_line_is_refused() {
    assert_eq!(
        compile_input("a\n\nb"),
        Err(KeyError::MalformedKey {
            line: "".to_string()
        })
    );
    assert_eq!(
        compile_input("\n"),
        Err(KeyError::MalformedKey {
            line: "".to_string()
        })
    );
}

#[test]
fn blank_line_is_refused_whatever_its_depth() {
    assert_eq!(
        compile_input("a\n    b\n  \nc"),
        Err(KeyError::MalformedKey {
            line: "  ".to_string()
        })
    );
}

#[test]
fn empty_name_is_refused() {
    for line in ["a..b", ".a", "a.", ".", "  a.b..c"] {
        assert_eq!(
            compile_input(line),
            Err(KeyError::MalformedKey {
                line: line.to_string()
            })
        );
    }
}

#[test]
fn first_refused_line_is_reported() {
    assert_eq!(
        compile_input("a\n  b\n c\n\nd"),
        Err(KeyError::IllegalIndentation {
            line: " c".to_string()
        })
    );
    assert_eq!(
        compile_input("a\n..\n  b\n c"),
        Err(KeyError::MalformedKey {
            line: "..".to_string()
        })
    );
}

#[test]
fn error_messages_quote_the_line() {
    let error = compile_input("a\n    b\n c").unwrap_err();
    assert_eq!(error.message(), "Illegal indentation in line \" c\"!");
    let error = compile_input("a\n  b..c").unwrap_err();
    assert_eq!(error.message(), "Malformed key in line \"  b..c\"!");
}

#[test]
fn names_beyond_ascii_are_kept() {
    let keys = compile_input("größe\n  höhe.ÿ\n  \u{1F511}").unwrap();
    assert_eq!(
        keys,
        vec![node(
            "größe",
            vec![node("höhe", vec![leaf("ÿ")]), leaf("\u{1F511}")]
        )]
    );
}

#[test]
fn leading_white_space_is_counted_in_columns() {
    assert_eq!(count_leading_whitespaces(""), 0);
    assert_eq!(count_leading_whitespaces("a"), 0);
    assert_eq!(count_leading_whitespaces("  a"), 2);
    assert_eq!(count_leading_whitespaces("\ta"), 4);
    assert_eq!(count_leading_whitespaces("\t \ta b\t "), 9);
    assert_eq!(count_leading_whitespaces("   "), 3);
    assert_eq!(count_leading_whitespaces("a  "), 0);
    assert_eq!(count_leading_whitespaces("\u{3000}\u{A0}a"), 2);
    assert_eq!(count_leading_whitespaces("\u{200B}a"), 0);
}

#[test]
fn white_space_is_what_the_standard_library_calls_so() {
    let mut code: u32 = 0;
    while code <= 0x10FFFF {
        if let Some(c) = char::from_u32(code) {
            let line = format!("{}x", c);
            let expected = if c == '\t' {
                4
            } else if c.is_whitespace() {
                1
            } else {
                0
            };
            assert_eq!(count_leading_whitespaces(&line), expected);
        }
        code += 1;
    }
}

#[test]
fn wide_white_space_indents_by_one_column() {
    let keys = compile_input("a\n\u{2003}b\n\u{3000}c").unwrap();
    assert_eq!(keys, vec![node("a", vec![leaf("b"), leaf("c")])]);
}
