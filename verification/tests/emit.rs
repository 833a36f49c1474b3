use keystring_generator::{
    compile_input, generate, generate_with_config, render, KeyElement, KeyError,
};

fn node(name: &str, children: Vec<KeyElement>) -> KeyElement {
    KeyElement { name: name.to_string(), children }
}

fn leaf(name: &str) -> KeyElement {
    node(name, vec![])
}

const SILENCED: &str = "#![allow(dead_code)]\n#![allow(non_upper_case_globals)]\n";

#[test]
fn leaf_becomes_a_constant() {
    assert_eq!(
        leaf("key").generate_code(".", ""),
        "pub const key: &str = \"key\";"
    );
    assert_eq!(
        leaf("key").generate_code(".", "a.b"),
        "pub const key: &str = \"a.b.key\";"
    );
}

#[test]
fn node_with_children_becomes_a_namespace() {
    let tree = node("a", vec![leaf("b"), node("c", vec![leaf("d")])]);
    assert_eq!(
        tree.generate_code(".", ""),
        "pub mod a {pub const _BASE : &str = \"a\";pub const b: &str = \"a.b\";\
         pub mod c {pub const _BASE : &str = \"a.c\";pub const d: &str = \"a.c.d\"; } }"
    );
}

#[test]
fn separator_joins_the_names_of_a_value() {
    let tree = node("a", vec![node("b", vec![leaf("c")])]);
    assert_eq!(
        tree.generate_code("::", "root"),
        "pub mod a {pub const _BASE : &str = \"root::a\";\
         pub mod b {pub const _BASE : &str = \"root::a::b\";\
         pub const c: &str = \"root::a::b::c\"; } }"
    );
    assert_eq!(
        tree.generate_code("", ""),
        "pub mod a {pub const _BASE : &str = \"a\";\
         pub mod b {pub const _BASE : &str = \"ab\";pub const c: &str = \"abc\"; } }"
    );
}

#[test]
fn five_layers_are_valued_with_their_path() {
    let input = "hierarchical\n  keys\n    with\n      five\n        layers\n      six\n        hierarchical\n          layers\n";
    let text = generate(input).unwrap();
    assert!(text.contains(
        "pub mod five {pub const _BASE : &str = \"hierarchical.keys.with.five\";\
         pub const layers: &str = \"hierarchical.keys.with.five.layers\"; }"
    ));
    assert_eq!(
        text,
        format!(
            "{}{}",
            SILENCED,
            "pub mod hierarchical {pub const _BASE : &str = \"hierarchical\";\
             pub mod keys {pub const _BASE : &str = \"hierarchical.keys\";\
             pub mod with {pub const _BASE : &str = \"hierarchical.keys.with\";\
             pub mod five {pub const _BASE : &str = \"hierarchical.keys.with.five\";\
             pub const layers: &str = \"hierarchical.keys.with.five.layers\"; }\
             pub mod six {pub const _BASE : &str = \"hierarchical.keys.with.six\";\
             pub mod hierarchical {pub const _BASE : &str = \"hierarchical.keys.with.six.hierarchical\";\
             pub const layers: &str = \"hierarchical.keys.with.six.hierarchical.layers\"; } } } } }"
        )
    );
}

#[test]
fn flat_and_nested_outlines_generate_the_same_text() {
    let nested = generate("a\n  b\n    c\n  d").unwrap();
    let flat = generate("a.b.c\na.d").unwrap();
    assert_eq!(nested, flat);
}

#[test]
fn declarations_follow_the_order_of_the_outline() {
    let text = generate_with_config("zebra\nalpha\nzebra.b\nzebra.a", true, ".").unwrap();
    assert_eq!(
        text,
        "pub mod zebra {pub const _BASE : &str = \"zebra\";\
         pub const b: &str = \"zebra.b\";pub const a: &str = \"zebra.a\"; }\n\
         pub const alpha: &str = \"alpha\";"
    );
}

#[test]
fn top_level_declarations_stand_on_lines_of_their_own() {
    let text = generate("a\nb\nc").unwrap();
    assert_eq!(
        text,
        format!(
            "{}{}",
            SILENCED,
            "pub const a: &str = \"a\";\npub const b: &str = \"b\";\npub const c: &str = \"c\";"
        )
    );
}

#[test]
fn warnings_decide_the_header_only() {
    let loud = generate_with_config("a.b\nc", true, ".").unwrap();
    let quiet = generate_with_config("a.b\nc", false, ".").unwrap();
    assert_eq!(
        loud,
        "pub mod a {pub const _BASE : &str = \"a\";pub const b: &str = \"a.b\"; }\n\
         pub const c: &str = \"c\";"
    );
    assert_eq!(quiet, format!("{}{}", SILENCED, loud));
}

#[test]
fn generate_uses_a_dot_and_silences_the_warnings() {
    let input = "a\n  b\nc.d";
    assert_eq!(generate(input), generate_with_config(input, false, "."));
}

#[test]
fn separator_of_the_values_is_not_that_of_the_outline() {
    let text = generate_with_config("a.b\n  c", true, "/").unwrap();
    assert_eq!(
        text,
        "pub mod a {pub const _BASE : &str = \"a\";\
         pub mod b {pub const _BASE : &str = \"a/b\";pub const c: &str = \"a/b/c\"; } }"
    );
}

#[test]
fn empty_outline_generates_the_header_alone() {
    assert_eq!(generate("").unwrap(), SILENCED);
    assert_eq!(generate_with_config("", true, ".").unwrap(), "");
}

#[test]
fn refused_outline_generates_nothing() {
    assert_eq!(
        generate("a\n    b\n c"),
        Err(KeyError::IllegalIndentation {
            line: " c".to_string()
        })
    );
    assert_eq!(
        generate_with_config("a\n\nb", true, "/"),
        Err(KeyError::MalformedKey {
            line: "".to_string()
        })
    );
}

#[test]
fn render_writes_the_tree_that_was_read() {
    let keys = compile_input("a\n  b\nc").unwrap();
    assert_eq!(
        render(&keys, false, "."),
        generate("a\n  b\nc").unwrap()
    );
    assert_eq!(render(&vec![], true, "."), "");
    assert_eq!(
        render(&vec![leaf("x"), node("y", vec![leaf("z")])], true, "-"),
        "pub const x: &str = \"x\";\n\
         pub mod y {pub const _BASE : &str = \"y\";pub const z: &str = \"y-z\"; }"
    );
}
