use keystring_generator::KeyElement;

fn node(name: &str, children: Vec<KeyElement>) -> KeyElement {
    KeyElement { name: name.to_string(), children }
}

fn leaf(name: &str) -> KeyElement {
    node(name, vec![])
}

fn root_with(paths: &[&str]) -> KeyElement {
    let mut root = leaf("");
    for path in paths {
        root.create_key(path);
    }
    root
}

#[test]
fn create_key_makes_one_node_for_each_name() {
    let root = root_with(&["a.b.c"]);
    assert_eq!(
        root,
        node("", vec![node("a", vec![node("b", vec![leaf("c")])])])
    );
}

#[test]
fn create_key_twice_changes_nothing() {
    assert_eq!(root_with(&["a.b.c", "a.b.c"]), root_with(&["a.b.c"]));
    assert_eq!(root_with(&["a", "b", "a"]), root_with(&["a", "b"]));
}

#[test]
fn create_key_shares_what_two_paths_start_with() {
    let root = root_with(&["a.b.c", "a.b.d", "a.e"]);
    assert_eq!(
        root,
        node(
            "",
            vec![node("a", vec![node("b", vec![leaf("c"), leaf("d")]), leaf("e")])]
        )
    );
}

#[test]
fn create_key_of_a_shorter_path_keeps_the_longer() {
    assert_eq!(root_with(&["a.b.c", "a.b", "a"]), root_with(&["a.b.c"]));
    assert_eq!(root_with(&["a", "a.b", "a.b.c"]), root_with(&["a.b.c"]));
}

#[test]
fn create_key_puts_new_nodes_last() {
    let root = root_with(&["z", "a", "m.z", "m.a", "z.q"]);
    assert_eq!(
        root,
        node(
            "",
            vec![
                node("z", vec![leaf("q")]),
                leaf("a"),
                node("m", vec![leaf("z"), leaf("a")]),
            ]
        )
    );
}

#[test]
fn create_key_keeps_the_name_of_the_node() {
    let mut top = leaf("top");
    top.create_key("x.y");
    assert_eq!(top, node("top", vec![node("x", vec![leaf("y")])]));
}

#[test]
fn create_key_finds_the_first_of_two_like_named_children() {
    let mut root = node("", vec![leaf("a"), node("a", vec![leaf("x")])]);
    root.create_key("a.b");
    assert_eq!(
        root,
        node("", vec![node("a", vec![leaf("b")]), node("a", vec![leaf("x")])])
    );
}

#[test]
fn create_key_passes_empty_names_through() {
    assert_eq!(root_with(&[""]), node("", vec![leaf("")]));
    assert_eq!(root_with(&["a."]), node("", vec![leaf("a")]));
    assert_eq!(
        root_with(&["a..b"]),
        node("", vec![node("a", vec![node("", vec![leaf("b")])])])
    );
    assert_eq!(root_with(&[".a"]), node("", vec![node("", vec![leaf("a")])]));
}
