//! Writing a key tree out as declarations.

use crate::outline::{compile, compile_input, KeyError};
use crate::text::join;
use crate::tree::{forest, is_name, lemma_forest, well_formed, KeyElement, KeyTree};
use vstd::prelude::*;
use vstd::string::StringExecFns;

verus! {

/// What is declared for a node of the key tree.
pub enum Declaration {
    /// For a leaf: a constant called like the leaf, whose value is the leaf's
    /// path.
    Constant { name: Seq<char>, value: Seq<char> },
    /// For a node with children: a namespace called like the node. It holds a
    /// constant for the node's own path, `base`, and then what is declared for
    /// the children.
    Namespace { name: Seq<char>, base: Seq<char>, items: Seq<Declaration> },
}

impl Declaration {
    /// The name that is declared.
    pub open spec fn name(self) -> Seq<char> {
        match self {
            Declaration::Constant { name, .. } => name,
            Declaration::Namespace { name, .. } => name,
        }
    }

    /// The path that the declaration gives: the value of a constant, or of the
    /// constant that a namespace holds for its own path.
    pub open spec fn path(self) -> Seq<char> {
        match self {
            Declaration::Constant { value, .. } => value,
            Declaration::Namespace { base, .. } => base,
        }
    }

    /// What is declared inside; nothing for a constant.
    pub open spec fn items(self) -> Seq<Declaration> {
        match self {
            Declaration::Constant { .. } => Seq::empty(),
            Declaration::Namespace { items, .. } => items,
        }
    }
}

/// The path of a node called `name` whose parent has the path `parent`: the
/// two joined by the separator, or the name alone below an empty path.
pub open spec fn path_below(parent: Seq<char>, separator: Seq<char>, name: Seq<char>) -> Seq<
    char,
> {
    if parent.len() == 0 {
        name
    } else {
        parent + separator + name
    }
}

/// What is declared for `node`, whose parent has the path `parent`.
pub open spec fn declare(node: KeyTree, separator: Seq<char>, parent: Seq<char>) -> Declaration
    decreases node,
{
    let path = path_below(parent, separator, node.name);
    if node.children.len() == 0 {
        Declaration::Constant { name: node.name, value: path }
    } else {
        Declaration::Namespace {
            name: node.name,
            base: path,
            items: declare_all(node.children, separator, path),
        }
    }
}

/// What is declared for each of `nodes`, in their order; their parent has the
/// path `parent`.
pub open spec fn declare_all(nodes: Seq<KeyTree>, separator: Seq<char>, parent: Seq<char>) -> Seq<
    Declaration,
>
    decreases nodes,
{
    if nodes.len() == 0 {
        Seq::empty()
    } else {
        declare_all(nodes.drop_last(), separator, parent).push(
            declare(nodes.last(), separator, parent),
        )
    }
}

/// The text of a declaration.
pub open spec fn text_of(declaration: Declaration) -> Seq<char>
    decreases declaration,
{
    match declaration {
        Declaration::Constant { name, value } => "pub const "@ + name + ": &str = \""@ + value
            + "\";"@,
        Declaration::Namespace { name, base, items } => "pub mod "@ + name
            + " {pub const _BASE : &str = \""@ + base + "\";"@ + texts_of(items) + " }"@,
    }
}

/// The texts of `items`, one behind the other.
pub open spec fn texts_of(items: Seq<Declaration>) -> Seq<char>
    decreases items,
{
    if items.len() == 0 {
        Seq::empty()
    } else {
        texts_of(items.drop_last()) + text_of(items.last())
    }
}

/// The texts of `items`, each on a line of its own.
pub open spec fn lines_of(items: Seq<Declaration>) -> Seq<char>
    decreases items.len(),
{
    if items.len() == 0 {
        Seq::empty()
    } else if items.len() == 1 {
        text_of(items[0])
    } else {
        lines_of(items.drop_last()) + "\n"@ + text_of(items.last())
    }
}

/// What stands before the declarations: nothing where warnings are wanted,
/// else the attributes that silence the warnings on unused constants and on
/// their names.
pub open spec fn header(enable_warnings: bool) -> Seq<char> {
    if enable_warnings {
        Seq::empty()
    } else {
        "#![allow(dead_code)]\n#![allow(non_upper_case_globals)]\n"@
    }
}

/// The text generated for the key tree `roots`.
pub open spec fn module_text(roots: Seq<KeyTree>, separator: Seq<char>, enable_warnings: bool) -> Seq<
    char,
> {
    header(enable_warnings) + lines_of(declare_all(roots, separator, Seq::empty()))
}

/// What is declared for a sequence of nodes is what is declared for each of
/// them, in the order of the nodes.
pub proof fn lemma_declare_all(nodes: Seq<KeyTree>, separator: Seq<char>, parent: Seq<char>)
    ensures
        declare_all(nodes, separator, parent).len() == nodes.len(),
        forall|i: int|
            0 <= i < nodes.len() ==> #[trigger] declare_all(nodes, separator, parent)[i]
                == declare(nodes[i], separator, parent),
    decreases nodes.len(),
{
    if nodes.len() > 0 {
        lemma_declare_all(nodes.drop_last(), separator, parent);
        assert(declare_all(nodes, separator, parent) == declare_all(
            nodes.drop_last(),
            separator,
            parent,
        ).push(declare(nodes.last(), separator, parent)));
    }
}

/// Whether `position` leads to a node of `nodes`: its first number is the
/// place of one of `nodes`, and what follows leads on among the children of
/// that node.
pub open spec fn is_position(nodes: Seq<KeyTree>, position: Seq<int>) -> bool
    decreases position.len(),
{
    &&& position.len() > 0
    &&& 0 <= position[0] < nodes.len()
    &&& position.len() > 1 ==> is_position(nodes[position[0]].children, position.skip(1))
}

/// The node that `position` leads to.
pub open spec fn node_at(nodes: Seq<KeyTree>, position: Seq<int>) -> KeyTree
    decreases position.len(),
{
    if position.len() <= 1 {
        nodes[position[0]]
    } else {
        node_at(nodes[position[0]].children, position.skip(1))
    }
}

/// The names of the nodes on the way to the node that `position` leads to,
/// that node's name last.
pub open spec fn names_to(nodes: Seq<KeyTree>, position: Seq<int>) -> Seq<Seq<char>>
    decreases position.len(),
{
    if position.len() == 0 {
        Seq::empty()
    } else {
        seq![nodes[position[0]].name] + names_to(nodes[position[0]].children, position.skip(1))
    }
}

/// The declaration that `position` leads to.
pub open spec fn declaration_at(items: Seq<Declaration>, position: Seq<int>) -> Declaration
    decreases position.len(),
{
    if position.len() <= 1 {
        items[position[0]]
    } else {
        declaration_at(items[position[0]].items(), position.skip(1))
    }
}

/// Names that are not empty give a path that is not empty.
proof fn lemma_join_not_empty(names: Seq<Seq<char>>, separator: Seq<char>)
    requires
        names.len() > 0,
        forall|i: int| 0 <= i < names.len() ==> names[i].len() > 0,
    ensures
        join(names, separator).len() > 0,
{
}

/// The declaration at a position of a key tree gives the names on the way
/// to the node at that position, joined by the separator and behind the names
/// `above`, where the tree lies below nodes of those names.
proof fn lemma_path_below(
    nodes: Seq<KeyTree>,
    separator: Seq<char>,
    above: Seq<Seq<char>>,
    position: Seq<int>,
)
    requires
        well_formed(nodes),
        is_position(nodes, position),
        forall|i: int| 0 <= i < above.len() ==> above[i].len() > 0,
    ensures
        ({
            let found = declaration_at(
                declare_all(nodes, separator, join(above, separator)),
                position,
            );
            let node = node_at(nodes, position);
            &&& found.name() == node.name
            &&& found.path() == join(above + names_to(nodes, position), separator)
            &&& found is Constant <==> node.children.len() == 0
        }),
    decreases position.len(),
{
    let parent = join(above, separator);
    let first = nodes[position[0]];
    let along = above.push(first.name);
    let path = path_below(parent, separator, first.name);
    lemma_declare_all(nodes, separator, parent);
    assert(is_name(first.name));
    if above.len() > 0 {
        lemma_join_not_empty(above, separator);
    }
    assert(along.drop_last() =~= above);
    assert(path == join(along, separator));
    let more = position.skip(1);
    if position.len() == 1 {
        assert(names_to(first.children, more) =~= Seq::empty());
        assert(above + names_to(nodes, position) =~= along);
    } else {
        lemma_path_below(first.children, separator, along, more);
        assert(above + names_to(nodes, position) =~= along + names_to(first.children, more));
    }
}

/// Every declaration gives the full path of its node: the declaration at a
/// position of a key tree is called like the node at that position, it is a
/// constant if the node is a leaf and a namespace if not, and the path that it
/// gives is made of the names on the way to the node, joined by the separator.
pub proof fn lemma_declared_paths(roots: Seq<KeyTree>, separator: Seq<char>, position: Seq<int>)
    requires
        well_formed(roots),
        is_position(roots, position),
    ensures
        ({
            let found = declaration_at(declare_all(roots, separator, Seq::empty()), position);
            let node = node_at(roots, position);
            &&& found.name() == node.name
            &&& found.path() == join(names_to(roots, position), separator)
            &&& found is Constant <==> node.children.len() == 0
        }),
{
    lemma_path_below(roots, separator, Seq::empty(), position);
    assert(Seq::<Seq<char>>::empty() + names_to(roots, position) =~= names_to(roots, position));
}

/// The texts of declarations stand in the order of the declarations: the text
/// of two sequences of them, one behind the other, is the text of the first
/// and then the text of the second.
pub proof fn lemma_texts_in_order(first: Seq<Declaration>, second: Seq<Declaration>)
    ensures
        texts_of(first + second) == texts_of(first) + texts_of(second),
    decreases second.len(),
{
    if second.len() == 0 {
        assert(first + second =~= first);
        assert(texts_of(first) + texts_of(second) =~= texts_of(first));
    } else {
        lemma_texts_in_order(first, second.drop_last());
        assert((first + second).drop_last() =~= first + second.drop_last());
        assert((first + second).last() == second.last());
        assert(texts_of(first + second) =~= texts_of(first) + texts_of(second));
    }
}

impl KeyElement {
    /// The path of this node below a parent with the path `parent`.
    fn path_below(&self, separator: &str, parent: &str) -> (path: String)
        ensures
            path@ == path_below(parent@, separator@, self.name@),
    {
        if parent.is_empty() {
            self.name.clone()
        } else {
            let mut path = parent.to_owned();
            path.append(separator);
            path.append(self.name.as_str());
            path
        }
    }

    /// The text of what is declared for this node, whose parent has the path
    /// `parent`: a constant for a leaf, a namespace for a node with children.
    /// The value of the constant, and of the constant that the namespace holds
    /// for its own path, is the parent's path, the separator and the name of
    /// this node, or the name alone where `parent` is empty.
    pub fn generate_code(&self, separator: &str, parent: &str) -> (code: String)
        ensures
            code@ == text_of(declare(self@, separator@, parent@)),
        decreases self,
    {
        let path = self.path_below(separator, parent);
        let ghost kids = self@.children;
        let ghost items = declare_all(kids, separator@, path@);
        proof {
            lemma_forest(self.children@);
            lemma_declare_all(kids, separator@, path@);
        }
        if self.children.len() == 0 {
            let mut code = "pub const ".to_owned();
            code.append(self.name.as_str());
            code.append(": &str = \"");
            code.append(path.as_str());
            code.append("\";");
            code
        } else {
            let mut code = "pub mod ".to_owned();
            code.append(self.name.as_str());
            code.append(" {pub const _BASE : &str = \"");
            code.append(path.as_str());
            code.append("\";");
            let ghost opening = code@;
            let mut i: usize = 0;
            assert(items.take(0) =~= Seq::empty());
            assert(opening + texts_of(items.take(0)) =~= opening);
            while i < self.children.len()
                invariant
                    i <= self.children@.len(),
                    kids == self@.children,
                    kids.len() == self.children@.len(),
                    forall|j: int| 0 <= j < kids.len() ==> kids[j] == self.children@[j]@,
                    items == declare_all(kids, separator@, path@),
                    items.len() == kids.len(),
                    forall|j: int|
                        0 <= j < kids.len() ==> #[trigger] items[j] == declare(
                            kids[j],
                            separator@,
                            path@,
                        ),
                    code@ == opening + texts_of(items.take(i as int)),
                decreases self.children@.len() - i,
            {
                let part = self.children[i].generate_code(separator, path.as_str());
                code.append(part.as_str());
                proof {
                    let done = items.take(i + 1);
                    assert(done.drop_last() =~= items.take(i as int));
                    assert(done.last() == items[i as int]);
                    assert(texts_of(done) == texts_of(done.drop_last()) + text_of(done.last()));
                    assert(code@ =~= opening + texts_of(done));
                }
                i += 1;
            }
            assert(items.take(i as int) =~= items);
            code.append(" }");
            code
        }
    }
}

/// The text generated for the key tree `keys`: the header, then what is
/// declared for each node at the top of the tree, each on a line of its own.
pub fn render(keys: &Vec<KeyElement>, enable_warnings: bool, separator: &str) -> (text: String)
    ensures
        text@ == module_text(forest(keys@), separator@, enable_warnings),
{
    let ghost roots = forest(keys@);
    let ghost items = declare_all(roots, separator@, Seq::empty());
    proof {
        lemma_forest(keys@);
        lemma_declare_all(roots, separator@, Seq::empty());
    }
    let mut text = if enable_warnings {
        String::new()
    } else {
        "#![allow(dead_code)]\n#![allow(non_upper_case_globals)]\n".to_owned()
    };
    let mut i: usize = 0;
    assert(items.take(0) =~= Seq::empty());
    assert(header(enable_warnings) + lines_of(items.take(0)) =~= header(enable_warnings));
    while i < keys.len()
        invariant
            i <= keys@.len(),
            roots.len() == keys@.len(),
            forall|j: int| 0 <= j < roots.len() ==> roots[j] == keys@[j]@,
            items.len() == roots.len(),
            forall|j: int|
                0 <= j < roots.len() ==> #[trigger] items[j] == declare(
                    roots[j],
                    separator@,
                    Seq::empty(),
                ),
            text@ == header(enable_warnings) + lines_of(items.take(i as int)),
        decreases keys@.len() - i,
    {
        if i > 0 {
            text.append("\n");
        }
        let part = keys[i].generate_code(separator, "");
        text.append(part.as_str());
        proof {
            let done = items.take(i + 1);
            assert(done.drop_last() =~= items.take(i as int));
            assert(done.last() == items[i as int]);
            assert(""@ =~= Seq::<char>::empty()) by {
                reveal_strlit("");
            }
            assert(text@ =~= header(enable_warnings) + lines_of(done));
        }
        i += 1;
    }
    assert(items.take(i as int) =~= items);
    text
}

/// The text generated for the outline `input`, or why the outline is refused.
pub fn generate_with_config(input: &str, enable_warnings: bool, separator: &str) -> (r: Result<
    String,
    KeyError,
>)
    ensures
        match compile(input@) {
            Ok(roots) => r matches Ok(text) && text@ == module_text(
                roots,
                separator@,
                enable_warnings,
            ),
            Err(rejection) => r matches Err(error) && error@ == rejection,
        },
{
    match compile_input(input) {
        Ok(keys) => Ok(render(&keys, enable_warnings, separator)),
        Err(error) => Err(error),
    }
}

/// The text generated for the outline `input` with a dot as the separator and
/// with the warnings silenced, or why the outline is refused.
pub fn generate(input: &str) -> (r: Result<String, KeyError>)
    ensures
        match compile(input@) {
            Ok(roots) => r matches Ok(text) && text@ == module_text(roots, "."@, false),
            Err(rejection) => r matches Err(error) && error@ == rejection,
        },
{
    generate_with_config(input, false, ".")
}

} // verus!
