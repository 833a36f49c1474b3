//! The key tree: names below names, each level in the order in which its names
//! were first seen.

use crate::text::{
    chars_of, find_from, first_index_of, lemma_first_index_of, lemma_first_index_of_is, string_of,
};
use vstd::prelude::*;

verus! {

/// A node of the key tree as a mathematical value: a name and the nodes below
/// it, in their order.
pub struct KeyTree {
    pub name: Seq<char>,
    pub children: Seq<KeyTree>,
}

/// A node of the key tree. One without children is a leaf and stands for a
/// key; one with children also stands for the group of keys below it.
#[derive(Ord, PartialOrd, Eq, PartialEq, Debug)]
pub struct KeyElement {
    pub name: String,
    pub children: Vec<KeyElement>,
}

impl View for KeyElement {
    type V = KeyTree;

    open spec fn view(&self) -> KeyTree
        decreases self,
    {
        KeyTree { name: self.name@, children: forest(self.children@) }
    }
}

/// The trees that a sequence of nodes stands for.
pub open spec fn forest(nodes: Seq<KeyElement>) -> Seq<KeyTree>
    decreases nodes,
{
    if nodes.len() == 0 {
        Seq::empty()
    } else {
        forest(nodes.drop_last()).push(nodes.last()@)
    }
}

/// The trees of a sequence of nodes are the trees of its nodes, one for one.
pub proof fn lemma_forest(nodes: Seq<KeyElement>)
    ensures
        forest(nodes).len() == nodes.len(),
        forall|i: int| 0 <= i < nodes.len() ==> forest(nodes)[i] == nodes[i]@,
    decreases nodes.len(),
{
    if nodes.len() > 0 {
        lemma_forest(nodes.drop_last());
        assert(forest(nodes) == forest(nodes.drop_last()).push(nodes.last()@));
        assert(forest(nodes).len() == nodes.len());
    } else {
        assert(forest(nodes) == Seq::<KeyTree>::empty());
    }
}

/// The first name of a path: what stands before its first dot.
pub open spec fn head(path: Seq<char>) -> Seq<char> {
    path.take(first_index_of(path, '.') as int)
}

/// What follows the first dot of a path; empty if the path has no dot.
pub open spec fn rest(path: Seq<char>) -> Seq<char> {
    let n = first_index_of(path, '.');
    if n < path.len() {
        path.skip(n as int + 1)
    } else {
        Seq::empty()
    }
}

/// Whether `path` is a key: names separated by single dots, none of them
/// empty.
pub open spec fn is_key(path: Seq<char>) -> bool
    decreases path.len(),
{
    let n = first_index_of(path, '.');
    &&& n > 0
    &&& n < path.len() ==> is_key(path.skip(n as int + 1))
}

/// Whether `name` can stand in a key: it is not empty and holds no dot.
pub open spec fn is_name(name: Seq<char>) -> bool {
    &&& name.len() > 0
    &&& forall|i: int| 0 <= i < name.len() ==> name[i] != '.'
}

/// The place of the first node called `name` among `children`, or their number
/// if none is called so.
pub open spec fn child_index(children: Seq<KeyTree>, name: Seq<char>) -> nat
    decreases children.len(),
{
    if children.len() == 0 || children[0].name == name {
        0
    } else {
        1 + child_index(children.skip(1), name)
    }
}

/// The children of a node after `path` has been inserted below it. The node
/// called by the path's first name is found, or made and put behind the
/// others; what is left of the path, if anything, is inserted below that node.
pub open spec fn insert(children: Seq<KeyTree>, path: Seq<char>) -> Seq<KeyTree>
    decreases path.len(),
{
    let name = head(path);
    let more = rest(path);
    let k = child_index(children, name) as int;
    if k >= children.len() {
        children.push(
            KeyTree {
                name,
                children: if more.len() > 0 {
                    insert(Seq::empty(), more)
                } else {
                    Seq::empty()
                },
            },
        )
    } else if more.len() > 0 {
        children.update(
            k,
            KeyTree { name: children[k].name, children: insert(children[k].children, more) },
        )
    } else {
        children
    }
}

/// Whether the nodes of `nodes` are called differently.
pub open spec fn distinct_names(nodes: Seq<KeyTree>) -> bool {
    forall|i: int, j: int|
        #![trigger nodes[i], nodes[j]]
        0 <= i < j < nodes.len() ==> nodes[i].name != nodes[j].name
}

/// Whether `nodes` and all that lies below them is a key tree: every name is
/// one that can stand in a key, and no two children of one node share a name.
pub open spec fn well_formed(nodes: Seq<KeyTree>) -> bool
    decreases nodes,
{
    &&& distinct_names(nodes)
    &&& forall|i: int|
        0 <= i < nodes.len() ==> is_name(#[trigger] nodes[i].name) && well_formed(
            nodes[i].children,
        )
}

/// Whether `after` holds all of `before` in place: each node of `before` is
/// still where it was under its name, with the same true of what lies below it.
/// Anything new stands behind what was there.
pub open spec fn extends(before: Seq<KeyTree>, after: Seq<KeyTree>) -> bool
    decreases before,
{
    &&& before.len() <= after.len()
    &&& forall|i: int|
        0 <= i < before.len() ==> (#[trigger] after[i]).name == before[i].name && extends(
            before[i].children,
            after[i].children,
        )
}

/// What `child_index` finds: no node before it is called `name`, and the node
/// there is, unless none is.
pub proof fn lemma_child_index(children: Seq<KeyTree>, name: Seq<char>)
    ensures
        child_index(children, name) <= children.len(),
        child_index(children, name) < children.len() ==> children[child_index(
            children,
            name,
        ) as int].name == name,
        forall|i: int| 0 <= i < child_index(children, name) ==> children[i].name != name,
    decreases children.len(),
{
    if children.len() == 0 || children[0].name == name {
    } else {
        let t = children.skip(1);
        lemma_child_index(t, name);
        assert forall|i: int| 0 <= i < child_index(children, name) implies children[i].name
            != name by {
            if i > 0 {
                assert(children[i] == t[i - 1]);
            }
        }
    }
}

/// The only place with no node called `name` before it that holds such a node,
/// or is the end, is the one that `child_index` finds.
pub proof fn lemma_child_index_is(children: Seq<KeyTree>, name: Seq<char>, k: int)
    requires
        0 <= k <= children.len(),
        k < children.len() ==> children[k].name == name,
        forall|i: int| 0 <= i < k ==> children[i].name != name,
    ensures
        child_index(children, name) == k,
    decreases children.len(),
{
    if children.len() == 0 || children[0].name == name {
    } else {
        let t = children.skip(1);
        assert forall|i: int| 0 <= i < k - 1 implies t[i].name != name by {
            assert(t[i] == children[i + 1]);
        }
        lemma_child_index_is(t, name, k - 1);
    }
}

/// The first name of a key is a name, and what follows its first dot, if it has
/// one, is a key again.
pub proof fn lemma_key_parts(path: Seq<char>)
    requires
        is_key(path),
    ensures
        is_name(head(path)),
        rest(path).len() > 0 <==> first_index_of(path, '.') < path.len(),
        rest(path).len() > 0 ==> is_key(rest(path)),
{
    lemma_first_index_of(path, '.');
    let n = first_index_of(path, '.');
    if n < path.len() {
        let more = rest(path);
        assert(is_key(more));
        lemma_first_index_of(more, '.');
        assert(first_index_of(more, '.') > 0);
    }
}

/// The parts of a path made of a key, a dot and a second path: its first name
/// is that of the key, and what follows its first dot is what follows the
/// key's first dot with the dot and the second path behind it, or the second
/// path alone if the key is one name.
pub proof fn lemma_joined_parts(p: Seq<char>, q: Seq<char>)
    requires
        is_key(p),
    ensures
        head(p + seq!['.'] + q) == head(p),
        rest(p).len() > 0 ==> rest(p + seq!['.'] + q) == rest(p) + seq!['.'] + q,
        rest(p).len() == 0 ==> rest(p + seq!['.'] + q) == q,
{
    let pq = p + seq!['.'] + q;
    let n = first_index_of(p, '.');
    lemma_first_index_of(p, '.');
    lemma_key_parts(p);
    assert forall|i: int| 0 <= i < n implies pq[i] != '.' by {
        assert(pq[i] == p[i]);
    }
    if n < p.len() {
        assert(pq[n as int] == p[n as int]);
    } else {
        assert(pq[n as int] == '.');
    }
    lemma_first_index_of_is(pq, '.', n as int);
    assert(head(pq) =~= head(p));
    if n < p.len() {
        assert(rest(pq) =~= rest(p) + seq!['.'] + q);
    } else {
        assert(rest(pq) =~= q);
    }
}

/// A key, a dot and a second key make a key.
pub proof fn lemma_joined_key(p: Seq<char>, q: Seq<char>)
    requires
        is_key(p),
        is_key(q),
    ensures
        is_key(p + seq!['.'] + q),
    decreases p.len(),
{
    let pq = p + seq!['.'] + q;
    lemma_joined_parts(p, q);
    lemma_key_parts(p);
    lemma_first_index_of(p, '.');
    let n = first_index_of(p, '.');
    assert(head(pq).len() == n);
    lemma_first_index_of(pq, '.');
    assert(first_index_of(pq, '.') == n);
    if rest(p).len() > 0 {
        lemma_joined_key(rest(p), q);
    }
    assert(rest(pq) == pq.skip(n as int + 1));
}

/// A key tree with one more node behind the others is a key tree if the node
/// is one and is called like none of the others.
proof fn lemma_well_formed_push(nodes: Seq<KeyTree>, node: KeyTree)
    requires
        well_formed(nodes),
        is_name(node.name),
        well_formed(node.children),
        forall|i: int| 0 <= i < nodes.len() ==> nodes[i].name != node.name,
    ensures
        well_formed(nodes.push(node)),
{
    let after = nodes.push(node);
    assert forall|i: int| 0 <= i < after.len() implies is_name(#[trigger] after[i].name)
        && well_formed(after[i].children) by {
        if i < nodes.len() {
            assert(after[i] == nodes[i]);
        }
    }
    assert forall|i: int, j: int|
        #![trigger after[i], after[j]]
        0 <= i < j < after.len() implies after[i].name != after[j].name by {
        assert(after[i] == nodes[i]);
        if j < nodes.len() {
            assert(after[j] == nodes[j]);
        }
    }
}

/// A key tree stays one when a node gives way to a key tree of the same name.
proof fn lemma_well_formed_update(nodes: Seq<KeyTree>, k: int, node: KeyTree)
    requires
        well_formed(nodes),
        0 <= k < nodes.len(),
        node.name == nodes[k].name,
        well_formed(node.children),
    ensures
        well_formed(nodes.update(k, node)),
{
    let after = nodes.update(k, node);
    assert forall|i: int| 0 <= i < after.len() implies is_name(#[trigger] after[i].name)
        && well_formed(after[i].children) by {
        if i != k {
            assert(after[i] == nodes[i]);
        } else {
            assert(is_name(nodes[k].name));
        }
    }
    assert forall|i: int, j: int|
        #![trigger after[i], after[j]]
        0 <= i < j < after.len() implies after[i].name != after[j].name by {
        assert(after[i].name == nodes[i].name);
        assert(after[j].name == nodes[j].name);
    }
}

/// A key tree with a key inserted is a key tree.
pub proof fn lemma_insert_well_formed(children: Seq<KeyTree>, path: Seq<char>)
    requires
        well_formed(children),
        is_key(path),
    ensures
        well_formed(insert(children, path)),
    decreases path.len(),
{
    let name = head(path);
    let more = rest(path);
    let k = child_index(children, name) as int;
    lemma_key_parts(path);
    lemma_child_index(children, name);
    if k >= children.len() {
        let below = if more.len() > 0 {
            insert(Seq::empty(), more)
        } else {
            Seq::empty()
        };
        if more.len() > 0 {
            lemma_insert_well_formed(Seq::empty(), more);
        }
        lemma_well_formed_push(children, KeyTree { name, children: below });
    } else if more.len() > 0 {
        let below = insert(children[k].children, more);
        lemma_insert_well_formed(children[k].children, more);
        lemma_well_formed_update(children, k, KeyTree { name: children[k].name, children: below });
    }
}

/// Inserting a path a second time changes nothing.
pub proof fn lemma_insert_idempotent(children: Seq<KeyTree>, path: Seq<char>)
    ensures
        insert(insert(children, path), path) == insert(children, path),
    decreases path.len(),
{
    let name = head(path);
    let more = rest(path);
    let k = child_index(children, name) as int;
    let once = insert(children, path);
    lemma_child_index(children, name);
    if k >= children.len() {
        lemma_child_index_is(once, name, k);
        if more.len() > 0 {
            lemma_insert_idempotent(Seq::empty(), more);
        }
        assert(insert(once, path) =~= once);
    } else if more.len() > 0 {
        lemma_child_index_is(once, name, k);
        lemma_insert_idempotent(children[k].children, more);
        assert(insert(once, path) =~= once);
    }
}

/// Every forest holds itself in place.
pub proof fn lemma_extends_itself(nodes: Seq<KeyTree>)
    ensures
        extends(nodes, nodes),
    decreases nodes,
{
    assert forall|i: int| 0 <= i < nodes.len() implies extends(
        nodes[i].children,
        (#[trigger] nodes[i]).children,
    ) by {
        lemma_extends_itself(nodes[i].children);
    }
}

/// What holds in place what holds a forest in place, holds that forest in
/// place.
pub proof fn lemma_extends_twice(first: Seq<KeyTree>, second: Seq<KeyTree>, third: Seq<KeyTree>)
    requires
        extends(first, second),
        extends(second, third),
    ensures
        extends(first, third),
    decreases first,
{
    assert forall|i: int| 0 <= i < first.len() implies (#[trigger] third[i]).name == first[i].name
        && extends(first[i].children, third[i].children) by {
        assert(second[i].name == first[i].name);
        assert(third[i].name == second[i].name);
        lemma_extends_twice(first[i].children, second[i].children, third[i].children);
    }
}

/// Inserting a path moves nothing: every node that was there keeps its place
/// among its siblings, and a new node stands behind the nodes beside it.
pub proof fn lemma_insert_extends(children: Seq<KeyTree>, path: Seq<char>)
    ensures
        extends(children, insert(children, path)),
    decreases path.len(),
{
    let name = head(path);
    let more = rest(path);
    let k = child_index(children, name) as int;
    let after = insert(children, path);
    lemma_child_index(children, name);
    if k < children.len() && more.len() > 0 {
        lemma_insert_extends(children[k].children, more);
    }
    assert forall|i: int| 0 <= i < children.len() implies (#[trigger] after[i]).name
        == children[i].name && extends(children[i].children, after[i].children) by {
        if !(i == k && more.len() > 0) {
            assert(after[i] == children[i]);
            lemma_extends_itself(children[i].children);
        }
    }
}

/// Inserting a key and then a longer key that starts with it gives what
/// inserting the longer key alone gives.
pub proof fn lemma_insert_absorbs(children: Seq<KeyTree>, p: Seq<char>, q: Seq<char>)
    requires
        is_key(p),
    ensures
        insert(insert(children, p), p + seq!['.'] + q) == insert(children, p + seq!['.'] + q),
    decreases p.len(),
{
    let pq = p + seq!['.'] + q;
    let name = head(p);
    let k = child_index(children, name) as int;
    let first = insert(children, p);
    lemma_joined_parts(p, q);
    lemma_key_parts(p);
    lemma_child_index(children, name);
    lemma_child_index_is(first, name, k);
    if rest(p).len() > 0 {
        if k >= children.len() {
            lemma_insert_absorbs(Seq::empty(), rest(p), q);
        } else {
            lemma_insert_absorbs(children[k].children, rest(p), q);
        }
    }
    assert(insert(first, pq) =~= insert(children, pq));
}

impl KeyElement {
    /// The place of the first child called `name`, or the number of children
    /// if none is called so.
    fn find_child(&self, name: &String) -> (k: usize)
        ensures
            k <= self.children@.len(),
            k == child_index(self@.children, name@),
    {
        let ghost all = self@.children;
        let mut i: usize = 0;
        proof {
            lemma_forest(self.children@);
            assert(all.skip(0) =~= all);
        }
        while i < self.children.len() && self.children[i].name != *name
            invariant
                all == forest(self.children@),
                all.len() == self.children@.len(),
                forall|j: int| 0 <= j < all.len() ==> all[j] == self.children@[j]@,
                i <= self.children@.len(),
                i + child_index(all.skip(i as int), name@) == child_index(all, name@),
            decreases self.children@.len() - i,
        {
            assert(all.skip(i as int)[0] == self.children@[i as int]@);
            assert(all.skip(i as int).skip(1) =~= all.skip(i + 1));
            i += 1;
        }
        proof {
            if i < self.children@.len() {
                assert(all.skip(i as int)[0] == self.children@[i as int]@);
            }
        }
        i
    }

    /// Inserts below this node the path that `path` holds from `start` on.
    pub(crate) fn insert_from(&mut self, path: &Vec<char>, start: usize)
        requires
            start <= path.len(),
        ensures
            final(self).name == old(self).name,
            final(self)@.children == insert(old(self)@.children, path@.skip(start as int)),
        decreases path.len() - start,
    {
        let ghost p = path@.skip(start as int);
        let ghost before = self@.children;
        let ghost nodes = self.children@;
        let dot = find_from(path, start, '.');
        let name = string_of(path, start, dot);
        let more = dot < path.len() && dot + 1 < path.len();
        let k = self.find_child(&name);
        proof {
            lemma_forest(nodes);
            assert(name@ =~= head(p));
            if dot < path.len() {
                assert(rest(p) =~= path@.skip(dot + 1));
            }
            assert(more == (rest(p).len() > 0));
        }
        if k == self.children.len() {
            let mut child = KeyElement { name, children: Vec::new() };
            assert(child@.children =~= Seq::empty());
            if more {
                child.insert_from(path, dot + 1);
            }
            let ghost made = child@;
            self.children.push(child);
            proof {
                lemma_forest(self.children@);
                assert(self@.children =~= before.push(made));
            }
        } else if more {
            let ghost found = self.children@[k as int]@;
            self.children[k].insert_from(path, dot + 1);
            let ghost grown = self.children@[k as int]@;
            proof {
                lemma_forest(self.children@);
                assert(grown.name == found.name);
                assert(grown.children == insert(found.children, rest(p)));
                assert(self@.children =~= before.update(k as int, grown));
            }
        }
    }

    /// Inserts the path `key` below this node: the child called by the first
    /// name of `key` is found, or made and put behind the others, and what
    /// follows the first dot of `key`, if anything, is inserted below that
    /// child.
    pub fn create_key(&mut self, key: &str)
        ensures
            final(self).name == old(self).name,
            final(self)@.children == insert(old(self)@.children, key@),
    {
        let path = chars_of(key);
        assert(path@.skip(0) =~= key@);
        self.insert_from(&path, 0);
    }
}

} // verus!
