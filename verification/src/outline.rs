//! Reading an outline: from lines and their indentation to the key tree.

use crate::text::{
    chars_of, copy_range, find_from, indent_width, is_blank, lemma_first_index_of,
    lemma_tab_is_four_spaces, payload, payload_of, push_all, split_lines, string_of, strip_cr,
    width_of,
};
use crate::tree::{
    extends, forest, insert, is_key, lemma_extends_itself, lemma_extends_twice,
    lemma_insert_extends, lemma_insert_idempotent, lemma_insert_well_formed, lemma_joined_key,
    well_formed, KeyElement, KeyTree,
};
use vstd::prelude::*;
use vstd::string::StringExecFns;

verus! {

/// An indentation that was left for a deeper one, and the key that the lines
/// at that indentation lay below.
pub struct Scope {
    pub indent: nat,
    pub parent: Seq<char>,
}

/// What has been read of an outline.
pub struct Outline {
    /// The indentation of the line read last.
    pub indent: nat,
    /// The key that the lines at this indentation lie below; empty at the top.
    pub parent: Seq<char>,
    /// The indentations that enclose this one, the outermost first.
    pub scopes: Seq<Scope>,
    /// The payload of the line read last.
    pub previous: Seq<char>,
    /// The tree of the keys read so far.
    pub roots: Seq<KeyTree>,
}

/// Why an outline is refused, as a mathematical value.
pub enum Rejection {
    /// The line is indented less than the line before it, and to a depth at
    /// which no line that encloses it stands.
    IllegalIndentation { line: Seq<char> },
    /// The payload of the line is no key.
    MalformedKey { line: Seq<char> },
}

/// Why an outline is refused. Either error holds the text of the line that it
/// is about.
#[derive(Debug, PartialEq, Eq)]
pub enum KeyError {
    /// The line is indented less than the line before it, and to a depth at
    /// which no line that encloses it stands.
    IllegalIndentation { line: String },
    /// The payload of the line is no key: it is empty, or one of the names
    /// that its dots separate is.
    MalformedKey { line: String },
}

impl View for KeyError {
    type V = Rejection;

    open spec fn view(&self) -> Rejection {
        match self {
            KeyError::IllegalIndentation { line } => Rejection::IllegalIndentation { line: line@ },
            KeyError::MalformedKey { line } => Rejection::MalformedKey { line: line@ },
        }
    }
}

/// The text that reports a refusal.
pub open spec fn message_of(rejection: Rejection) -> Seq<char> {
    match rejection {
        Rejection::IllegalIndentation { line } => "Illegal indentation in line \""@ + line
            + "\"!"@,
        Rejection::MalformedKey { line } => "Malformed key in line \""@ + line + "\"!"@,
    }
}

impl KeyError {
    /// The text that reports this error; it quotes the line.
    pub fn message(&self) -> (text: String)
        ensures
            text@ == message_of(self@),
    {
        match self {
            KeyError::IllegalIndentation { line } => {
                let mut text = "Illegal indentation in line \"".to_owned();
                text.append(line.as_str());
                text.append("\"!");
                text
            },
            KeyError::MalformedKey { line } => {
                let mut text = "Malformed key in line \"".to_owned();
                text.append(line.as_str());
                text.append("\"!");
                text
            },
        }
    }
}

/// The key `key` below the key `parent`, or `key` itself where `parent` is
/// empty.
pub open spec fn qualify(parent: Seq<char>, key: Seq<char>) -> Seq<char> {
    if parent.len() == 0 {
        key
    } else {
        parent + seq!['.'] + key
    }
}

/// The place of the innermost scope at the indentation `indent`, if there is
/// one.
pub open spec fn enclosing(scopes: Seq<Scope>, indent: nat) -> Option<int>
    decreases scopes.len(),
{
    if scopes.len() == 0 {
        None
    } else if scopes.last().indent == indent {
        Some(scopes.len() - 1)
    } else {
        enclosing(scopes.drop_last(), indent)
    }
}

impl Outline {
    /// Nothing read yet.
    pub open spec fn start() -> Outline {
        Outline {
            indent: 0,
            parent: Seq::empty(),
            scopes: Seq::empty(),
            previous: Seq::empty(),
            roots: Seq::empty(),
        }
    }

    /// One level down: the indentation so far becomes a scope, and the lines
    /// at the deeper indentation `indent` lie below the key read last.
    pub open spec fn descend(self, indent: nat) -> Outline {
        Outline {
            indent,
            parent: qualify(self.parent, self.previous),
            scopes: self.scopes.push(Scope { indent: self.indent, parent: self.parent }),
            ..self
        }
    }

    /// Back to the scope at place `k`, which closes that scope and all the
    /// scopes inside it.
    pub open spec fn back_to(self, k: int) -> Outline {
        Outline {
            indent: self.scopes[k].indent,
            parent: self.scopes[k].parent,
            scopes: self.scopes.take(k),
            ..self
        }
    }

    /// The key `key` read at the indentation reached: it is inserted below the
    /// parent in scope.
    pub open spec fn with_key(self, key: Seq<char>) -> Outline {
        Outline { previous: key, roots: insert(self.roots, qualify(self.parent, key)), ..self }
    }

    /// What holds of an outline however far it has been read: the scopes grow
    /// deeper from the outermost to the innermost and all lie above the
    /// indentation reached, every parent is empty or a key, there is no parent
    /// before the first line, and the tree is a key tree.
    pub open spec fn coherent(self) -> bool {
        &&& forall|i: int, j: int|
            #![trigger self.scopes[i], self.scopes[j]]
            0 <= i < j < self.scopes.len() ==> self.scopes[i].indent < self.scopes[j].indent
        &&& forall|i: int|
            0 <= i < self.scopes.len() ==> (#[trigger] self.scopes[i]).indent < self.indent && (
            self.scopes[i].parent.len() == 0 || is_key(self.scopes[i].parent))
        &&& self.parent.len() == 0 || is_key(self.parent)
        &&& self.previous.len() == 0 || is_key(self.previous)
        &&& self.previous.len() == 0 ==> self.parent.len() == 0
        &&& well_formed(self.roots)
    }
}

/// The outline after one more line. The line is refused if its payload is no
/// key, or if it is indented less than the line before it and no scope stands
/// at its indentation. A line that is indented further than the line before it
/// opens a scope below that line's key, and a line that is indented less
/// returns to the innermost scope at its indentation.
pub open spec fn step(outline: Outline, line: Seq<char>) -> Result<Outline, Rejection> {
    let key = payload(line);
    let indent = indent_width(line);
    if !is_key(key) {
        Err(Rejection::MalformedKey { line })
    } else if indent > outline.indent {
        Ok(outline.descend(indent).with_key(key))
    } else if indent < outline.indent {
        match enclosing(outline.scopes, indent) {
            Some(k) => Ok(outline.back_to(k).with_key(key)),
            None => Err(Rejection::IllegalIndentation { line }),
        }
    } else {
        Ok(outline.with_key(key))
    }
}

/// The outline after the lines `lines`, one after the other, or the refusal of
/// the first line that is refused.
pub open spec fn run(outline: Outline, lines: Seq<Seq<char>>) -> Result<Outline, Rejection>
    decreases lines.len(),
{
    if lines.len() == 0 {
        Ok(outline)
    } else {
        match step(outline, lines[0]) {
            Ok(next) => run(next, lines.skip(1)),
            Err(rejection) => Err(rejection),
        }
    }
}

/// The key tree that the outline `text` describes, or why the text is refused.
pub open spec fn compile(text: Seq<char>) -> Result<Seq<KeyTree>, Rejection> {
    match run(Outline::start(), split_lines(text)) {
        Ok(outline) => Ok(outline.roots),
        Err(rejection) => Err(rejection),
    }
}

/// What `enclosing` finds is a scope at that indentation.
pub proof fn lemma_enclosing(scopes: Seq<Scope>, indent: nat)
    ensures
        match enclosing(scopes, indent) {
            Some(k) => 0 <= k < scopes.len() && scopes[k].indent == indent,
            None => forall|i: int| 0 <= i < scopes.len() ==> scopes[i].indent != indent,
        },
    decreases scopes.len(),
{
    if scopes.len() > 0 && scopes.last().indent != indent {
        let below = scopes.drop_last();
        lemma_enclosing(below, indent);
        if enclosing(scopes, indent) is None {
            assert forall|i: int| 0 <= i < scopes.len() implies scopes[i].indent != indent by {
                if i < below.len() {
                    assert(scopes[i] == below[i]);
                }
            }
        }
    }
}

/// A key below a parent that is empty or a key is a key.
pub proof fn lemma_qualified_key(parent: Seq<char>, key: Seq<char>)
    requires
        parent.len() == 0 || is_key(parent),
        is_key(key),
    ensures
        is_key(qualify(parent, key)),
{
    if parent.len() > 0 {
        lemma_joined_key(parent, key);
    }
}

/// A step keeps an outline coherent.
pub proof fn lemma_step_coherent(outline: Outline, line: Seq<char>)
    requires
        outline.coherent(),
    ensures
        step(outline, line) matches Ok(next) ==> next.coherent(),
{
    let key = payload(line);
    let indent = indent_width(line);
    if is_key(key) {
        if indent > outline.indent {
            let below = outline.descend(indent);
            if outline.previous.len() > 0 {
                lemma_qualified_key(outline.parent, outline.previous);
            }
            lemma_first_index_of(key, '.');
            lemma_qualified_key(below.parent, key);
            lemma_insert_well_formed(below.roots, qualify(below.parent, key));
            assert forall|i: int| 0 <= i < below.scopes.len() implies (
            #[trigger] below.scopes[i]).indent < below.indent && (below.scopes[i].parent.len() == 0
                || is_key(below.scopes[i].parent)) by {
                if i < outline.scopes.len() {
                    assert(below.scopes[i] == outline.scopes[i]);
                }
            }
            assert forall|i: int, j: int|
                #![trigger below.scopes[i], below.scopes[j]]
                0 <= i < j < below.scopes.len() implies below.scopes[i].indent
                < below.scopes[j].indent by {
                assert(below.scopes[i] == outline.scopes[i]);
                if j < outline.scopes.len() {
                    assert(below.scopes[j] == outline.scopes[j]);
                }
            }
        } else if indent < outline.indent {
            lemma_enclosing(outline.scopes, indent);
            if let Some(k) = enclosing(outline.scopes, indent) {
                let above = outline.back_to(k);
                lemma_qualified_key(above.parent, key);
                lemma_insert_well_formed(above.roots, qualify(above.parent, key));
                assert forall|i: int| 0 <= i < above.scopes.len() implies (
                #[trigger] above.scopes[i]).indent < above.indent && (above.scopes[i].parent.len()
                    == 0 || is_key(above.scopes[i].parent)) by {
                    assert(above.scopes[i] == outline.scopes[i]);
                }
                assert forall|i: int, j: int|
                    #![trigger above.scopes[i], above.scopes[j]]
                    0 <= i < j < above.scopes.len() implies above.scopes[i].indent
                    < above.scopes[j].indent by {
                    assert(above.scopes[i] == outline.scopes[i]);
                    assert(above.scopes[j] == outline.scopes[j]);
                }
            }
        } else {
            lemma_qualified_key(outline.parent, key);
            lemma_insert_well_formed(outline.roots, qualify(outline.parent, key));
        }
    }
}

/// Reading lines keeps an outline coherent, and moves nothing in its tree:
/// every node keeps its place among its siblings, and the nodes that the lines
/// add stand behind the nodes that were there.
pub proof fn lemma_run_coherent(outline: Outline, lines: Seq<Seq<char>>)
    requires
        outline.coherent(),
    ensures
        run(outline, lines) matches Ok(reached) ==> reached.coherent() && extends(
            outline.roots,
            reached.roots,
        ),
    decreases lines.len(),
{
    if lines.len() == 0 {
        lemma_extends_itself(outline.roots);
    } else if let Ok(next) = step(outline, lines[0]) {
        lemma_step_coherent(outline, lines[0]);
        lemma_step_extends(outline, lines[0]);
        lemma_run_coherent(next, lines.skip(1));
        if let Ok(reached) = run(next, lines.skip(1)) {
            lemma_extends_twice(outline.roots, next.roots, reached.roots);
        }
    }
}

/// A step moves nothing in the tree.
pub proof fn lemma_step_extends(outline: Outline, line: Seq<char>)
    ensures
        step(outline, line) matches Ok(next) ==> extends(outline.roots, next.roots),
{
    if let Ok(next) = step(outline, line) {
        lemma_insert_extends(outline.roots, qualify(next.parent, payload(line)));
    }
}

/// The tree of an outline that is taken is a key tree.
pub proof fn lemma_compiled_tree(text: Seq<char>)
    ensures
        compile(text) matches Ok(roots) ==> well_formed(roots),
{
    lemma_run_coherent(Outline::start(), split_lines(text));
}

/// Reading lines and then more lines is reading them all: the second lot is
/// read from where the first lot ended, unless a line of the first is refused.
pub proof fn lemma_run_append(outline: Outline, first: Seq<Seq<char>>, second: Seq<Seq<char>>)
    ensures
        run(outline, first + second) == match run(outline, first) {
            Ok(reached) => run(reached, second),
            Err(rejection) => Err(rejection),
        },
    decreases first.len(),
{
    if first.len() == 0 {
        assert(first + second =~= second);
    } else {
        assert((first + second)[0] == first[0]);
        assert((first + second).skip(1) =~= first.skip(1) + second);
        if let Ok(next) = step(outline, first[0]) {
            lemma_run_append(next, first.skip(1), second);
        }
    }
}

/// A line read a second time, right after the first, changes nothing: no node
/// is added to the tree, and the outline is where it was.
pub proof fn lemma_repeated_line(outline: Outline, line: Seq<char>)
    ensures
        step(outline, line) matches Ok(next) ==> step(next, line) == Ok::<Outline, Rejection>(
            next,
        ),
{
    if let Ok(next) = step(outline, line) {
        if indent_width(line) < outline.indent {
            lemma_enclosing(outline.scopes, indent_width(line));
        }
        lemma_insert_idempotent(outline.roots, qualify(next.parent, payload(line)));
    }
}

/// A line with a tab in the white space that it starts with is read as the
/// line with four spaces in the tab's place is read: where one is taken, so is
/// the other, with the same outcome, and where one is refused, the other is
/// refused for the same reason.
pub proof fn lemma_step_tab(outline: Outline, lead: Seq<char>, rest: Seq<char>)
    requires
        is_blank(lead),
    ensures
        ({
            let tabbed = lead + seq!['\t'] + rest;
            let spaced = lead + seq![' ', ' ', ' ', ' '] + rest;
            match step(outline, tabbed) {
                Ok(next) => step(outline, spaced) == Ok::<Outline, Rejection>(next),
                Err(Rejection::IllegalIndentation { .. }) => step(outline, spaced) == Err::<
                    Outline,
                    Rejection,
                >(Rejection::IllegalIndentation { line: spaced }),
                Err(Rejection::MalformedKey { .. }) => step(outline, spaced) == Err::<
                    Outline,
                    Rejection,
                >(Rejection::MalformedKey { line: spaced }),
            }
        }),
{
    lemma_tab_is_four_spaces(lead, rest);
}

/// Reading one line is one step.
pub proof fn lemma_run_one(outline: Outline, line: Seq<char>)
    ensures
        run(outline, seq![line]) == step(outline, line),
{
    let rest = seq![line].skip(1);
    assert(seq![line][0] == line);
    assert(rest.len() == 0);
    if let Ok(next) = step(outline, line) {
        assert(run(next, rest) == Ok::<Outline, Rejection>(next));
    }
}

/// An outline reads the same with a line twice in a row as with the line
/// once.
pub proof fn lemma_run_repeated_line(
    outline: Outline,
    before: Seq<Seq<char>>,
    line: Seq<char>,
    after: Seq<Seq<char>>,
)
    ensures
        run(outline, before.push(line).push(line) + after) == run(
            outline,
            before.push(line) + after,
        ),
{
    let once = before.push(line);
    lemma_run_append(outline, once, after);
    lemma_run_append(outline, once, seq![line] + after);
    assert(once + (seq![line] + after) =~= once.push(line) + after);
    if let Ok(reached) = run(outline, once) {
        lemma_run_append(outline, before, seq![line]);
        assert(before + seq![line] =~= once);
        if let Ok(earlier) = run(outline, before) {
            lemma_run_one(earlier, line);
            lemma_repeated_line(earlier, line);
        }
        assert((seq![line] + after)[0] == line);
        assert((seq![line] + after).skip(1) =~= after);
    }
}

/// An outline that is taken with a tab in the white space that one of its
/// lines starts with is taken with four spaces in the tab's place, and reads
/// the same.
pub proof fn lemma_run_tab(
    outline: Outline,
    before: Seq<Seq<char>>,
    lead: Seq<char>,
    rest: Seq<char>,
    after: Seq<Seq<char>>,
)
    requires
        is_blank(lead),
    ensures
        run(outline, before.push(lead + seq!['\t'] + rest) + after) matches Ok(reached) ==> run(
            outline,
            before.push(lead + seq![' ', ' ', ' ', ' '] + rest) + after,
        ) == Ok::<Outline, Rejection>(reached),
{
    let tabbed = lead + seq!['\t'] + rest;
    let spaced = lead + seq![' ', ' ', ' ', ' '] + rest;
    lemma_run_append(outline, before, seq![tabbed] + after);
    lemma_run_append(outline, before, seq![spaced] + after);
    assert(before + (seq![tabbed] + after) =~= before.push(tabbed) + after);
    assert(before + (seq![spaced] + after) =~= before.push(spaced) + after);
    if let Ok(earlier) = run(outline, before) {
        lemma_step_tab(earlier, lead, rest);
        assert((seq![tabbed] + after)[0] == tabbed);
        assert((seq![spaced] + after)[0] == spaced);
        assert((seq![tabbed] + after).skip(1) =~= after);
        assert((seq![spaced] + after).skip(1) =~= after);
    }
}

/// A line that is indented less than the line before it, to a depth at which
/// no scope stands, is refused as illegally indented.
pub proof fn lemma_illegal_dedent(outline: Outline, line: Seq<char>)
    requires
        is_key(payload(line)),
        indent_width(line) < outline.indent,
        forall|i: int|
            0 <= i < outline.scopes.len() ==> outline.scopes[i].indent != indent_width(line),
    ensures
        step(outline, line) == Err::<Outline, Rejection>(
            Rejection::IllegalIndentation { line },
        ),
{
    lemma_enclosing(outline.scopes, indent_width(line));
}

/// An outline is refused as illegally indented, with the line in question,
/// if the lines before that line are taken, the line is indented less than the
/// last of them, and no scope stands at its depth when it is read. What comes
/// after the line does not matter.
pub proof fn lemma_illegal_dedent_refused(
    text: Seq<char>,
    before: Seq<Seq<char>>,
    line: Seq<char>,
    after: Seq<Seq<char>>,
)
    requires
        split_lines(text) == before.push(line) + after,
        is_key(payload(line)),
        run(Outline::start(), before) matches Ok(reached) && indent_width(line) < reached.indent
            && forall|i: int|
            0 <= i < reached.scopes.len() ==> reached.scopes[i].indent != indent_width(line),
    ensures
        compile(text) == Err::<Seq<KeyTree>, Rejection>(Rejection::IllegalIndentation { line }),
{
    let reached = run(Outline::start(), before)->Ok_0;
    lemma_illegal_dedent(reached, line);
    lemma_run_append(Outline::start(), before, seq![line] + after);
    assert(before + (seq![line] + after) =~= before.push(line) + after);
    assert((seq![line] + after)[0] == line);
}

/// A scope as the reader holds it.
struct Frame {
    indent: u128,
    parent: Vec<char>,
}

impl View for Frame {
    type V = Scope;

    closed spec fn view(&self) -> Scope {
        Scope { indent: self.indent as nat, parent: self.parent@ }
    }
}

/// The scopes that a sequence of frames stands for.
spec fn scopes_of(frames: Seq<Frame>) -> Seq<Scope> {
    Seq::new(frames.len(), |i: int| frames[i]@)
}

/// The state of reading an outline.
struct Reader {
    indent: u128,
    parent: Vec<char>,
    frames: Vec<Frame>,
    previous: Vec<char>,
    root: KeyElement,
}

impl View for Reader {
    type V = Outline;

    closed spec fn view(&self) -> Outline {
        Outline {
            indent: self.indent as nat,
            parent: self.parent@,
            scopes: scopes_of(self.frames@),
            previous: self.previous@,
            roots: self.root@.children,
        }
    }
}

/// Whether `key` is a key.
fn is_valid_key(key: &Vec<char>) -> (valid: bool)
    ensures
        valid == is_key(key@),
{
    let mut start: usize = 0;
    assert(key@.skip(0) =~= key@);
    loop
        invariant
            start <= key.len(),
            is_key(key@.skip(start as int)) == is_key(key@),
        decreases key.len() - start,
    {
        let dot = find_from(key, start, '.');
        if dot == start {
            return false;
        }
        if dot >= key.len() {
            return true;
        }
        assert(key@.skip(start as int).skip(dot - start + 1) =~= key@.skip(dot + 1));
        start = dot + 1;
    }
}

/// The key `key` below the key `parent`.
fn qualified(parent: &Vec<char>, key: &Vec<char>) -> (path: Vec<char>)
    ensures
        path@ == qualify(parent@, key@),
{
    let mut path: Vec<char> = Vec::new();
    if parent.len() > 0 {
        push_all(&mut path, parent);
        path.push('.');
    }
    push_all(&mut path, key);
    assert(path@ =~= qualify(parent@, key@));
    path
}

/// No scope stands at an indentation that is deeper than the innermost scope.
proof fn lemma_nothing_deeper(scopes: Seq<Scope>, indent: nat)
    requires
        forall|i: int, j: int|
            #![trigger scopes[i], scopes[j]]
            0 <= i < j < scopes.len() ==> scopes[i].indent < scopes[j].indent,
        scopes.len() > 0,
        scopes.last().indent < indent,
    ensures
        enclosing(scopes, indent) is None,
{
    lemma_enclosing(scopes, indent);
    if let Some(k) = enclosing(scopes, indent) {
        if k < scopes.len() - 1 {
            assert(scopes[k].indent < scopes[scopes.len() - 1].indent);
        }
    }
}

/// Closes frames down to the innermost one at the indentation `indent` and
/// returns that frame's parent. Where no frame stands at that indentation,
/// there is nothing to return.
fn unwind(frames: &mut Vec<Frame>, indent: u128) -> (parent: Option<Vec<char>>)
    requires
        forall|i: int, j: int|
            #![trigger scopes_of(old(frames)@)[i], scopes_of(old(frames)@)[j]]
            0 <= i < j < old(frames)@.len() ==> scopes_of(old(frames)@)[i].indent < scopes_of(
                old(frames)@,
            )[j].indent,
    ensures
        match enclosing(scopes_of(old(frames)@), indent as nat) {
            Some(k) => parent matches Some(found) && found@ == scopes_of(old(frames)@)[k].parent
                && scopes_of(final(frames)@) == scopes_of(old(frames)@).take(k),
            None => parent is None,
        },
{
    let ghost all = scopes_of(frames@);
    assert(all.take(all.len() as int) =~= all);
    loop
        invariant
            all == scopes_of(old(frames)@),
            frames@.len() <= all.len(),
            scopes_of(frames@) == all.take(frames@.len() as int),
            enclosing(all.take(frames@.len() as int), indent as nat) == enclosing(
                all,
                indent as nat,
            ),
            forall|i: int, j: int|
                #![trigger all[i], all[j]]
                0 <= i < j < all.len() ==> all[i].indent < all[j].indent,
        decreases frames@.len(),
    {
        let ghost open = all.take(frames@.len() as int);
        match frames.pop() {
            None => {
                return None;
            },
            Some(frame) => {
                proof {
                    assert(frame@ == scopes_of(old(frames)@)[frames@.len() as int]);
                    assert(open.last() == frame@);
                    assert(open.drop_last() =~= all.take(frames@.len() as int));
                    assert(scopes_of(frames@) =~= all.take(frames@.len() as int));
                }
                if frame.indent == indent {
                    return Some(frame.parent);
                }
                if frame.indent < indent {
                    proof {
                        assert forall|i: int, j: int|
                            #![trigger open[i], open[j]]
                            0 <= i < j < open.len() implies open[i].indent < open[j].indent by {
                            assert(open[i] == all[i]);
                            assert(open[j] == all[j]);
                        }
                        lemma_nothing_deeper(open, indent as nat);
                    }
                    return None;
                }
            },
        }
    }
}

impl Reader {
    /// A reader that has read nothing.
    fn new() -> (reader: Reader)
        ensures
            reader@ == Outline::start(),
            reader@.coherent(),
    {
        let reader = Reader {
            indent: 0,
            parent: Vec::new(),
            frames: Vec::new(),
            previous: Vec::new(),
            root: KeyElement { name: String::new(), children: Vec::new() },
        };
        assert(scopes_of(reader.frames@) =~= Seq::empty());
        assert(reader.root@.children =~= Seq::empty());
        reader
    }

    /// Reads one line.
    fn feed(&mut self, line: &Vec<char>) -> (r: Result<(), KeyError>)
        requires
            old(self)@.coherent(),
        ensures
            match step(old(self)@, line@) {
                Ok(next) => r is Ok && final(self)@ == next && next.coherent(),
                Err(rejection) => r matches Err(error) && error@ == rejection,
            },
    {
        let ghost before = self@;
        proof {
            lemma_step_coherent(before, line@);
            assert(line@.subrange(0, line@.len() as int) =~= line@);
        }
        let key = payload_of(line);
        if !is_valid_key(&key) {
            return Err(KeyError::MalformedKey { line: string_of(line, 0, line.len()) });
        }
        let indent = width_of(line);
        if indent > self.indent {
            let mut parent = qualified(&self.parent, &self.previous);
            core::mem::swap(&mut self.parent, &mut parent);
            self.frames.push(Frame { indent: self.indent, parent });
            self.indent = indent;
            assert(scopes_of(self.frames@) =~= before.descend(indent as nat).scopes);
        } else if indent < self.indent {
            match unwind(&mut self.frames, indent) {
                Some(parent) => {
                    self.parent = parent;
                    self.indent = indent;
                    proof {
                        lemma_enclosing(before.scopes, indent as nat);
                    }
                },
                None => {
                    return Err(
                        KeyError::IllegalIndentation { line: string_of(line, 0, line.len()) },
                    );
                },
            }
        }
        let path = qualified(&self.parent, &key);
        assert(path@.skip(0) =~= path@);
        self.root.insert_from(&path, 0);
        self.previous = key;
        Ok(())
    }
}

/// Reads the outline `input` into its key tree. The nodes returned are those
/// at the top of the tree, in the order in which the outline first names them.
///
/// The outline is refused with the first line whose payload is no key, or that
/// is indented less than the line before it without returning to a depth at
/// which a line that encloses it stands.
pub fn compile_input(input: &str) -> (r: Result<Vec<KeyElement>, KeyError>)
    ensures
        match compile(input@) {
            Ok(roots) => r matches Ok(nodes) && forest(nodes@) == roots && well_formed(roots),
            Err(rejection) => r matches Err(error) && error@ == rejection,
        },
{
    let text = chars_of(input);
    let mut reader = Reader::new();
    let mut at: usize = 0;
    assert(text@.skip(0) =~= text@);
    while at < text.len()
        invariant
            at <= text.len(),
            text@ == input@,
            reader@.coherent(),
            run(reader@, split_lines(text@.skip(at as int))) == run(
                Outline::start(),
                split_lines(input@),
            ),
        decreases text.len() - at,
    {
        let ghost left = text@.skip(at as int);
        let end = find_from(&text, at, '\n');
        let ended = end < text.len();
        let stop = if ended && end > at && text[end - 1] == '\r' {
            end - 1
        } else {
            end
        };
        let line = copy_range(&text, at, stop);
        let next = if ended {
            end + 1
        } else {
            end
        };
        proof {
            let lines = split_lines(left);
            if ended {
                assert(left.take(end - at) =~= text@.subrange(at as int, end as int));
                assert(strip_cr(left.take(end - at)) =~= line@);
                assert(left.skip(end - at + 1) =~= text@.skip(next as int));
                assert(lines.skip(1) =~= split_lines(text@.skip(next as int)));
            } else {
                assert(left =~= line@);
                assert(lines.skip(1) =~= Seq::<Seq<char>>::empty());
                assert(text@.skip(next as int) =~= Seq::<char>::empty());
            }
            assert(lines[0] == line@);
        }
        match reader.feed(&line) {
            Err(error) => {
                return Err(error);
            },
            Ok(()) => {},
        }
        at = next;
    }
    Ok(reader.root.children)
}

} // verus!
