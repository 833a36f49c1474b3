//! Nested and flat outlines: a key may be written on one line, its names
//! separated by dots, or name by name on lines of growing indentation. Both
//! describe the same tree.

use crate::outline::{compile, qualify, run, step, Outline, Rejection};
use crate::text::{
    indent_width, is_space, join, lemma_first_index_of_is, payload, split_lines,
};
use crate::tree::{insert, is_key, is_name, lemma_insert_absorbs, lemma_joined_key, KeyTree};
use vstd::prelude::*;

verus! {

/// Whether `name` can stand alone on a line: it is a name and holds no white
/// space.
pub open spec fn is_bare_name(name: Seq<char>) -> bool {
    &&& is_name(name)
    &&& forall|i: int| 0 <= i < name.len() ==> !is_space(name[i])
}

/// The line that holds `key` behind `depth` spaces.
pub open spec fn indented(depth: nat, key: Seq<char>) -> Seq<char> {
    Seq::new(depth, |i: int| ' ') + key
}

/// The lines that hold one name each: the name at place `i` stands at the
/// depth `depths[i]`.
pub open spec fn nested_lines(names: Seq<Seq<char>>, depths: Seq<nat>) -> Seq<Seq<char>> {
    Seq::new(names.len(), |i: int| indented(depths[i], names[i]))
}

/// The text made of the lines `lines`, each ended by a line feed.
pub open spec fn text_of_lines(lines: Seq<Seq<char>>) -> Seq<char>
    decreases lines.len(),
{
    if lines.len() == 0 {
        Seq::empty()
    } else {
        lines[0] + seq!['\n'] + text_of_lines(lines.skip(1))
    }
}

/// A key behind spaces is indented by the number of the spaces, and is the
/// payload of its line, if it neither starts nor ends with white space.
pub proof fn lemma_indented(depth: nat, key: Seq<char>)
    requires
        key.len() > 0,
        !is_space(key[0]),
        !is_space(key.last()),
    ensures
        indent_width(indented(depth, key)) == depth,
        payload(indented(depth, key)) == key,
    decreases depth,
{
    let line = indented(depth, key);
    if depth == 0 {
        assert(line =~= key);
    } else {
        lemma_indented((depth - 1) as nat, key);
        assert(line[0] == ' ');
        assert(line.skip(1) =~= indented((depth - 1) as nat, key));
    }
}

/// The lines of a text made of lines are those lines, if none of them holds a
/// line feed or ends with a carriage return.
pub proof fn lemma_lines_of_text(lines: Seq<Seq<char>>)
    requires
        forall|i: int, j: int|
            0 <= i < lines.len() && 0 <= j < lines[i].len() ==> lines[i][j] != '\n',
        forall|i: int| 0 <= i < lines.len() && lines[i].len() > 0 ==> lines[i].last() != '\r',
    ensures
        split_lines(text_of_lines(lines)) == lines,
    decreases lines.len(),
{
    if lines.len() > 0 {
        let text = text_of_lines(lines);
        let first = lines[0];
        let more = lines.skip(1);
        assert forall|i: int, j: int| 0 <= i < more.len() && 0 <= j < more[i].len() implies more[i][j]
            != '\n' by {
            assert(more[i] == lines[i + 1]);
        }
        assert forall|i: int| 0 <= i < more.len() && more[i].len() > 0 implies more[i].last()
            != '\r' by {
            assert(more[i] == lines[i + 1]);
        }
        lemma_lines_of_text(more);
        assert forall|j: int| 0 <= j < first.len() implies text[j] != '\n' by {
            assert(text[j] == first[j]);
        }
        assert(text[first.len() as int] == '\n');
        lemma_first_index_of_is(text, '\n', first.len() as int);
        assert(text.take(first.len() as int) =~= first);
        assert(text.skip(first.len() as int + 1) =~= text_of_lines(more));
        assert(split_lines(text) =~= lines);
    }
}

/// A name is a key.
pub proof fn lemma_name_is_key(name: Seq<char>)
    requires
        is_name(name),
    ensures
        is_key(name),
{
    lemma_first_index_of_is(name, '.', name.len() as int);
}

/// Names joined by dots are a key, which starts as the first name starts and
/// ends as the last name ends.
pub proof fn lemma_joined_names(names: Seq<Seq<char>>)
    requires
        names.len() > 0,
        forall|i: int| 0 <= i < names.len() ==> is_name(names[i]),
    ensures
        is_key(join(names, seq!['.'])),
        join(names, seq!['.']).len() > 0,
        join(names, seq!['.'])[0] == names[0][0],
        join(names, seq!['.']).last() == names.last().last(),
    decreases names.len(),
{
    if names.len() == 1 {
        lemma_name_is_key(names[0]);
    } else {
        let before = names.drop_last();
        assert forall|i: int| 0 <= i < before.len() implies is_name(before[i]) by {
            assert(before[i] == names[i]);
        }
        lemma_joined_names(before);
        lemma_name_is_key(names.last());
        lemma_joined_key(join(before, seq!['.']), names.last());
        assert(before[0] == names[0]);
    }
}

/// What is left of nested lines, from the line at place `i` on, completes the
/// tree of the names so far to the tree of all the names.
proof fn lemma_nested_from(outline: Outline, names: Seq<Seq<char>>, depths: Seq<nat>, i: int)
    requires
        depths.len() == names.len(),
        forall|k: int| 0 <= k < names.len() ==> is_bare_name(names[k]),
        forall|k: int, l: int| 0 <= k < l < depths.len() ==> depths[k] < depths[l],
        1 <= i <= names.len(),
        outline.indent == depths[i - 1],
        qualify(outline.parent, outline.previous) == join(names.take(i), seq!['.']),
        outline.roots == insert(Seq::empty(), join(names.take(i), seq!['.'])),
    ensures
        run(outline, nested_lines(names, depths).skip(i)) matches Ok(last) && last.roots == insert(
            Seq::empty(),
            join(names, seq!['.']),
        ),
    decreases names.len() - i,
{
    let lines = nested_lines(names, depths).skip(i);
    if i == names.len() {
        assert(names.take(i) =~= names);
    } else {
        let name = names[i];
        let so_far = names.take(i);
        let path = join(so_far, seq!['.']);
        assert(lines[0] == indented(depths[i], name));
        assert(is_bare_name(name));
        lemma_indented(depths[i], name);
        lemma_name_is_key(name);
        assert forall|k: int| 0 <= k < so_far.len() implies is_name(so_far[k]) by {
            assert(is_bare_name(names[k]));
        }
        lemma_joined_names(so_far);
        let next = outline.descend(depths[i]).with_key(name);
        assert(step(outline, lines[0]) == Ok::<Outline, Rejection>(next));
        assert(names.take(i + 1).drop_last() =~= so_far);
        assert(names.take(i + 1).last() == name);
        assert(join(names.take(i + 1), seq!['.']) == path + seq!['.'] + name);
        lemma_insert_absorbs(Seq::empty(), path, name);
        assert(lines.skip(1) =~= nested_lines(names, depths).skip(i + 1));
        lemma_nested_from(next, names, depths, i + 1);
    }
}

/// A key written name by name, each name on a line of its own that is indented
/// further than the line before it, gives the tree that the key gives when it
/// is written on one line with dots between its names: the tree in which the
/// key alone has been inserted.
pub proof fn lemma_nested_is_flat(names: Seq<Seq<char>>, depths: Seq<nat>)
    requires
        names.len() > 0,
        depths.len() == names.len(),
        forall|i: int| 0 <= i < names.len() ==> is_bare_name(names[i]),
        forall|i: int, j: int| 0 <= i < j < depths.len() ==> depths[i] < depths[j],
    ensures
        compile(text_of_lines(nested_lines(names, depths))) == compile(join(names, seq!['.'])),
        compile(join(names, seq!['.'])) == Ok::<Seq<KeyTree>, Rejection>(
            insert(Seq::empty(), join(names, seq!['.'])),
        ),
{
    let flat = join(names, seq!['.']);
    let nested = nested_lines(names, depths);
    let start = Outline::start();
    assert forall|i: int| 0 <= i < names.len() implies is_name(names[i]) by {
        assert(is_bare_name(names[i]));
    }
    lemma_joined_names(names);
    assert(is_bare_name(names[0]) && is_bare_name(names.last()));
    // The key on one line.
    lemma_indented(0, flat);
    assert(indented(0, flat) =~= flat);
    assert forall|j: int| 0 <= j < flat.len() implies flat[j] != '\n' by {
        lemma_no_line_feed(names, j);
    }
    lemma_first_index_of_is(flat, '\n', flat.len() as int);
    assert(split_lines(flat) =~= seq![flat]);
    assert(seq![flat].skip(1) =~= Seq::<Seq<char>>::empty());
    assert(run(start, seq![flat]) == run(start.with_key(flat), Seq::<Seq<char>>::empty()));
    // The key name by name.
    assert forall|i: int, j: int| 0 <= i < nested.len() && 0 <= j < nested[i].len() implies nested[i][j]
        != '\n' by {
        assert(is_bare_name(names[i]));
        if j >= depths[i] {
            assert(nested[i][j] == names[i][j - depths[i]]);
        }
    }
    assert forall|i: int| 0 <= i < nested.len() && nested[i].len() > 0 implies nested[i].last()
        != '\r' by {
        assert(is_bare_name(names[i]));
        assert(nested[i].last() == names[i].last());
    }
    lemma_lines_of_text(nested);
    let name = names[0];
    lemma_indented(depths[0], name);
    lemma_name_is_key(name);
    let first = if depths[0] > 0 {
        start.descend(depths[0]).with_key(name)
    } else {
        start.with_key(name)
    };
    assert(nested[0] == indented(depths[0], name));
    assert(step(start, nested[0]) == Ok::<Outline, Rejection>(first));
    assert(names.take(1) =~= seq![name]);
    assert(join(names.take(1), seq!['.']) == name);
    assert(nested.skip(0) =~= nested);
    lemma_nested_from(first, names, depths, 1);
}

/// Bare names joined by dots hold no line feed.
proof fn lemma_no_line_feed(names: Seq<Seq<char>>, j: int)
    requires
        forall|i: int| 0 <= i < names.len() ==> is_bare_name(names[i]),
        0 <= j < join(names, seq!['.']).len(),
    ensures
        join(names, seq!['.'])[j] != '\n',
    decreases names.len(),
{
    if names.len() == 1 {
        assert(is_bare_name(names[0]));
    } else if names.len() > 1 {
        let before = names.drop_last();
        let path = join(before, seq!['.']);
        assert forall|i: int| 0 <= i < before.len() implies is_bare_name(before[i]) by {
            assert(before[i] == names[i]);
        }
        assert(is_bare_name(names.last()));
        if j < path.len() {
            lemma_no_line_feed(before, j);
        } else if j > path.len() {
            assert(join(names, seq!['.'])[j] == names.last()[j - path.len() - 1]);
        }
    }
}

} // verus!
