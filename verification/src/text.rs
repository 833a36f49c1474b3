//! Characters, lines and indentation.

use vstd::prelude::*;

verus! {

/// Whether `c` is white space: one of the code points that Unicode lists with
/// the property `White_Space`.
pub open spec fn is_space(c: char) -> bool {
    let n = c as u32;
    ||| 0x09 <= n <= 0x0D
    ||| n == 0x20
    ||| n == 0x85
    ||| n == 0xA0
    ||| n == 0x1680
    ||| 0x2000 <= n <= 0x200A
    ||| n == 0x2028
    ||| n == 0x2029
    ||| n == 0x202F
    ||| n == 0x205F
    ||| n == 0x3000
}

/// The columns that a white space character takes up in an indentation: four
/// for a tab, one for any other.
pub open spec fn column_width(c: char) -> nat {
    if c == '\t' {
        4
    } else {
        1
    }
}

/// The indentation of a line: the columns of the white space that it starts
/// with.
pub open spec fn indent_width(line: Seq<char>) -> nat
    decreases line.len(),
{
    if line.len() > 0 && is_space(line[0]) {
        column_width(line[0]) + indent_width(line.skip(1))
    } else {
        0
    }
}

/// `s` without the white space that it starts with.
pub open spec fn trimmed_start(s: Seq<char>) -> Seq<char>
    decreases s.len(),
{
    if s.len() > 0 && is_space(s[0]) {
        trimmed_start(s.skip(1))
    } else {
        s
    }
}

/// `s` without the white space that it ends with.
pub open spec fn trimmed_end(s: Seq<char>) -> Seq<char>
    decreases s.len(),
{
    if s.len() > 0 && is_space(s.last()) {
        trimmed_end(s.drop_last())
    } else {
        s
    }
}

/// The payload of a line: the line without the white space around it.
pub open spec fn payload(line: Seq<char>) -> Seq<char> {
    trimmed_end(trimmed_start(line))
}

/// The place of the first `c` in `s`, or the length of `s` if there is none.
pub open spec fn first_index_of(s: Seq<char>, c: char) -> nat
    decreases s.len(),
{
    if s.len() == 0 || s[0] == c {
        0
    } else {
        1 + first_index_of(s.skip(1), c)
    }
}

/// `line` without the carriage return that it ends with, if it ends with one.
pub open spec fn strip_cr(line: Seq<char>) -> Seq<char> {
    if line.len() > 0 && line.last() == '\r' {
        line.drop_last()
    } else {
        line
    }
}

/// The lines of a text. A line ends with a line feed, or with a carriage
/// return and a line feed; neither belongs to the line. The last line need not
/// end with one, and a text that does end with one has no empty line after it.
pub open spec fn split_lines(text: Seq<char>) -> Seq<Seq<char>>
    decreases text.len(),
{
    if text.len() == 0 {
        Seq::empty()
    } else {
        let n = first_index_of(text, '\n');
        if n >= text.len() {
            seq![text]
        } else {
            seq![strip_cr(text.take(n as int))] + split_lines(text.skip(n as int + 1))
        }
    }
}

/// The parts `parts` with `separator` between each two of them.
pub open spec fn join(parts: Seq<Seq<char>>, separator: Seq<char>) -> Seq<char>
    decreases parts.len(),
{
    if parts.len() == 0 {
        Seq::empty()
    } else if parts.len() == 1 {
        parts[0]
    } else {
        join(parts.drop_last(), separator) + separator + parts.last()
    }
}

/// Whether `s` is white space throughout.
pub open spec fn is_blank(s: Seq<char>) -> bool {
    forall|i: int| 0 <= i < s.len() ==> is_space(s[i])
}

/// A tab in the white space that a line starts with indents the line as four
/// spaces in its place do, and the payload is the same.
pub proof fn lemma_tab_is_four_spaces(lead: Seq<char>, rest: Seq<char>)
    requires
        is_blank(lead),
    ensures
        indent_width(lead + seq!['\t'] + rest) == indent_width(
            lead + seq![' ', ' ', ' ', ' '] + rest,
        ),
        payload(lead + seq!['\t'] + rest) == payload(lead + seq![' ', ' ', ' ', ' '] + rest),
    decreases lead.len(),
{
    let tabbed = lead + seq!['\t'] + rest;
    let spaced = lead + seq![' ', ' ', ' ', ' '] + rest;
    if lead.len() == 0 {
        assert(tabbed.skip(1) =~= rest);
        let three = spaced.skip(1);
        let two = three.skip(1);
        let one = two.skip(1);
        assert(one.skip(1) =~= rest);
        assert(is_space(spaced[0]) && is_space(three[0]) && is_space(two[0]) && is_space(one[0]));
        assert(indent_width(one) == 1 + indent_width(rest));
        assert(indent_width(two) == 2 + indent_width(rest));
        assert(indent_width(three) == 3 + indent_width(rest));
        assert(trimmed_start(one) == trimmed_start(rest));
        assert(trimmed_start(two) == trimmed_start(rest));
        assert(trimmed_start(three) == trimmed_start(rest));
    } else {
        let shorter = lead.skip(1);
        lemma_tab_is_four_spaces(shorter, rest);
        assert(is_space(lead[0]));
        assert(tabbed[0] == lead[0] && spaced[0] == lead[0]);
        assert(tabbed.skip(1) =~= shorter + seq!['\t'] + rest);
        assert(spaced.skip(1) =~= shorter + seq![' ', ' ', ' ', ' '] + rest);
    }
}

/// What `first_index_of` finds: nothing before it is `c`, and it is `c`
/// unless `s` holds none.
pub proof fn lemma_first_index_of(s: Seq<char>, c: char)
    ensures
        first_index_of(s, c) <= s.len(),
        first_index_of(s, c) < s.len() ==> s[first_index_of(s, c) as int] == c,
        forall|i: int| 0 <= i < first_index_of(s, c) ==> s[i] != c,
    decreases s.len(),
{
    if s.len() == 0 || s[0] == c {
    } else {
        let t = s.skip(1);
        lemma_first_index_of(t, c);
        assert forall|i: int| 0 <= i < first_index_of(s, c) implies s[i] != c by {
            if i > 0 {
                assert(s[i] == t[i - 1]);
            }
        }
    }
}

/// The only place with nothing equal to `c` before it that holds `c`, or is
/// the end of `s`, is the one that `first_index_of` finds.
pub proof fn lemma_first_index_of_is(s: Seq<char>, c: char, n: int)
    requires
        0 <= n <= s.len(),
        n < s.len() ==> s[n] == c,
        forall|i: int| 0 <= i < n ==> s[i] != c,
    ensures
        first_index_of(s, c) == n,
    decreases s.len(),
{
    if s.len() == 0 || s[0] == c {
    } else {
        let t = s.skip(1);
        assert forall|i: int| 0 <= i < n - 1 implies t[i] != c by {
            assert(t[i] == s[i + 1]);
        }
        lemma_first_index_of_is(t, c, n - 1);
    }
}

/// Whether `c` is white space.
pub(crate) fn is_whitespace(c: char) -> (b: bool)
    ensures
        b == is_space(c),
{
    let n: u32 = c as u32;
    (0x09 <= n && n <= 0x0D) || n == 0x20 || n == 0x85 || n == 0xA0 || n == 0x1680 || (0x2000 <= n
        && n <= 0x200A) || n == 0x2028 || n == 0x2029 || n == 0x202F || n == 0x205F || n == 0x3000
}

/// `String::push`: the string afterwards is the string before with `c` at its
/// end.
pub assume_specification[ String::push ](s: &mut String, c: char)
    ensures
        final(s)@ == old(s)@.push(c),
;

/// The characters of `s`.
pub(crate) fn chars_of(s: &str) -> (v: Vec<char>)
    ensures
        v@ == s@,
{
    let mut v: Vec<char> = Vec::new();
    for c in it: s.chars()
        invariant
            v@ == it.seq().take(it.index@),
    {
        v.push(c);
    }
    v
}

/// The characters of `v` from `from` up to `to`, as a string.
pub(crate) fn string_of(v: &Vec<char>, from: usize, to: usize) -> (s: String)
    requires
        from <= to <= v.len(),
    ensures
        s@ == v@.subrange(from as int, to as int),
{
    let mut s = String::new();
    let mut i: usize = from;
    while i < to
        invariant
            from <= i <= to <= v.len(),
            s@ == v@.subrange(from as int, i as int),
        decreases to - i,
    {
        s.push(v[i]);
        assert(v@.subrange(from as int, i + 1) =~= v@.subrange(from as int, i as int).push(
            v@[i as int],
        ));
        i += 1;
    }
    s
}

/// The characters of `v` from `from` up to `to`.
pub(crate) fn copy_range(v: &Vec<char>, from: usize, to: usize) -> (part: Vec<char>)
    requires
        from <= to <= v.len(),
    ensures
        part@ == v@.subrange(from as int, to as int),
{
    let mut part: Vec<char> = Vec::new();
    let mut i: usize = from;
    while i < to
        invariant
            from <= i <= to <= v.len(),
            part@ == v@.subrange(from as int, i as int),
        decreases to - i,
    {
        part.push(v[i]);
        assert(v@.subrange(from as int, i + 1) =~= v@.subrange(from as int, i as int).push(
            v@[i as int],
        ));
        i += 1;
    }
    part
}

/// Puts the characters of `more` behind those of `v`.
pub(crate) fn push_all(v: &mut Vec<char>, more: &Vec<char>)
    ensures
        final(v)@ == old(v)@ + more@,
{
    let mut i: usize = 0;
    assert(more@.take(0) =~= Seq::empty());
    assert(v@ + Seq::<char>::empty() =~= v@);
    while i < more.len()
        invariant
            i <= more.len(),
            v@ == old(v)@ + more@.take(i as int),
        decreases more.len() - i,
    {
        v.push(more[i]);
        assert(more@.take(i + 1) =~= more@.take(i as int).push(more@[i as int]));
        assert(old(v)@ + more@.take(i + 1) =~= (old(v)@ + more@.take(i as int)).push(
            more@[i as int],
        ));
        i += 1;
    }
    assert(more@.take(more@.len() as int) =~= more@);
}

/// The place of the first `c` in `v` at or after `from`, or the length of `v`
/// if there is none.
pub(crate) fn find_from(v: &Vec<char>, from: usize, c: char) -> (at: usize)
    requires
        from <= v.len(),
    ensures
        from <= at <= v.len(),
        at == from + first_index_of(v@.skip(from as int), c),
{
    let mut i: usize = from;
    while i < v.len() && v[i] != c
        invariant
            from <= i <= v.len(),
            forall|j: int| from <= j < i ==> v@[j] != c,
        decreases v.len() - i,
    {
        i += 1;
    }
    proof {
        lemma_first_index_of_is(v@.skip(from as int), c, i - from);
    }
    i
}

/// The indentation of `line`, in columns.
pub(crate) fn width_of(line: &Vec<char>) -> (width: u128)
    ensures
        width == indent_width(line@),
{
    let mut width: u128 = 0;
    let mut i: usize = 0;
    assert(line@.skip(0) =~= line@);
    while i < line.len() && is_whitespace(line[i])
        invariant
            i <= line.len(),
            width <= 4 * i,
            width + indent_width(line@.skip(i as int)) == indent_width(line@),
        decreases line.len() - i,
    {
        assert(line@.skip(i as int).skip(1) =~= line@.skip(i + 1));
        width += if line[i] == '\t' {
            4
        } else {
            1
        };
        i += 1;
    }
    width
}

/// The payload of `line`.
pub(crate) fn payload_of(line: &Vec<char>) -> (key: Vec<char>)
    ensures
        key@ == payload(line@),
{
    let mut from: usize = 0;
    assert(line@.skip(0) =~= line@);
    while from < line.len() && is_whitespace(line[from])
        invariant
            from <= line.len(),
            trimmed_start(line@.skip(from as int)) == trimmed_start(line@),
        decreases line.len() - from,
    {
        assert(line@.skip(from as int).skip(1) =~= line@.skip(from + 1));
        from += 1;
    }
    let mut to: usize = line.len();
    assert(line@.subrange(from as int, to as int) =~= line@.skip(from as int));
    while to > from && is_whitespace(line[to - 1])
        invariant
            from <= to <= line.len(),
            trimmed_end(line@.subrange(from as int, to as int)) == payload(line@),
        decreases to,
    {
        assert(line@.subrange(from as int, to as int).drop_last() =~= line@.subrange(
            from as int,
            to - 1,
        ));
        to -= 1;
    }
    copy_range(line, from, to)
}

/// The indentation of `line`, in columns: each white space character that the
/// line starts with counts one, a tab four.
///
/// The result is a `u128`, which holds four times the length of any line.
pub fn count_leading_whitespaces(line: &str) -> (width: u128)
    ensures
        width == indent_width(line@),
{
    let chars = chars_of(line);
    width_of(&chars)
}

} // verus!
