//! The line-oriented difference between an expected and an actual output.
//!
//! Lines that both texts start with and lines that both end with are kept;
//! between them the lines of the expected text are shown as removed and
//! the lines of the actual text as added.

use crate::text::{join, join_lines, lines_view, push_char, split, split_chars, to_chars};
use vstd::prelude::*;
use vstd::string::StringExecFns;

verus! {

/// The first index at or after `from` at which `a` and `b` differ or one
/// of them ends.
pub open spec fn common_prefix(a: Seq<Seq<char>>, b: Seq<Seq<char>>, from: int) -> int
    decreases a.len() - from,
{
    if 0 <= from < a.len() && from < b.len() && a[from] == b[from] {
        common_prefix(a, b, from + 1)
    } else {
        from
    }
}

/// The line of `s` that has `n` lines behind it.
pub open spec fn from_end(s: Seq<Seq<char>>, n: int) -> Seq<char> {
    s[s.len() - 1 - n]
}

/// How many lines `a` and `b` end with in common, counted on from `n`,
/// without going back beyond the index `floor` in either.
pub open spec fn common_suffix(a: Seq<Seq<char>>, b: Seq<Seq<char>>, floor: int, n: int) -> int
    decreases a.len() - n,
{
    if 0 <= n && 0 <= floor && floor + n < a.len() && floor + n < b.len() && from_end(a, n)
        == from_end(b, n) {
        common_suffix(a, b, floor, n + 1)
    } else {
        n
    }
}

/// The lines, each behind `mark` and a space.
pub open spec fn marked(mark: char, lines: Seq<Seq<char>>) -> Seq<Seq<char>> {
    Seq::new(lines.len(), |i: int| seq![mark, ' '] + lines[i])
}

/// The difference between two sequences of lines: the common start
/// unmarked, what only `expected` has marked `-`, what only `actual` has
/// marked `+`, the common end unmarked.
pub open spec fn diff_lines(expected: Seq<Seq<char>>, actual: Seq<Seq<char>>) -> Seq<Seq<char>> {
    let p = common_prefix(expected, actual, 0);
    let s = common_suffix(expected, actual, p, 0);
    marked(' ', expected.subrange(0, p)) + marked('-', expected.subrange(p, expected.len() - s))
        + marked('+', actual.subrange(p, actual.len() - s)) + marked(
        ' ',
        expected.subrange(expected.len() - s, expected.len() as int),
    )
}

/// The difference between two texts, line by line.
pub open spec fn diff_text(expected: Seq<char>, actual: Seq<char>) -> Seq<char> {
    join(diff_lines(split(expected, '\n'), split(actual, '\n')), '\n')
}

/// How many lines `a` and `b` start with in common.
fn common_prefix_len(a: &Vec<String>, b: &Vec<String>) -> (p: usize)
    ensures
        p == common_prefix(lines_view(a@), lines_view(b@), 0),
        p <= a.len(),
        p <= b.len(),
{
    let mut i: usize = 0;
    while i < a.len() && i < b.len() && a[i] == b[i]
        invariant
            i <= a.len(),
            i <= b.len(),
            common_prefix(lines_view(a@), lines_view(b@), 0) == common_prefix(
                lines_view(a@),
                lines_view(b@),
                i as int,
            ),
        decreases a.len() - i,
    {
        i += 1;
    }
    i
}

/// How many lines `a` and `b` end with in common behind their first `p`.
fn common_suffix_len(a: &Vec<String>, b: &Vec<String>, p: usize) -> (s: usize)
    requires
        p <= a.len(),
        p <= b.len(),
    ensures
        s == common_suffix(lines_view(a@), lines_view(b@), p as int, 0),
        p + s <= a.len(),
        p + s <= b.len(),
{
    let mut n: usize = 0;
    while n < a.len() - p && n < b.len() - p && a[a.len() - 1 - n] == b[b.len() - 1 - n]
        invariant
            p + n <= a.len(),
            p + n <= b.len(),
            common_suffix(lines_view(a@), lines_view(b@), p as int, 0) == common_suffix(
                lines_view(a@),
                lines_view(b@),
                p as int,
                n as int,
            ),
        decreases a.len() - n,
    {
        n += 1;
    }
    n
}

/// Puts the lines `lines[from..to]` behind `out`, each behind `mark` and a
/// space.
fn append_marked(out: &mut Vec<String>, mark: char, lines: &Vec<String>, from: usize, to: usize)
    requires
        from <= to <= lines.len(),
    ensures
        lines_view(final(out)@) == lines_view(old(out)@) + marked(
            mark,
            lines_view(lines@).subrange(from as int, to as int),
        ),
{
    let ghost before = lines_view(out@);
    let ghost part = lines_view(lines@).subrange(from as int, to as int);
    let mut i: usize = from;
    assert(before + marked(mark, part.take(0)) == before);
    while i < to
        invariant
            from <= i <= to <= lines.len(),
            part == lines_view(lines@).subrange(from as int, to as int),
            lines_view(out@) == before + marked(mark, part.take(i - from)),
        decreases to - i,
    {
        let mut line = String::new();
        push_char(&mut line, mark);
        push_char(&mut line, ' ');
        line.append(lines[i].as_str());
        let ghost so_far = out@;
        out.push(line);
        proof {
            assert(line@ == seq![mark, ' '] + part[i - from]);
            assert(lines_view(out@) == lines_view(so_far).push(line@));
            assert(marked(mark, part.take(i - from + 1)) == marked(mark, part.take(i - from)).push(
                line@,
            ));
        }
        i += 1;
    }
    assert(part.take(to - from) == part);
}

/// The difference between two texts, line by line.
pub fn diff(expected: &str, actual: &str) -> (text: String)
    ensures
        text@ == diff_text(expected@, actual@),
{
    let e = split_chars(&to_chars(expected), '\n');
    let a = split_chars(&to_chars(actual), '\n');
    let p = common_prefix_len(&e, &a);
    let s = common_suffix_len(&e, &a, p);
    let mut out: Vec<String> = Vec::new();
    assert(lines_view(out@) == Seq::<Seq<char>>::empty());
    append_marked(&mut out, ' ', &e, 0, p);
    append_marked(&mut out, '-', &e, p, e.len() - s);
    append_marked(&mut out, '+', &a, p, a.len() - s);
    append_marked(&mut out, ' ', &e, e.len() - s, e.len());
    proof {
        let ev = lines_view(e@);
        let av = lines_view(a@);
        assert(Seq::<Seq<char>>::empty() + marked(' ', ev.subrange(0, p as int)) == marked(
            ' ',
            ev.subrange(0, p as int),
        ));
        assert(lines_view(out@) == diff_lines(ev, av));
    }
    join_lines(&out, '\n')
}

/// The lines before the common prefix ends stand in both sequences.
pub proof fn lemma_common_prefix(a: Seq<Seq<char>>, b: Seq<Seq<char>>, from: int)
    requires
        0 <= from <= a.len(),
        from <= b.len(),
    ensures
        from <= common_prefix(a, b, from) <= a.len(),
        common_prefix(a, b, from) <= b.len(),
        forall|i: int| from <= i < common_prefix(a, b, from) ==> a[i] == b[i],
    decreases a.len() - from,
{
    if from < a.len() && from < b.len() && a[from] == b[from] {
        lemma_common_prefix(a, b, from + 1);
    }
}

/// The lines that the common suffix counts stand at the end of both
/// sequences, behind the index `floor`.
pub proof fn lemma_common_suffix(a: Seq<Seq<char>>, b: Seq<Seq<char>>, floor: int, n: int)
    requires
        0 <= floor,
        0 <= n,
        floor + n <= a.len(),
        floor + n <= b.len(),
    ensures
        n <= common_suffix(a, b, floor, n),
        floor + common_suffix(a, b, floor, n) <= a.len(),
        floor + common_suffix(a, b, floor, n) <= b.len(),
        forall|j: int|
            n <= j < common_suffix(a, b, floor, n) ==> #[trigger] from_end(a, j) == from_end(b, j),
    decreases a.len() - n,
{
    if floor + n < a.len() && floor + n < b.len() && from_end(a, n) == from_end(b, n) {
        lemma_common_suffix(a, b, floor, n + 1);
    }
}

/// The difference shows both texts: the unmarked lines with the removed
/// lines between them are the expected lines, and the same unmarked lines
/// with the added lines between them are the actual lines.
pub proof fn lemma_diff_shows_both(expected: Seq<Seq<char>>, actual: Seq<Seq<char>>)
    ensures
        ({
            let p = common_prefix(expected, actual, 0);
            let s = common_suffix(expected, actual, p, 0);
            let head = expected.subrange(0, p);
            let tail = expected.subrange(expected.len() - s, expected.len() as int);
            &&& 0 <= p
            &&& 0 <= s
            &&& p + s <= expected.len()
            &&& p + s <= actual.len()
            &&& expected == head + expected.subrange(p, expected.len() - s) + tail
            &&& actual == head + actual.subrange(p, actual.len() - s) + tail
            &&& diff_lines(expected, actual).len() == expected.len() + actual.len() - p - s
        }),
{
    lemma_common_prefix(expected, actual, 0);
    let p = common_prefix(expected, actual, 0);
    lemma_common_suffix(expected, actual, p, 0);
    let s = common_suffix(expected, actual, p, 0);
    let head = expected.subrange(0, p);
    let tail = expected.subrange(expected.len() - s, expected.len() as int);
    assert(expected =~= head + expected.subrange(p, expected.len() - s) + tail);
    let rebuilt = head + actual.subrange(p, actual.len() - s) + tail;
    assert(rebuilt.len() == actual.len());
    assert forall|i: int| 0 <= i < actual.len() implies rebuilt[i] == actual[i] by {
        if i >= actual.len() - s {
            let j = actual.len() - 1 - i;
            assert(from_end(expected, j) == from_end(actual, j));
        }
    }
    assert(actual =~= rebuilt);
}

} // verus!
