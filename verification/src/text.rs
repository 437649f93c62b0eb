//! Text as sequences of characters: the mathematical vocabulary of the
//! harness (trimming, splitting, joining, substitution) and the executable
//! functions that compute it.

use vstd::prelude::*;
use vstd::string::StringExecFns;

verus! {

/// Whether `c` has the Unicode `White_Space` property.
pub open spec fn is_whitespace(c: char) -> bool {
    let n = c as u32;
    ||| 0x09 <= n <= 0x0d
    ||| n == 0x20
    ||| n == 0x85
    ||| n == 0xa0
    ||| n == 0x1680
    ||| 0x2000 <= n <= 0x200a
    ||| n == 0x2028
    ||| n == 0x2029
    ||| n == 0x202f
    ||| n == 0x205f
    ||| n == 0x3000
}

/// A line is blank when it holds nothing but white space.
pub open spec fn is_blank(s: Seq<char>) -> bool {
    forall|i: int| 0 <= i < s.len() ==> is_whitespace(#[trigger] s[i])
}

/// The first index at or after `from` that holds no white space, or the
/// length of `s`.
pub open spec fn trim_start_index(s: Seq<char>, from: int) -> int
    decreases s.len() - from,
{
    if 0 <= from < s.len() && is_whitespace(s[from]) {
        trim_start_index(s, from + 1)
    } else {
        from
    }
}

/// The end of the last run of non-white-space before `to`.
pub open spec fn trim_end_index(s: Seq<char>, to: int) -> int
    decreases to,
{
    if 0 < to <= s.len() && is_whitespace(s[to - 1]) {
        trim_end_index(s, to - 1)
    } else {
        to
    }
}

/// `s` without its leading white space.
pub open spec fn trim_start(s: Seq<char>) -> Seq<char> {
    s.skip(trim_start_index(s, 0))
}

/// `s` without its trailing white space.
pub open spec fn trim_end(s: Seq<char>) -> Seq<char> {
    s.take(trim_end_index(s, s.len() as int))
}

/// `s` without leading and trailing white space.
pub open spec fn trim(s: Seq<char>) -> Seq<char> {
    trim_end(trim_start(s))
}

/// Whether `pat` stands in `s` at index `at`.
pub open spec fn occurs_at(s: Seq<char>, at: int, pat: Seq<char>) -> bool {
    0 <= at && at + pat.len() <= s.len() && s.subrange(at, at + pat.len()) == pat
}

/// `s` with every leading repetition of `pat` removed. An empty `pat`
/// removes nothing.
pub open spec fn strip_leading(s: Seq<char>, pat: Seq<char>) -> Seq<char>
    decreases s.len(),
{
    if pat.len() > 0 && occurs_at(s, 0, pat) {
        strip_leading(s.skip(pat.len() as int), pat)
    } else {
        s
    }
}

/// The index of the first `sep` in `s` at or after `from`, or the length of
/// `s`.
pub open spec fn index_of(s: Seq<char>, sep: char, from: int) -> int
    decreases s.len() - from,
{
    if 0 <= from < s.len() && s[from] != sep {
        index_of(s, sep, from + 1)
    } else {
        from
    }
}

/// The pieces of `s` between occurrences of `sep`. There is always at least
/// one piece; `n` separators give `n + 1` pieces, some of which may be empty.
pub open spec fn split(s: Seq<char>, sep: char) -> Seq<Seq<char>>
    decreases s.len(),
{
    let i = index_of(s, sep, 0);
    if 0 <= i < s.len() {
        seq![s.take(i)] + split(s.skip(i + 1), sep)
    } else {
        seq![s]
    }
}

/// The pieces with `sep` between each two neighbours.
pub open spec fn join(pieces: Seq<Seq<char>>, sep: char) -> Seq<char>
    decreases pieces.len(),
{
    if pieces.len() == 0 {
        Seq::empty()
    } else if pieces.len() == 1 {
        pieces[0]
    } else {
        pieces[0] + seq![sep] + join(pieces.skip(1), sep)
    }
}

/// The pieces that are not empty, in order.
pub open spec fn non_empty(pieces: Seq<Seq<char>>) -> Seq<Seq<char>> {
    pieces.filter(|p: Seq<char>| p.len() > 0)
}

/// The index of the first mapping at or after `from` whose key is not empty
/// and stands in `s` at `at`, or the number of mappings.
pub open spec fn first_match(
    s: Seq<char>,
    at: int,
    mappings: Seq<(Seq<char>, Seq<char>)>,
    from: int,
) -> int
    decreases mappings.len() - from,
{
    if from < 0 || from >= mappings.len() {
        mappings.len() as int
    } else if mappings[from].0.len() > 0 && occurs_at(s, at, mappings[from].0) {
        from
    } else {
        first_match(s, at, mappings, from + 1)
    }
}

/// One pass over `s` from `at` on: wherever a key stands, the value of the
/// first such mapping takes its place and the scan goes on behind the key.
/// What was put in is never scanned again.
pub open spec fn substitute_from(
    s: Seq<char>,
    at: int,
    mappings: Seq<(Seq<char>, Seq<char>)>,
) -> Seq<char>
    decreases s.len() - at,
{
    if at < 0 || at >= s.len() {
        Seq::empty()
    } else {
        let k = first_match(s, at, mappings, 0);
        if 0 <= k < mappings.len() && mappings[k].0.len() > 0 && at + mappings[k].0.len()
            <= s.len() {
            mappings[k].1 + substitute_from(s, at + mappings[k].0.len(), mappings)
        } else {
            seq![s[at]] + substitute_from(s, at + 1, mappings)
        }
    }
}

/// `s` with every key replaced by its value, in one pass from left to right.
/// With a single mapping this is [`replace_all`].
pub open spec fn substitute(s: Seq<char>, mappings: Seq<(Seq<char>, Seq<char>)>) -> Seq<char> {
    substitute_from(s, 0, mappings)
}

/// `s` with every occurrence of `from` replaced by `to`: the occurrences
/// are taken from the left and do not overlap. An empty `from` replaces
/// nothing.
pub open spec fn replace_all(s: Seq<char>, from: Seq<char>, to: Seq<char>) -> Seq<char>
    decreases s.len(),
{
    if from.len() == 0 || s.len() == 0 {
        s
    } else if occurs_at(s, 0, from) {
        to + replace_all(s.skip(from.len() as int), from, to)
    } else {
        seq![s[0]] + replace_all(s.skip(1), from, to)
    }
}

/// The views of a sequence of strings.
pub open spec fn lines_view(v: Seq<String>) -> Seq<Seq<char>> {
    Seq::new(v.len(), |i: int| v[i]@)
}

/// The views of a sequence of pairs of character vectors.
pub open spec fn pairs_view(v: Seq<(Vec<char>, Vec<char>)>) -> Seq<(Seq<char>, Seq<char>)> {
    Seq::new(v.len(), |i: int| (v[i].0@, v[i].1@))
}

/// `String::push`: the string grows by the one character at its end.
#[verifier::external_body]
pub(crate) fn push_char(s: &mut String, c: char)
    ensures
        final(s)@ == old(s)@.push(c),
{
    s.push(c);
}

/// The characters of `s`.
pub fn to_chars(s: &str) -> (v: Vec<char>)
    ensures
        v@ == s@,
{
    let mut v: Vec<char> = Vec::new();
    for c in it: s.chars()
        invariant
            v@ == it.seq().take(it.index() as int),
            it.seq() == s@,
    {
        v.push(c);
    }
    v
}

/// The string made of the characters `v[from..to]`.
pub fn from_chars(v: &Vec<char>, from: usize, to: usize) -> (s: String)
    requires
        from <= to <= v.len(),
    ensures
        s@ == v@.subrange(from as int, to as int),
{
    let mut s = String::new();
    let mut i: usize = from;
    while i < to
        invariant
            from <= i <= to <= v.len(),
            s@ == v@.subrange(from as int, i as int),
        decreases to - i,
    {
        push_char(&mut s, v[i]);
        assert(v@.subrange(from as int, i + 1) == v@.subrange(from as int, i as int).push(
            v@[i as int],
        ));
        i += 1;
    }
    s
}

/// Whether `c` is white space.
pub fn char_is_whitespace(c: char) -> (b: bool)
    ensures
        b == is_whitespace(c),
{
    let n: u32 = c as u32;
    (0x09 <= n && n <= 0x0d) || n == 0x20 || n == 0x85 || n == 0xa0 || n == 0x1680 || (0x2000 <= n
        && n <= 0x200a) || n == 0x2028 || n == 0x2029 || n == 0x202f || n == 0x205f || n == 0x3000
}

/// The index of the first character of `v` that is no white space.
pub fn leading_whitespace(v: &Vec<char>) -> (r: usize)
    ensures
        r <= v.len(),
        r == trim_start_index(v@, 0),
        is_blank(v@) <==> r == v.len(),
{
    let mut i: usize = 0;
    while i < v.len() && char_is_whitespace(v[i])
        invariant
            i <= v.len(),
            trim_start_index(v@, 0) == trim_start_index(v@, i as int),
            forall|j: int| 0 <= j < i ==> is_whitespace(#[trigger] v@[j]),
        decreases v.len() - i,
    {
        i += 1;
    }
    i
}

/// The end of `v` once its trailing white space is left off.
pub fn trailing_whitespace(v: &Vec<char>) -> (r: usize)
    ensures
        r <= v.len(),
        r == trim_end_index(v@, v.len() as int),
{
    let mut i: usize = v.len();
    while i > 0 && char_is_whitespace(v[i - 1])
        invariant
            i <= v.len(),
            trim_end_index(v@, v.len() as int) == trim_end_index(v@, i as int),
        decreases i,
    {
        i -= 1;
    }
    i
}

/// Whether `line` is blank.
pub fn line_is_blank(line: &str) -> (b: bool)
    ensures
        b == is_blank(line@),
{
    let v = to_chars(line);
    leading_whitespace(&v) == v.len()
}

/// `v[from..to]` as a vector of its own.
pub fn copy_range(v: &Vec<char>, from: usize, to: usize) -> (r: Vec<char>)
    requires
        from <= to <= v.len(),
    ensures
        r@ == v@.subrange(from as int, to as int),
{
    let mut r: Vec<char> = Vec::new();
    let mut i: usize = from;
    while i < to
        invariant
            from <= i <= to <= v.len(),
            r@ == v@.subrange(from as int, i as int),
        decreases to - i,
    {
        r.push(v[i]);
        assert(v@.subrange(from as int, i + 1) == v@.subrange(from as int, i as int).push(
            v@[i as int],
        ));
        i += 1;
    }
    r
}

/// `v` without leading and trailing white space.
pub fn trim_chars(v: &Vec<char>) -> (r: Vec<char>)
    ensures
        r@ == trim(v@),
{
    let a = leading_whitespace(v);
    let front = copy_range(v, a, v.len());
    let b = trailing_whitespace(&front);
    let r = copy_range(&front, 0, b);
    assert(front@ == trim_start(v@));
    r
}

/// Whether `pat` stands in `v` at index `at`.
pub fn occurs_at_chars(v: &Vec<char>, at: usize, pat: &Vec<char>) -> (b: bool)
    ensures
        b == occurs_at(v@, at as int, pat@),
{
    if at > v.len() || pat.len() > v.len() - at {
        return false;
    }
    let mut i: usize = 0;
    while i < pat.len()
        invariant
            i <= pat.len(),
            at + pat.len() <= v.len(),
            forall|j: int| 0 <= j < i ==> v@[at + j] == pat@[j],
        decreases pat.len() - i,
    {
        if v[at + i] != pat[i] {
            assert(v@.subrange(at as int, at + pat.len())[i as int] != pat@[i as int]);
            return false;
        }
        i += 1;
    }
    assert(v@.subrange(at as int, at + pat.len()) =~= pat@);
    true
}

/// Where the leading repetitions of `pat` in `v` end.
pub fn strip_leading_chars(v: &Vec<char>, pat: &Vec<char>) -> (r: usize)
    ensures
        r <= v.len(),
        v@.skip(r as int) == strip_leading(v@, pat@),
{
    let mut i: usize = 0;
    if pat.len() == 0 {
        assert(v@.skip(0) == v@);
        return 0;
    }
    assert(v@.skip(0) == v@);
    while occurs_at_chars(v, i, pat)
        invariant
            i <= v.len(),
            pat.len() > 0,
            strip_leading(v@, pat@) == strip_leading(v@.skip(i as int), pat@),
        decreases v.len() - i,
    {
        proof {
            let t = v@.skip(i as int);
            assert(t.subrange(0, pat.len() as int) == v@.subrange(i as int, i + pat.len()));
            assert(occurs_at(t, 0, pat@));
            assert(t.skip(pat.len() as int) == v@.skip(i + pat.len()));
        }
        i += pat.len();
    }
    proof {
        let t = v@.skip(i as int);
        if occurs_at(t, 0, pat@) {
            assert(t.subrange(0, pat.len() as int) == v@.subrange(i as int, i + pat.len()));
            assert(occurs_at(v@, i as int, pat@));
        }
    }
    i
}

/// From `from` on, `index_of` looks no further back than where it stands.
pub proof fn lemma_index_of_bounds(s: Seq<char>, sep: char, from: int)
    requires
        0 <= from <= s.len(),
    ensures
        from <= index_of(s, sep, from) <= s.len(),
        index_of(s, sep, from) < s.len() ==> s[index_of(s, sep, from)] == sep,
        forall|j: int| from <= j < index_of(s, sep, from) ==> s[j] != sep,
    decreases s.len() - from,
{
    if from < s.len() && s[from] != sep {
        lemma_index_of_bounds(s, sep, from + 1);
    }
}

/// `index_of` is the one index that holds the separator with none before it.
pub proof fn lemma_index_of_is(s: Seq<char>, sep: char, from: int, i: int)
    requires
        0 <= from <= i <= s.len(),
        forall|j: int| from <= j < i ==> s[j] != sep,
        i < s.len() ==> s[i] == sep,
    ensures
        index_of(s, sep, from) == i,
    decreases i - from,
{
    if from < i {
        lemma_index_of_is(s, sep, from + 1, i);
    }
}

/// Splitting and joining on the same separator gives the text back.
pub proof fn lemma_join_split(s: Seq<char>, sep: char)
    ensures
        join(split(s, sep), sep) == s,
        split(s, sep).len() >= 1,
    decreases s.len(),
{
    let i = index_of(s, sep, 0);
    lemma_index_of_bounds(s, sep, 0);
    if i < s.len() {
        let rest = s.skip(i + 1);
        lemma_join_split(rest, sep);
        let pieces = split(s, sep);
        assert(pieces.skip(1) == split(rest, sep));
        assert(pieces[0] == s.take(i));
        assert(s.take(i) + seq![sep] + rest == s);
    }
}

/// Joining one more piece puts the separator and the piece at the end.
pub proof fn lemma_join_push(pieces: Seq<Seq<char>>, sep: char, last: Seq<char>)
    ensures
        join(pieces.push(last), sep) == if pieces.len() == 0 {
            last
        } else {
            join(pieces, sep) + seq![sep] + last
        },
    decreases pieces.len(),
{
    let all = pieces.push(last);
    if pieces.len() == 1 {
        assert(all.skip(1) == seq![last]);
        assert(join(all.skip(1), sep) == last);
        assert(all[0] == pieces[0]);
        assert(join(pieces, sep) == pieces[0]);
    } else if pieces.len() > 1 {
        lemma_join_push(pieces.skip(1), sep, last);
        assert(all.skip(1) == pieces.skip(1).push(last));
        assert(pieces[0] + seq![sep] + (join(pieces.skip(1), sep) + seq![sep] + last) == (pieces[0]
            + seq![sep] + join(pieces.skip(1), sep)) + seq![sep] + last);
    }
}

/// The pieces of `text` between occurrences of `sep`.
pub fn split_chars(v: &Vec<char>, sep: char) -> (pieces: Vec<String>)
    ensures
        lines_view(pieces@) == split(v@, sep),
{
    let mut pieces: Vec<String> = Vec::new();
    let mut start: usize = 0;
    let mut i: usize = 0;
    assert(v@.skip(0) == v@);
    assert(lines_view(pieces@) + split(v@, sep) == split(v@, sep));
    while i < v.len()
        invariant
            start <= i <= v.len(),
            split(v@, sep) == lines_view(pieces@) + split(v@.skip(start as int), sep),
            forall|j: int| start <= j < i ==> v@[j] != sep,
        decreases v.len() - i,
    {
        if v[i] == sep {
            let piece = from_chars(v, start, i);
            proof {
                let rest = v@.skip(start as int);
                lemma_index_of_is(rest, sep, 0, i - start);
                assert(rest.take(i - start) == v@.subrange(start as int, i as int));
                assert(rest.skip(i - start + 1) == v@.skip(i + 1));
                assert(lines_view(pieces@.push(piece)) == lines_view(pieces@) + seq![piece@]);
            }
            pieces.push(piece);
            start = i + 1;
        }
        i += 1;
    }
    let piece = from_chars(v, start, v.len());
    proof {
        let rest = v@.skip(start as int);
        lemma_index_of_is(rest, sep, 0, rest.len() as int);
        assert(rest == v@.subrange(start as int, v.len() as int));
        assert(lines_view(pieces@.push(piece)) == lines_view(pieces@) + seq![piece@]);
    }
    pieces.push(piece);
    pieces
}

/// The pieces with `sep` between each two neighbours, as one string.
pub fn join_lines(pieces: &Vec<String>, sep: char) -> (text: String)
    ensures
        text@ == join(lines_view(pieces@), sep),
{
    let mut text = String::new();
    let mut i: usize = 0;
    let ghost all = lines_view(pieces@);
    assert(all.take(0) == Seq::<Seq<char>>::empty());
    while i < pieces.len()
        invariant
            i <= pieces.len(),
            all == lines_view(pieces@),
            text@ == join(all.take(i as int), sep),
        decreases pieces.len() - i,
    {
        proof {
            lemma_join_push(all.take(i as int), sep, all[i as int]);
            assert(all.take(i + 1) == all.take(i as int).push(all[i as int]));
            assert(all[i as int] == pieces@[i as int]@);
        }
        if i > 0 {
            push_char(&mut text, sep);
        }
        text.append(pieces[i].as_str());
        i += 1;
    }
    assert(all.take(i as int) == all);
    text
}

/// The index of the first mapping whose key is not empty and stands in
/// `line` at `at`.
pub fn first_match_chars(line: &Vec<char>, at: usize, mappings: &Vec<(Vec<char>, Vec<char>)>) -> (k:
    usize)
    ensures
        k == first_match(line@, at as int, pairs_view(mappings@), 0),
        k <= mappings.len(),
        k < mappings.len() ==> mappings@[k as int].0.len() > 0 && occurs_at(
            line@,
            at as int,
            mappings@[k as int].0@,
        ),
{
    let mut k: usize = 0;
    let ghost m = pairs_view(mappings@);
    while k < mappings.len()
        invariant
            k <= mappings.len(),
            m == pairs_view(mappings@),
            first_match(line@, at as int, m, 0) == first_match(line@, at as int, m, k as int),
        decreases mappings.len() - k,
    {
        assert(m[k as int].0 == mappings@[k as int].0@);
        if mappings[k].0.len() > 0 && occurs_at_chars(line, at, &mappings[k].0) {
            return k;
        }
        k += 1;
    }
    k
}

/// `line` with every key replaced by its value, in one pass.
pub fn substitute_chars(line: &Vec<char>, mappings: &Vec<(Vec<char>, Vec<char>)>) -> (out: Vec<
    char,
>)
    ensures
        out@ == substitute(line@, pairs_view(mappings@)),
{
    let mut out: Vec<char> = Vec::new();
    let mut at: usize = 0;
    let ghost m = pairs_view(mappings@);
    while at < line.len()
        invariant
            at <= line.len(),
            m == pairs_view(mappings@),
            substitute(line@, m) == out@ + substitute_from(line@, at as int, m),
        decreases line.len() - at,
    {
        let k = first_match_chars(line, at, mappings);
        if k < mappings.len() {
            let ghost before = out@;
            assert(m[k as int] == (mappings@[k as int].0@, mappings@[k as int].1@));
            let value = &mappings[k].1;
            let mut j: usize = 0;
            while j < value.len()
                invariant
                    j <= value.len(),
                    out@ == before + value@.take(j as int),
                decreases value.len() - j,
            {
                out.push(value[j]);
                assert(value@.take(j + 1) == value@.take(j as int).push(value@[j as int]));
                j += 1;
            }
            assert(value@.take(j as int) == value@);
            proof {
                let rest = substitute_from(line@, at + mappings@[k as int].0.len(), m);
                assert(before + (value@ + rest) == (before + value@) + rest);
            }
            at += mappings[k].0.len();
        } else {
            proof {
                let rest = substitute_from(line@, at + 1, m);
                assert(out@ + (seq![line@[at as int]] + rest) == out@.push(line@[at as int])
                    + rest);
            }
            out.push(line[at]);
            at += 1;
        }
    }
    out
}

/// Where no key stands at `at`, no mapping is the first to match there.
pub proof fn lemma_no_match(
    s: Seq<char>,
    at: int,
    mappings: Seq<(Seq<char>, Seq<char>)>,
    from: int,
)
    requires
        0 <= from,
        forall|k: int|
            0 <= k < mappings.len() ==> (#[trigger] mappings[k]).0.len() == 0 || !occurs_at(
                s,
                at,
                mappings[k].0,
            ),
    ensures
        first_match(s, at, mappings, from) == mappings.len(),
    decreases mappings.len() - from,
{
    if from < mappings.len() {
        assert(mappings[from].0.len() == 0 || !occurs_at(s, at, mappings[from].0));
        lemma_no_match(s, at, mappings, from + 1);
    }
}

/// A text in which no key stands anywhere is left as it is.
pub proof fn lemma_substitute_without_occurrence(
    s: Seq<char>,
    mappings: Seq<(Seq<char>, Seq<char>)>,
)
    requires
        forall|k: int, at: int|
            0 <= k < mappings.len() && 0 <= at < s.len() ==> (#[trigger] mappings[k]).0.len() == 0
                || !#[trigger] occurs_at(s, at, mappings[k].0),
    ensures
        substitute(s, mappings) == s,
{
    lemma_unmatched_tail(s, 0, mappings);
    assert(s.skip(0) == s);
}

proof fn lemma_unmatched_tail(s: Seq<char>, at: int, mappings: Seq<(Seq<char>, Seq<char>)>)
    requires
        0 <= at <= s.len(),
        forall|k: int, at: int|
            0 <= k < mappings.len() && 0 <= at < s.len() ==> (#[trigger] mappings[k]).0.len() == 0
                || !#[trigger] occurs_at(s, at, mappings[k].0),
    ensures
        substitute_from(s, at, mappings) == s.skip(at),
    decreases s.len() - at,
{
    if at < s.len() {
        assert forall|k: int| 0 <= k < mappings.len() implies (#[trigger] mappings[k]).0.len() == 0
            || !occurs_at(s, at, mappings[k].0) by {
            assert(mappings[k].0.len() == 0 || !occurs_at(s, at, mappings[k].0));
        }
        lemma_no_match(s, at, mappings, 0);
        lemma_unmatched_tail(s, at + 1, mappings);
        assert(seq![s[at]] + s.skip(at + 1) == s.skip(at));
    } else {
        assert(s.skip(at) == Seq::<char>::empty());
    }
}

/// Where a key stands at `at`, the value of the first mapping with such a
/// key takes its place, and the scan goes on behind the key.
pub proof fn lemma_occurrence_replaced(
    s: Seq<char>,
    at: int,
    mappings: Seq<(Seq<char>, Seq<char>)>,
)
    requires
        0 <= at < s.len(),
        first_match(s, at, mappings, 0) < mappings.len(),
    ensures
        ({
            let k = first_match(s, at, mappings, 0);
            &&& 0 <= k < mappings.len()
            &&& occurs_at(s, at, mappings[k].0)
            &&& substitute_from(s, at, mappings) == mappings[k].1 + substitute_from(
                s,
                at + mappings[k].0.len(),
                mappings,
            )
        }),
{
    lemma_first_match(s, at, mappings, 0);
}

/// The first match, where there is one, is a mapping whose key is not
/// empty and stands at `at`; no mapping before it is one.
pub proof fn lemma_first_match(
    s: Seq<char>,
    at: int,
    mappings: Seq<(Seq<char>, Seq<char>)>,
    from: int,
)
    requires
        0 <= from <= mappings.len(),
    ensures
        from <= first_match(s, at, mappings, from) <= mappings.len(),
        first_match(s, at, mappings, from) < mappings.len() ==> mappings[first_match(
            s,
            at,
            mappings,
            from,
        )].0.len() > 0 && occurs_at(s, at, mappings[first_match(s, at, mappings, from)].0),
        forall|k: int|
            from <= k < first_match(s, at, mappings, from) ==> (#[trigger] mappings[k]).0.len()
                == 0 || !occurs_at(s, at, mappings[k].0),
    decreases mappings.len() - from,
{
    if from < mappings.len() && !(mappings[from].0.len() > 0 && occurs_at(
        s,
        at,
        mappings[from].0,
    )) {
        lemma_first_match(s, at, mappings, from + 1);
    }
}

/// With a single mapping, substitution is the replacement of every
/// occurrence of the key, taken from the left and not overlapping.
pub proof fn lemma_single_mapping_replaces_all(s: Seq<char>, key: Seq<char>, value: Seq<char>)
    ensures
        substitute(s, seq![(key, value)]) == replace_all(s, key, value),
{
    let mappings = seq![(key, value)];
    if key.len() == 0 {
        assert forall|k: int, at: int|
            0 <= k < mappings.len() && 0 <= at < s.len() implies (#[trigger] mappings[k]).0.len()
            == 0 || !#[trigger] occurs_at(s, at, mappings[k].0) by {}
        lemma_substitute_without_occurrence(s, mappings);
    } else {
        lemma_single_mapping_tail(s, 0, key, value);
        assert(s.skip(0) == s);
    }
}

proof fn lemma_single_mapping_tail(s: Seq<char>, at: int, key: Seq<char>, value: Seq<char>)
    requires
        0 <= at <= s.len(),
        key.len() > 0,
    ensures
        substitute_from(s, at, seq![(key, value)]) == replace_all(s.skip(at), key, value),
    decreases s.len() - at,
{
    let mappings = seq![(key, value)];
    let rest = s.skip(at);
    if at < s.len() {
        assert(mappings[0] == (key, value));
        if occurs_at(s, at, key) {
            assert(rest.subrange(0, key.len() as int) == s.subrange(at, at + key.len()));
            assert(occurs_at(rest, 0, key));
            assert(first_match(s, at, mappings, 0) == 0);
            lemma_single_mapping_tail(s, at + key.len(), key, value);
            assert(rest.skip(key.len() as int) == s.skip(at + key.len()));
        } else {
            if occurs_at(rest, 0, key) {
                assert(rest.subrange(0, key.len() as int) == s.subrange(at, at + key.len()));
            }
            assert(!occurs_at(rest, 0, key));
            assert(first_match(s, at, mappings, 1) == 1);
            assert(first_match(s, at, mappings, 0) == 1);
            lemma_single_mapping_tail(s, at + 1, key, value);
            assert(rest.skip(1) == s.skip(at + 1));
            assert(rest[0] == s[at]);
        }
    } else {
        assert(rest.len() == 0);
    }
}

} // verus!
