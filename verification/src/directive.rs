//! Directive lines: comments of the form `-- SQLNESS <NAME> <args>` that
//! stand before a query and ask for a named behaviour.

use crate::text::{
    copy_range, from_chars, is_whitespace, char_is_whitespace, occurs_at_chars, to_chars, trim,
    trim_chars,
};
use vstd::prelude::*;
use vstd::string::StringExecFns;

verus! {

/// What a directive line starts with.
pub const MARKER: &'static str = "-- SQLNESS";

/// What a directive line starts with, as characters.
pub open spec fn marker() -> Seq<char> {
    seq!['-', '-', ' ', 'S', 'Q', 'L', 'N', 'E', 'S', 'S']
}

/// The end of the run of non-white-space that starts at `from`.
pub open spec fn token_end(s: Seq<char>, from: int) -> int
    decreases s.len() - from,
{
    if 0 <= from < s.len() && !is_whitespace(s[from]) {
        token_end(s, from + 1)
    } else {
        from
    }
}

/// A directive: the name of a behaviour and the arguments for it.
pub struct Directive {
    /// The first word behind the marker.
    pub prefix: String,
    /// What follows the first word, without white space at either end.
    pub raw_args: String,
}

/// A directive as a pair of texts.
pub struct DirectiveView {
    pub prefix: Seq<char>,
    pub raw_args: Seq<char>,
}

impl View for Directive {
    type V = DirectiveView;

    open spec fn view(&self) -> DirectiveView {
        DirectiveView { prefix: self.prefix@, raw_args: self.raw_args@ }
    }
}

/// What is left of a directive line behind the marker, without white space
/// at either end.
pub open spec fn directive_body(line: Seq<char>) -> Seq<char> {
    trim(line.skip(marker().len() as int))
}

/// Whether `line` is a directive line: it starts with the marker, white
/// space follows the marker, and a word follows that.
pub open spec fn is_directive_line(line: Seq<char>) -> bool {
    &&& marker().is_prefix_of(line)
    &&& line.len() > marker().len()
    &&& is_whitespace(line[marker().len() as int])
    &&& directive_body(line).len() > 0
}

/// The directive that `line` holds, if it is a directive line: the first
/// word behind the marker, and the rest of the line without white space at
/// either end.
pub open spec fn parse_directive_spec(line: Seq<char>) -> Option<DirectiveView> {
    if is_directive_line(line) {
        let body = directive_body(line);
        let end = token_end(body, 0);
        Some(DirectiveView { prefix: body.take(end), raw_args: trim(body.skip(end)) })
    } else {
        None
    }
}

/// The text that a directive hands to the factories: its prefix, and
/// behind a single space its arguments if it has any.
pub open spec fn directive_text(directive: DirectiveView) -> Seq<char> {
    if directive.raw_args.len() == 0 {
        directive.prefix
    } else {
        directive.prefix + seq![' '] + directive.raw_args
    }
}

/// The end of the run of non-white-space at the start of `v`.
fn first_token_end(v: &Vec<char>) -> (r: usize)
    ensures
        r <= v.len(),
        r == token_end(v@, 0),
{
    let mut i: usize = 0;
    while i < v.len() && !char_is_whitespace(v[i])
        invariant
            i <= v.len(),
            token_end(v@, 0) == token_end(v@, i as int),
        decreases v.len() - i,
    {
        i += 1;
    }
    i
}

/// Reads one line. A line that is no directive line gives `None` and
/// belongs to the text around it.
pub fn parse_directive(line: &str) -> (r: Option<Directive>)
    ensures
        match r {
            Some(directive) => parse_directive_spec(line@) == Some(directive@),
            None => parse_directive_spec(line@) is None,
        },
{
    let chars = to_chars(line);
    let start = to_chars(MARKER);
    proof {
        reveal_strlit("-- SQLNESS");
        assert(start@ == marker());
    }
    if !occurs_at_chars(&chars, 0, &start) {
        return None;
    }
    if chars.len() == start.len() || !char_is_whitespace(chars[start.len()]) {
        return None;
    }
    let rest = copy_range(&chars, start.len(), chars.len());
    let body = trim_chars(&rest);
    if body.len() == 0 {
        return None;
    }
    let end = first_token_end(&body);
    let prefix = from_chars(&body, 0, end);
    let tail = copy_range(&body, end, body.len());
    let args = trim_chars(&tail);
    let raw_args = from_chars(&args, 0, args.len());
    assert(args@.subrange(0, args.len() as int) == args@);
    Some(Directive { prefix, raw_args })
}

impl Directive {
    /// The text that this directive hands to the factories.
    pub fn text(&self) -> (t: String)
        ensures
            t@ == directive_text(self@),
    {
        let mut t = self.prefix.clone();
        if self.raw_args.as_str().unicode_len() > 0 {
            t.append(" ");
            t.append(self.raw_args.as_str());
            proof {
                reveal_strlit(" ");
                assert(" "@ == seq![' ']);
            }
        }
        t
    }
}

} // verus!
