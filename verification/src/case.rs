//! Case files: queries with their directives and the output expected of
//! them, as lines of text.
//!
//! A file is cut into lines at every line feed. A line is blank, a
//! directive line, or text. A case is a run of blank and directive lines,
//! then a run of text (the query), then a run of blank lines, then, if
//! there was a blank line, a run of text (the expected output). Each run
//! takes all the lines it can, and the next case starts where the last
//! one ends. Every line of the file belongs to one case or to the blank
//! lines at the end, so a file can be written back as it was read.

use crate::directive::{is_directive_line, parse_directive};
use crate::text::{
    is_blank, join, join_lines, lemma_join_split, line_is_blank, lines_view, split, split_chars,
    to_chars,
};
use vstd::prelude::*;

verus! {

/// What a line of a case file is.
#[derive(Debug, Clone, Copy, PartialEq, Eq, Structural)]
pub enum LineKind {
    /// Nothing but white space.
    Blank,
    /// A directive for the query that follows.
    Directive,
    /// Anything else: part of a query or of an expected output.
    Text,
}

/// The parts of a case, each a run of lines of a certain kind.
#[derive(Debug, Clone, Copy, PartialEq, Eq, Structural)]
pub enum Run {
    /// Blank lines and directive lines before a query.
    Leading,
    /// Lines of text.
    Body,
    /// Blank lines.
    Gap,
}

/// Why a case file could not be read.
#[derive(Debug, Clone, Copy, PartialEq, Eq, Structural)]
pub enum ParseError {
    /// A directive stands where no query follows. `line` is the number of
    /// the first line, counted from one, after which only directives and
    /// blank lines are left.
    DanglingDirective { line: usize },
}

/// One query with what stands around it in the file.
pub struct Case {
    /// The blank lines and directive lines before the query.
    pub leading: Vec<String>,
    /// The lines of the query.
    pub query_lines: Vec<String>,
    /// The blank lines between the query and the expected output.
    pub separator: Vec<String>,
    /// The lines of the expected output.
    pub expected_lines: Vec<String>,
}

/// A case as sequences of lines.
pub struct CaseView {
    pub leading: Seq<Seq<char>>,
    pub query_lines: Seq<Seq<char>>,
    pub separator: Seq<Seq<char>>,
    pub expected_lines: Seq<Seq<char>>,
}

impl View for Case {
    type V = CaseView;

    open spec fn view(&self) -> CaseView {
        CaseView {
            leading: lines_view(self.leading@),
            query_lines: lines_view(self.query_lines@),
            separator: lines_view(self.separator@),
            expected_lines: lines_view(self.expected_lines@),
        }
    }
}

/// A case file: its cases in order, and the blank lines behind the last.
pub struct CaseFile {
    pub cases: Vec<Case>,
    pub trailer: Vec<String>,
}

/// A case file as sequences of lines.
pub struct CaseFileView {
    pub cases: Seq<CaseView>,
    pub trailer: Seq<Seq<char>>,
}

/// The views of a sequence of cases.
pub open spec fn cases_view(cases: Seq<Case>) -> Seq<CaseView> {
    Seq::new(cases.len(), |i: int| cases[i]@)
}

impl View for CaseFile {
    type V = CaseFileView;

    open spec fn view(&self) -> CaseFileView {
        CaseFileView { cases: cases_view(self.cases@), trailer: lines_view(self.trailer@) }
    }
}

/// The kind of a line.
pub open spec fn line_kind(line: Seq<char>) -> LineKind {
    if is_blank(line) {
        LineKind::Blank
    } else if is_directive_line(line) {
        LineKind::Directive
    } else {
        LineKind::Text
    }
}

/// Whether a line of kind `kind` may stand in the run `run`.
pub open spec fn belongs(kind: LineKind, run: Run) -> bool {
    match run {
        Run::Leading => kind != LineKind::Text,
        Run::Body => kind == LineKind::Text,
        Run::Gap => kind == LineKind::Blank,
    }
}

/// Where the run `run` that starts at `from` ends: the first index at or
/// after `from` whose line does not belong to it, or the number of lines.
pub open spec fn run_end(lines: Seq<Seq<char>>, from: int, run: Run) -> int
    decreases lines.len() - from,
{
    if 0 <= from < lines.len() && belongs(line_kind(lines[from]), run) {
        run_end(lines, from + 1, run)
    } else {
        from
    }
}

/// Where the expected output of a case ends whose query ends at
/// `query_end` and whose separator ends at `gap_end`. Without a separator
/// there is no expected output.
pub open spec fn expected_end(lines: Seq<Seq<char>>, query_end: int, gap_end: int) -> int {
    if gap_end > query_end {
        run_end(lines, gap_end, Run::Body)
    } else {
        query_end
    }
}

/// The cases in `lines[from..]`, and the blank lines behind the last.
///
/// Where only blank lines and directives are left, the cases end. A
/// directive among them is an error: no query follows it.
pub open spec fn parse_cases(lines: Seq<Seq<char>>, from: int) -> Result<CaseFileView, ParseError>
    decreases lines.len() - from,
{
    let lead_end = run_end(lines, from, Run::Leading);
    let query_end = run_end(lines, lead_end, Run::Body);
    let gap_end = run_end(lines, query_end, Run::Gap);
    let end = expected_end(lines, query_end, gap_end);
    if 0 <= from <= lead_end < lines.len() && from < end <= lines.len() {
        let case = CaseView {
            leading: lines.subrange(from, lead_end),
            query_lines: lines.subrange(lead_end, query_end),
            separator: lines.subrange(query_end, gap_end),
            expected_lines: lines.subrange(gap_end, end),
        };
        match parse_cases(lines, end) {
            Ok(rest) => Ok(CaseFileView { cases: seq![case] + rest.cases, trailer: rest.trailer }),
            Err(e) => Err(e),
        }
    } else {
        let stray = run_end(lines, from, Run::Gap);
        if 0 <= stray < lines.len() {
            Err(ParseError::DanglingDirective { line: (stray + 1) as usize })
        } else {
            Ok(CaseFileView { cases: Seq::empty(), trailer: lines.skip(from) })
        }
    }
}

/// What a text holds as a case file.
pub open spec fn parse_file_spec(text: Seq<char>) -> Result<CaseFileView, ParseError> {
    parse_cases(split(text, '\n'), 0)
}

/// The lines of a case, in the order in which the file has them.
pub open spec fn case_lines(case: CaseView) -> Seq<Seq<char>> {
    case.leading + case.query_lines + case.separator + case.expected_lines
}

/// The lines of some cases, in the order in which the file has them.
pub open spec fn all_lines(cases: Seq<CaseView>) -> Seq<Seq<char>>
    decreases cases.len(),
{
    if cases.len() == 0 {
        Seq::empty()
    } else {
        all_lines(cases.drop_last()) + case_lines(cases.last())
    }
}

/// The lines of a case file.
pub open spec fn file_lines(file: CaseFileView) -> Seq<Seq<char>> {
    all_lines(file.cases) + file.trailer
}

/// The text of a case file: its lines with a line feed between each two.
pub open spec fn render_spec(file: CaseFileView) -> Seq<char> {
    join(file_lines(file), '\n')
}

/// The expected output of a case as one text.
pub open spec fn expected_output_spec(case: CaseView) -> Seq<char> {
    join(case.expected_lines, '\n')
}

/// The case with `actual` as its expected output. Where the case had no
/// blank line behind its query and now needs one, an empty line is put
/// in.
pub open spec fn accepted(case: CaseView, actual: Seq<char>) -> CaseView {
    CaseView {
        leading: case.leading,
        query_lines: case.query_lines,
        separator: if actual.len() > 0 && case.separator.len() == 0 {
            seq![Seq::<char>::empty()]
        } else {
            case.separator
        },
        expected_lines: if actual.len() == 0 {
            Seq::empty()
        } else {
            split(actual, '\n')
        },
    }
}

/// Whether the parts of a case hold lines of the kinds that they are for:
/// a query of at least one line of text, blank lines behind it, and an
/// expected output only behind a blank line.
pub open spec fn well_formed(case: CaseView) -> bool {
    &&& forall|i: int|
        0 <= i < case.leading.len() ==> line_kind(#[trigger] case.leading[i]) != LineKind::Text
    &&& case.query_lines.len() > 0
    &&& forall|i: int|
        0 <= i < case.query_lines.len() ==> line_kind(#[trigger] case.query_lines[i])
            == LineKind::Text
    &&& forall|i: int|
        0 <= i < case.separator.len() ==> line_kind(#[trigger] case.separator[i])
            == LineKind::Blank
    &&& forall|i: int|
        0 <= i < case.expected_lines.len() ==> line_kind(#[trigger] case.expected_lines[i])
            == LineKind::Text
    &&& case.expected_lines.len() > 0 ==> case.separator.len() > 0
}

/// A run ends at or after its start, within the lines, before a line that
/// does not belong to it, and holds only lines that do.
pub proof fn lemma_run_end(lines: Seq<Seq<char>>, from: int, run: Run)
    requires
        0 <= from <= lines.len(),
    ensures
        from <= run_end(lines, from, run) <= lines.len(),
        run_end(lines, from, run) < lines.len() ==> !belongs(
            line_kind(lines[run_end(lines, from, run)]),
            run,
        ),
        forall|i: int|
            from <= i < run_end(lines, from, run) ==> belongs(line_kind(#[trigger] lines[i]), run),
    decreases lines.len() - from,
{
    if from < lines.len() && belongs(line_kind(lines[from]), run) {
        lemma_run_end(lines, from + 1, run);
    }
}

/// The lines of some cases behind one case are the lines of the one
/// followed by the lines of the others.
pub proof fn lemma_all_lines_prepend(case: CaseView, rest: Seq<CaseView>)
    ensures
        all_lines(seq![case] + rest) == case_lines(case) + all_lines(rest),
    decreases rest.len(),
{
    let whole = seq![case] + rest;
    if rest.len() == 0 {
        assert(whole.drop_last() == Seq::<CaseView>::empty());
        assert(all_lines(whole.drop_last()) == Seq::<Seq<char>>::empty());
        assert(all_lines(whole) == Seq::<Seq<char>>::empty() + case_lines(case));
        assert(case_lines(case) + all_lines(rest) == case_lines(case));
        assert(Seq::<Seq<char>>::empty() + case_lines(case) == case_lines(case));
    } else {
        lemma_all_lines_prepend(case, rest.drop_last());
        assert(whole.drop_last() == seq![case] + rest.drop_last());
        assert(whole.last() == rest.last());
        assert((case_lines(case) + all_lines(rest.drop_last())) + case_lines(rest.last())
            == case_lines(case) + (all_lines(rest.drop_last()) + case_lines(rest.last())));
    }
}

/// Reading loses no line: the lines of what was read are the lines that
/// were there, in their order.
pub proof fn lemma_parse_keeps_lines(lines: Seq<Seq<char>>, from: int)
    requires
        0 <= from <= lines.len(),
        parse_cases(lines, from) is Ok,
    ensures
        file_lines(parse_cases(lines, from).unwrap()) == lines.skip(from),
    decreases lines.len() - from,
{
    let lead_end = run_end(lines, from, Run::Leading);
    let query_end = run_end(lines, lead_end, Run::Body);
    let gap_end = run_end(lines, query_end, Run::Gap);
    let end = expected_end(lines, query_end, gap_end);
    lemma_run_end(lines, from, Run::Leading);
    lemma_run_end(lines, lead_end, Run::Body);
    lemma_run_end(lines, query_end, Run::Gap);
    if gap_end > query_end {
        lemma_run_end(lines, gap_end, Run::Body);
    }
    if lead_end < lines.len() && from < end {
        let case = CaseView {
            leading: lines.subrange(from, lead_end),
            query_lines: lines.subrange(lead_end, query_end),
            separator: lines.subrange(query_end, gap_end),
            expected_lines: lines.subrange(gap_end, end),
        };
        let rest = parse_cases(lines, end).unwrap();
        lemma_parse_keeps_lines(lines, end);
        lemma_all_lines_prepend(case, rest.cases);
        assert(case_lines(case) == lines.subrange(from, end));
        assert((lines.subrange(from, end) + all_lines(rest.cases)) + rest.trailer
            == lines.subrange(from, end) + (all_lines(rest.cases) + rest.trailer));
        assert(lines.subrange(from, end) + lines.skip(end) == lines.skip(from));
    } else {
        assert(Seq::<Seq<char>>::empty() + lines.skip(from) == lines.skip(from));
    }
}

/// Every case that was read is well formed.
pub proof fn lemma_parsed_cases_well_formed(lines: Seq<Seq<char>>, from: int)
    requires
        0 <= from <= lines.len(),
        parse_cases(lines, from) is Ok,
    ensures
        forall|i: int|
            0 <= i < parse_cases(lines, from).unwrap().cases.len() ==> well_formed(
                #[trigger] parse_cases(lines, from).unwrap().cases[i],
            ),
        forall|i: int|
            0 <= i < parse_cases(lines, from).unwrap().trailer.len() ==> line_kind(
                #[trigger] parse_cases(lines, from).unwrap().trailer[i],
            ) == LineKind::Blank,
    decreases lines.len() - from,
{
    let lead_end = run_end(lines, from, Run::Leading);
    let query_end = run_end(lines, lead_end, Run::Body);
    let gap_end = run_end(lines, query_end, Run::Gap);
    let end = expected_end(lines, query_end, gap_end);
    lemma_run_end(lines, from, Run::Leading);
    lemma_run_end(lines, lead_end, Run::Body);
    lemma_run_end(lines, query_end, Run::Gap);
    if gap_end > query_end {
        lemma_run_end(lines, gap_end, Run::Body);
    }
    let parsed = parse_cases(lines, from).unwrap();
    if lead_end < lines.len() && from < end {
        let case = CaseView {
            leading: lines.subrange(from, lead_end),
            query_lines: lines.subrange(lead_end, query_end),
            separator: lines.subrange(query_end, gap_end),
            expected_lines: lines.subrange(gap_end, end),
        };
        let rest = parse_cases(lines, end).unwrap();
        lemma_parsed_cases_well_formed(lines, end);
        assert(well_formed(case));
        assert forall|i: int| 0 <= i < parsed.cases.len() implies well_formed(
            #[trigger] parsed.cases[i],
        ) by {
            if i > 0 {
                assert(parsed.cases[i] == rest.cases[i - 1]);
            }
        }
    } else {
        lemma_run_end(lines, from, Run::Gap);
    }
}

/// What is read from a text is written back as that text.
pub proof fn lemma_render_parsed(text: Seq<char>)
    requires
        parse_file_spec(text) is Ok,
    ensures
        render_spec(parse_file_spec(text).unwrap()) == text,
{
    let lines = split(text, '\n');
    lemma_parse_keeps_lines(lines, 0);
    assert(lines.skip(0) == lines);
    lemma_join_split(text, '\n');
}

/// A case that takes an output as its expectation expects that output.
pub proof fn lemma_accepted_expects(case: CaseView, actual: Seq<char>)
    ensures
        expected_output_spec(accepted(case, actual)) == actual,
{
    lemma_join_split(actual, '\n');
}

/// The kind of a line.
pub fn classify(line: &str) -> (kind: LineKind)
    ensures
        kind == line_kind(line@),
{
    if line_is_blank(line) {
        LineKind::Blank
    } else {
        match parse_directive(line) {
            Some(_) => LineKind::Directive,
            None => LineKind::Text,
        }
    }
}

/// The kinds of the lines.
fn classify_all(lines: &Vec<String>) -> (kinds: Vec<LineKind>)
    ensures
        kinds.len() == lines.len(),
        forall|i: int| 0 <= i < lines.len() ==> #[trigger] kinds@[i] == line_kind(lines@[i]@),
{
    let mut kinds: Vec<LineKind> = Vec::new();
    let mut i: usize = 0;
    while i < lines.len()
        invariant
            i <= lines.len(),
            kinds.len() == i,
            forall|j: int| 0 <= j < i ==> #[trigger] kinds@[j] == line_kind(lines@[j]@),
        decreases lines.len() - i,
    {
        kinds.push(classify(lines[i].as_str()));
        i += 1;
    }
    kinds
}

/// Whether a line of kind `kind` may stand in the run `run`.
fn kind_belongs(kind: LineKind, run: Run) -> (b: bool)
    ensures
        b == belongs(kind, run),
{
    match run {
        Run::Leading => !matches!(kind, LineKind::Text),
        Run::Body => matches!(kind, LineKind::Text),
        Run::Gap => matches!(kind, LineKind::Blank),
    }
}

/// Where the run `run` that starts at `from` ends.
fn scan(kinds: &Vec<LineKind>, from: usize, run: Run, Ghost(lines): Ghost<Seq<Seq<char>>>) -> (end:
    usize)
    requires
        from <= kinds.len(),
        kinds.len() == lines.len(),
        forall|i: int| 0 <= i < lines.len() ==> #[trigger] kinds@[i] == line_kind(lines[i]),
    ensures
        end == run_end(lines, from as int, run),
        from <= end <= kinds.len(),
{
    let mut i: usize = from;
    while i < kinds.len() && kind_belongs(kinds[i], run)
        invariant
            from <= i <= kinds.len(),
            kinds.len() == lines.len(),
            forall|j: int| 0 <= j < lines.len() ==> #[trigger] kinds@[j] == line_kind(lines[j]),
            run_end(lines, from as int, run) == run_end(lines, i as int, run),
        decreases kinds.len() - i,
    {
        i += 1;
    }
    i
}

/// The lines `lines[from..to]` as a vector of their own.
pub fn copy_lines(lines: &Vec<String>, from: usize, to: usize) -> (r: Vec<String>)
    requires
        from <= to <= lines.len(),
    ensures
        lines_view(r@) == lines_view(lines@).subrange(from as int, to as int),
{
    let mut r: Vec<String> = Vec::new();
    let mut i: usize = from;
    while i < to
        invariant
            from <= i <= to <= lines.len(),
            r.len() == i - from,
            forall|j: int| 0 <= j < r.len() ==> (#[trigger] r@[j])@ == lines@[from + j]@,
        decreases to - i,
    {
        r.push(lines[i].clone());
        i += 1;
    }
    assert(lines_view(r@) =~= lines_view(lines@).subrange(from as int, to as int));
    r
}

/// What a parse of the lines behind some cases gives, with those cases
/// put in front.
pub open spec fn prepend(done: Seq<CaseView>, rest: Result<CaseFileView, ParseError>) -> Result<
    CaseFileView,
    ParseError,
> {
    match rest {
        Ok(file) => Ok(CaseFileView { cases: done + file.cases, trailer: file.trailer }),
        Err(e) => Err(e),
    }
}

/// Reads a case file. Every text is a case file but one in which a
/// directive stands behind the last query.
pub fn parse_case_file(text: &str) -> (r: Result<CaseFile, ParseError>)
    ensures
        match r {
            Ok(file) => parse_file_spec(text@) == Ok::<CaseFileView, ParseError>(file@),
            Err(e) => parse_file_spec(text@) == Err::<CaseFileView, ParseError>(e),
        },
{
    let chars = to_chars(text);
    let lines = split_chars(&chars, '\n');
    let kinds = classify_all(&lines);
    let ghost all = lines_view(lines@);
    let mut cases: Vec<Case> = Vec::new();
    let mut pos: usize = 0;
    proof {
        let whole = parse_cases(all, 0);
        assert(prepend(cases_view(cases@), whole) == whole) by {
            if whole is Ok {
                assert(cases_view(cases@) + whole.unwrap().cases == whole.unwrap().cases);
            }
        }
    }
    loop
        invariant
            pos <= lines.len(),
            all == lines_view(lines@),
            all == split(text@, '\n'),
            kinds.len() == lines.len(),
            forall|i: int| 0 <= i < all.len() ==> #[trigger] kinds@[i] == line_kind(all[i]),
            parse_cases(all, 0) == prepend(cases_view(cases@), parse_cases(all, pos as int)),
        decreases lines.len() - pos,
    {
        let lead_end = scan(&kinds, pos, Run::Leading, Ghost(all));
        let query_end = scan(&kinds, lead_end, Run::Body, Ghost(all));
        let gap_end = scan(&kinds, query_end, Run::Gap, Ghost(all));
        let end = if gap_end > query_end {
            scan(&kinds, gap_end, Run::Body, Ghost(all))
        } else {
            query_end
        };
        proof {
            lemma_run_end(all, pos as int, Run::Leading);
            lemma_run_end(all, lead_end as int, Run::Body);
        }
        if lead_end == lines.len() {
            let stray = scan(&kinds, pos, Run::Gap, Ghost(all));
            if stray < lines.len() {
                return Err(ParseError::DanglingDirective { line: stray + 1 });
            }
            let trailer = copy_lines(&lines, pos, lines.len());
            proof {
                assert(all.subrange(pos as int, all.len() as int) == all.skip(pos as int));
                assert(cases_view(cases@) + Seq::<CaseView>::empty() == cases_view(cases@));
            }
            return Ok(CaseFile { cases, trailer });
        }
        let case = Case {
            leading: copy_lines(&lines, pos, lead_end),
            query_lines: copy_lines(&lines, lead_end, query_end),
            separator: copy_lines(&lines, query_end, gap_end),
            expected_lines: copy_lines(&lines, gap_end, end),
        };
        proof {
            let done = cases_view(cases@);
            let next = parse_cases(all, end as int);
            assert(cases_view(cases@.push(case)) == done.push(case@));
            if next is Ok {
                assert(done + (seq![case@] + next.unwrap().cases) == done.push(case@)
                    + next.unwrap().cases);
            }
        }
        cases.push(case);
        pos = end;
    }
}

impl Case {
    /// The expected output as one text.
    pub fn expected_output(&self) -> (text: String)
        ensures
            text@ == expected_output_spec(self@),
    {
        join_lines(&self.expected_lines, '\n')
    }

    /// Takes `actual_output` as what is expected from now on.
    pub fn accept(&mut self, actual_output: &str)
        ensures
            final(self)@ == accepted(old(self)@, actual_output@),
    {
        let chars = to_chars(actual_output);
        if chars.len() == 0 {
            self.expected_lines = Vec::new();
            assert(lines_view(self.expected_lines@) == Seq::<Seq<char>>::empty());
        } else {
            self.expected_lines = split_chars(&chars, '\n');
            if self.separator.len() == 0 {
                let mut separator: Vec<String> = Vec::new();
                separator.push(String::new());
                assert(lines_view(separator@) == seq![Seq::<char>::empty()]);
                self.separator = separator;
            }
        }
    }
}

impl CaseFile {
    /// The text of the file.
    pub fn render(&self) -> (text: String)
        ensures
            text@ == render_spec(self@),
    {
        let mut lines: Vec<String> = Vec::new();
        let mut i: usize = 0;
        let ghost cases = cases_view(self.cases@);
        assert(cases.take(0) == Seq::<CaseView>::empty());
        while i < self.cases.len()
            invariant
                i <= self.cases.len(),
                cases == cases_view(self.cases@),
                lines_view(lines@) == all_lines(cases.take(i as int)),
            decreases self.cases.len() - i,
        {
            let case = &self.cases[i];
            proof {
                assert(cases.take(i + 1).drop_last() == cases.take(i as int));
                assert(cases.take(i + 1).last() == case@);
            }
            let ghost before = lines_view(lines@);
            append_lines(&mut lines, &case.leading);
            append_lines(&mut lines, &case.query_lines);
            append_lines(&mut lines, &case.separator);
            append_lines(&mut lines, &case.expected_lines);
            assert(lines_view(lines@) == before + case_lines(case@));
            i += 1;
        }
        assert(cases.take(i as int) == cases);
        append_lines(&mut lines, &self.trailer);
        join_lines(&lines, '\n')
    }
}

/// Puts copies of `more` behind `lines`.
fn append_lines(lines: &mut Vec<String>, more: &Vec<String>)
    ensures
        lines_view(final(lines)@) == lines_view(old(lines)@) + lines_view(more@),
{
    let mut i: usize = 0;
    let ghost before = lines_view(lines@);
    assert(lines_view(more@).take(0) == Seq::<Seq<char>>::empty());
    assert(before + Seq::<Seq<char>>::empty() == before);
    while i < more.len()
        invariant
            i <= more.len(),
            lines_view(lines@) == before + lines_view(more@).take(i as int),
        decreases more.len() - i,
    {
        let ghost so_far = lines@;
        lines.push(more[i].clone());
        assert(lines_view(lines@) == lines_view(so_far).push(more@[i as int]@));
        assert(lines_view(more@).take(i + 1) == lines_view(more@).take(i as int).push(
            more@[i as int]@,
        ));
        i += 1;
    }
    assert(lines_view(more@).take(i as int) == lines_view(more@));
}

} // verus!
