//! Running one case: from its directives to a chain of interceptors, from
//! its query to the text that is submitted, and from the raw output to a
//! verdict.
//!
//! The query is run by whoever calls this module. [`prepare`] says what to
//! submit, and [`Session::conclude`] takes what came back.

use crate::case::{accepted, copy_lines, expected_output_spec, Case, CaseFile, CaseFileView, CaseView,
    cases_view, lemma_render_parsed, parse_file_spec, render_spec};
use crate::context::QueryContext;
use crate::diff::{diff, diff_text};
use crate::directive::{directive_text, parse_directive, parse_directive_spec};
use crate::interceptor::env::EnvInterceptorFactory;
use crate::interceptor::{
    behaves_as, first_accepting, resolved, Behaviour, HookFault, Interceptor, InterceptorFactory, QueryState,
    Registry, ResultState,
};
use crate::text::{join, join_lines, lines_view};
use vstd::prelude::*;

verus! {

/// The side of the execution on which a hook stands.
#[derive(Debug, Clone, Copy, PartialEq, Eq, Structural)]
pub enum Phase {
    /// Before the query is run.
    Before,
    /// After the query was run.
    After,
}

/// A hook could not complete, so the case has no verdict. This is no
/// mismatch of outputs, and it ends this case only.
pub struct ReconcileError {
    /// The side on which the hook stands.
    pub phase: Phase,
    /// The place of its interceptor in the chain, counted from zero.
    pub index: usize,
    /// What the hook gave as its reason.
    pub fault: HookFault,
}

/// The verdict on one case.
pub struct ReconciliationResult<'a> {
    /// The case that was run.
    pub case: &'a Case,
    /// Whether the actual output is the expected output.
    pub passed: bool,
    /// The output once every hook after execution has run.
    pub actual_output: String,
    /// The difference between expected and actual output, where there is
    /// one.
    pub diff: Option<String>,
}

/// A verdict as plain texts.
pub struct ResultView {
    pub case: CaseView,
    pub passed: bool,
    pub actual_output: Seq<char>,
    pub diff: Option<Seq<char>>,
}

impl<'a> View for ReconciliationResult<'a> {
    type V = ResultView;

    open spec fn view(&self) -> ResultView {
        ResultView {
            case: self.case@,
            passed: self.passed,
            actual_output: self.actual_output@,
            diff: match self.diff {
                Some(d) => Some(d@),
                None => None,
            },
        }
    }
}

/// The verdict on an actual output held against the expected output of a
/// case: they are the same text, or they are not and differ as the
/// difference says.
pub open spec fn verdict(case: CaseView, actual: Seq<char>) -> ResultView {
    let expected = expected_output_spec(case);
    if actual == expected {
        ResultView { case, passed: true, actual_output: actual, diff: None }
    } else {
        ResultView {
            case,
            passed: false,
            actual_output: actual,
            diff: Some(diff_text(expected, actual)),
        }
    }
}

/// The behaviours of the interceptors that the directives among `lines`
/// ask for, in the order of the lines. A line that is no directive, and a
/// directive that no factory takes, add nothing.
pub open spec fn chain_plan<F: InterceptorFactory>(
    factories: Seq<F>,
    lines: Seq<Seq<char>>,
) -> Seq<Behaviour>
    decreases lines.len(),
{
    if lines.len() == 0 {
        Seq::empty()
    } else {
        let rest = chain_plan(factories, lines.drop_last());
        match parse_directive_spec(lines.last()) {
            Some(directive) => match resolved(factories, directive_text(directive)) {
                Some(behaviour) => rest.push(behaviour),
                None => rest,
            },
            None => rest,
        }
    }
}

/// The texts of the directives among `lines` that no factory takes, in
/// the order of the lines.
pub open spec fn unresolved_spec<F: InterceptorFactory>(
    factories: Seq<F>,
    lines: Seq<Seq<char>>,
) -> Seq<Seq<char>>
    decreases lines.len(),
{
    if lines.len() == 0 {
        Seq::empty()
    } else {
        let rest = unresolved_spec(factories, lines.drop_last());
        match parse_directive_spec(lines.last()) {
            Some(directive) => match resolved(factories, directive_text(directive)) {
                Some(_) => rest,
                None => rest.push(directive_text(directive)),
            },
            None => rest,
        }
    }
}

/// The texts of the directives among `lines` that a factory takes, in the
/// order of the lines: one for each interceptor of the chain.
pub open spec fn resolved_texts<F: InterceptorFactory>(
    factories: Seq<F>,
    lines: Seq<Seq<char>>,
) -> Seq<Seq<char>>
    decreases lines.len(),
{
    if lines.len() == 0 {
        Seq::empty()
    } else {
        let rest = resolved_texts(factories, lines.drop_last());
        match parse_directive_spec(lines.last()) {
            Some(directive) => match resolved(factories, directive_text(directive)) {
                Some(_) => rest.push(directive_text(directive)),
                None => rest,
            },
            None => rest,
        }
    }
}

/// Whether each interceptor of `chain` holds what the first factory that
/// takes its text builds from that text.
pub open spec fn chain_built<F: InterceptorFactory>(
    chain: Seq<F::Built>,
    factories: Seq<F>,
    texts: Seq<Seq<char>>,
) -> bool {
    &&& chain.len() == texts.len()
    &&& forall|i: int|
        0 <= i < chain.len() ==> factories[first_accepting(factories, texts[i], 0)].builds(
            texts[i],
            #[trigger] chain[i],
        )
}

/// Whether the interceptors of `chain` behave, one by one, as `plan` says.
pub open spec fn chain_matches<I: Interceptor>(chain: Seq<I>, plan: Seq<Behaviour>) -> bool {
    &&& chain.len() == plan.len()
    &&& forall|i: int| 0 <= i < chain.len() ==> behaves_as(#[trigger] chain[i], plan[i])
}

/// What the hooks before execution make of a query, one after the other
/// in the order of the chain, each on what the one before it left. `None`
/// if one of them cannot complete.
pub open spec fn before_all(plan: Seq<Behaviour>, state: QueryState) -> Option<QueryState>
    decreases plan.len(),
{
    if plan.len() == 0 {
        Some(state)
    } else {
        match before_all(plan.drop_last(), state) {
            Some(mid) => (plan.last().before)(mid),
            None => None,
        }
    }
}

/// What the hooks after execution make of an output, one after the other
/// in the order of the chain. `None` if one of them cannot complete.
pub open spec fn after_all(plan: Seq<Behaviour>, state: ResultState) -> Option<ResultState>
    decreases plan.len(),
{
    if plan.len() == 0 {
        Some(state)
    } else {
        match after_all(plan.drop_last(), state) {
            Some(mid) => (plan.last().after)(mid),
            None => None,
        }
    }
}

/// Once a hook before execution has failed, the chain has failed.
pub proof fn lemma_before_fault_sticks(plan: Seq<Behaviour>, n: int, state: QueryState)
    requires
        0 <= n <= plan.len(),
        before_all(plan.take(n), state) is None,
    ensures
        before_all(plan, state) is None,
    decreases plan.len() - n,
{
    if n < plan.len() {
        assert(plan.take(n + 1).drop_last() == plan.take(n));
        lemma_before_fault_sticks(plan, n + 1, state);
    } else {
        assert(plan.take(n) == plan);
    }
}

/// Once a hook after execution has failed, the chain has failed.
pub proof fn lemma_after_fault_sticks(plan: Seq<Behaviour>, n: int, state: ResultState)
    requires
        0 <= n <= plan.len(),
        after_all(plan.take(n), state) is None,
    ensures
        after_all(plan, state) is None,
    decreases plan.len() - n,
{
    if n < plan.len() {
        assert(plan.take(n + 1).drop_last() == plan.take(n));
        lemma_after_fault_sticks(plan, n + 1, state);
    } else {
        assert(plan.take(n) == plan);
    }
}

/// The state in which the hooks before execution find a case: its query,
/// and a context that holds nothing.
pub open spec fn initial_state(case: CaseView) -> QueryState {
    (case.query_lines, Map::empty())
}

/// The interceptors that the directives of `case` ask for, in the order of
/// the directives. A directive that no factory takes is passed over.
pub fn build_chain<F: InterceptorFactory>(registry: &Registry<F>, case: &Case) -> (chain: Vec<
    F::Built,
>)
    ensures
        chain_matches(chain@, chain_plan(registry.factories(), case@.leading)),
        chain_built(
            chain@,
            registry.factories(),
            resolved_texts(registry.factories(), case@.leading),
        ),
{
    let mut chain: Vec<F::Built> = Vec::new();
    let ghost lines = lines_view(case.leading@);
    let ghost factories = registry.factories();
    let mut i: usize = 0;
    assert(lines.take(0) == Seq::<Seq<char>>::empty());
    while i < case.leading.len()
        invariant
            i <= case.leading.len(),
            lines == lines_view(case.leading@),
            factories == registry.factories(),
            chain_matches(chain@, chain_plan(factories, lines.take(i as int))),
            chain_built(chain@, factories, resolved_texts(factories, lines.take(i as int))),
        decreases case.leading.len() - i,
    {
        proof {
            assert(lines.take(i + 1).drop_last() == lines.take(i as int));
            assert(lines.take(i + 1).last() == case.leading@[i as int]@);
        }
        match parse_directive(case.leading[i].as_str()) {
            Some(directive) => {
                let text = directive.text();
                match registry.resolve(text.as_str()) {
                    Some(built) => {
                        let ghost before = chain@;
                        let ghost texts = resolved_texts(factories, lines.take(i as int));
                        chain.push(built);
                        proof {
                            let after = chain@;
                            let more = texts.push(text@);
                            assert forall|j: int| 0 <= j < after.len() implies factories[first_accepting(
                                factories,
                                more[j],
                                0,
                            )].builds(more[j], #[trigger] after[j]) by {
                                if j < before.len() {
                                    assert(after[j] == before[j]);
                                    assert(more[j] == texts[j]);
                                }
                            }
                        }
                    },
                    None => {},
                }
            },
            None => {},
        }
        i += 1;
    }
    assert(lines.take(i as int) == lines);
    chain
}

/// The texts of the directives of `case` that no factory takes, in their
/// order. Such a directive adds nothing to the chain and stops nothing,
/// but it is often a slip of the pen and worth a warning.
pub fn unresolved<F: InterceptorFactory>(registry: &Registry<F>, case: &Case) -> (texts: Vec<
    String,
>)
    ensures
        lines_view(texts@) == unresolved_spec(registry.factories(), case@.leading),
{
    let mut texts: Vec<String> = Vec::new();
    let ghost lines = lines_view(case.leading@);
    let ghost factories = registry.factories();
    let mut i: usize = 0;
    assert(lines.take(0) == Seq::<Seq<char>>::empty());
    while i < case.leading.len()
        invariant
            i <= case.leading.len(),
            lines == lines_view(case.leading@),
            factories == registry.factories(),
            lines_view(texts@) == unresolved_spec(factories, lines.take(i as int)),
        decreases case.leading.len() - i,
    {
        proof {
            assert(lines.take(i + 1).drop_last() == lines.take(i as int));
            assert(lines.take(i + 1).last() == case.leading@[i as int]@);
        }
        match parse_directive(case.leading[i].as_str()) {
            Some(directive) => {
                let text = directive.text();
                match registry.resolve(text.as_str()) {
                    Some(_) => {},
                    None => {
                        assert(lines_view(texts@.push(text)) == lines_view(texts@).push(text@));
                        texts.push(text);
                    },
                }
            },
            None => {},
        }
        i += 1;
    }
    assert(lines.take(i as int) == lines);
    texts
}

/// One case whose query is ready to be run and whose verdict is still
/// open: the chain of its interceptors, the query as the hooks before
/// execution left it, and the context that they share with the hooks
/// after.
pub struct Session<'a, I: Interceptor> {
    case: &'a Case,
    chain: Vec<I>,
    context: QueryContext,
    query: Vec<String>,
    plan: Ghost<Seq<Behaviour>>,
}

impl<'a, I: Interceptor> Session<'a, I> {
    #[verifier::type_invariant]
    spec fn chain_follows_plan(&self) -> bool {
        chain_matches(self.chain@, self.plan@)
    }

    /// The case that is run.
    pub closed spec fn case(&self) -> CaseView {
        self.case@
    }

    /// The behaviours of the interceptors of the chain, in order.
    pub closed spec fn plan(&self) -> Seq<Behaviour> {
        self.plan@
    }

    /// The lines of the query to submit.
    pub closed spec fn query(&self) -> Seq<Seq<char>> {
        lines_view(self.query@)
    }

    /// What the hooks before execution left in the context.
    pub closed spec fn context(&self) -> Map<Seq<char>, Seq<char>> {
        self.context@
    }

    /// The text to submit: the lines of the query with a line feed between
    /// each two.
    pub fn query_text(&self) -> (text: String)
        ensures
            text@ == join(self.query(), '\n'),
    {
        join_lines(&self.query, '\n')
    }

    /// Takes the raw output of the query, lets every hook after execution
    /// rewrite it in the order of the chain, and holds the outcome against
    /// the expected output of the case.
    pub fn conclude(self, raw_output: String) -> (r: Result<
        ReconciliationResult<'a>,
        ReconcileError,
    >)
        ensures
            match after_all(self.plan(), (raw_output@, self.context())) {
                Some(out) => r matches Ok(result) && concluded_from(result@, self, raw_output@),
                None => r matches Err(e) && e.phase == Phase::After && e.index < self.plan().len()
                    && after_all(self.plan().take(e.index as int), (raw_output@, self.context()))
                    is Some && after_all(
                    self.plan().take(e.index + 1),
                    (raw_output@, self.context()),
                ) is None,
            },
    {
        proof {
            use_type_invariant(&self);
        }
        let ghost plan = self.plan();
        let ghost start = (raw_output@, self.context());
        let Session { case, chain, context, query, plan: _ } = self;
        let mut context = context;
        let mut output = raw_output;
        let mut i: usize = 0;
        assert(plan.take(0) == Seq::<Behaviour>::empty());
        while i < chain.len()
            invariant
                i <= chain.len(),
                plan == self.plan(),
                start == (raw_output@, self.context()),
                chain_matches(chain@, plan),
                after_all(plan.take(i as int), start) == Some((output@, context@)),
            decreases chain.len() - i,
        {
            proof {
                assert(plan.take(i + 1).drop_last() == plan.take(i as int));
                assert(plan.take(i + 1).last() == plan[i as int]);
                assert(behaves_as(chain@[i as int], plan[i as int]));
            }
            match chain[i].after_execute(&mut output, &mut context) {
                Ok(()) => {},
                Err(fault) => {
                    proof {
                        lemma_after_fault_sticks(plan, i + 1, start);
                    }
                    return Err(ReconcileError { phase: Phase::After, index: i, fault });
                },
            }
            i += 1;
        }
        assert(plan.take(i as int) == plan);
        Ok(compare(case, output))
    }
}

/// Holds an actual output against the expected output of a case.
pub fn compare<'a>(case: &'a Case, actual_output: String) -> (result: ReconciliationResult<'a>)
    ensures
        result@ == verdict(case@, actual_output@),
{
    let expected = case.expected_output();
    if actual_output == expected {
        ReconciliationResult { case, passed: true, actual_output, diff: None }
    } else {
        let difference = diff(expected.as_str(), actual_output.as_str());
        ReconciliationResult { case, passed: false, actual_output, diff: Some(difference) }
    }
}

/// Builds the chain of a case and lets every hook before execution rewrite
/// a copy of its query, in the order of the chain. The case itself stays
/// as it is.
pub fn prepare<'a, F: InterceptorFactory>(registry: &Registry<F>, case: &'a Case) -> (r: Result<
    Session<'a, F::Built>,
    ReconcileError,
>)
    ensures
        match before_all(chain_plan(registry.factories(), case@.leading), initial_state(case@)) {
            Some(out) => r matches Ok(session) && prepared_from(
                session,
                registry.factories(),
                case@,
            ),
            None => r matches Err(e) && e.phase == Phase::Before && e.index < chain_plan(
                registry.factories(),
                case@.leading,
            ).len() && before_all(
                chain_plan(registry.factories(), case@.leading).take(e.index as int),
                initial_state(case@),
            ) is Some && before_all(
                chain_plan(registry.factories(), case@.leading).take(e.index + 1),
                initial_state(case@),
            ) is None,
        },
{
    let chain = build_chain(registry, case);
    let ghost plan = chain_plan(registry.factories(), case@.leading);
    let ghost start = initial_state(case@);
    let mut query = copy_lines(&case.query_lines, 0, case.query_lines.len());
    let mut context = QueryContext::new();
    assert(lines_view(case.query_lines@).subrange(0, case.query_lines.len() as int) == lines_view(
        case.query_lines@,
    ));
    let mut i: usize = 0;
    assert(plan.take(0) == Seq::<Behaviour>::empty());
    while i < chain.len()
        invariant
            i <= chain.len(),
            plan == chain_plan(registry.factories(), case@.leading),
            start == initial_state(case@),
            chain_matches(chain@, plan),
            before_all(plan.take(i as int), start) == Some((lines_view(query@), context@)),
        decreases chain.len() - i,
    {
        proof {
            assert(plan.take(i + 1).drop_last() == plan.take(i as int));
            assert(plan.take(i + 1).last() == plan[i as int]);
            assert(behaves_as(chain@[i as int], plan[i as int]));
        }
        match chain[i].before_execute(&mut query, &mut context) {
            Ok(()) => {},
            Err(fault) => {
                proof {
                    lemma_before_fault_sticks(plan, i + 1, start);
                }
                return Err(ReconcileError { phase: Phase::Before, index: i, fault });
            },
        }
        i += 1;
    }
    assert(plan.take(i as int) == plan);
    Ok(Session { case, chain, context, query, plan: Ghost(plan) })
}

/// The file with the actual output of every case that did not pass taken
/// as its expected output. `results[i]` is the verdict on the case `i`,
/// if it has one; a case without a verdict stays as it is, and so does a
/// case that passed.
pub open spec fn updated(file: CaseFileView, results: Seq<Option<ResultView>>) -> CaseFileView {
    CaseFileView {
        cases: Seq::new(
            file.cases.len(),
            |i: int|
                if i < results.len() {
                    match results[i] {
                        Some(result) => if result.passed {
                            file.cases[i]
                        } else {
                            accepted(file.cases[i], result.actual_output)
                        },
                        None => file.cases[i],
                    }
                } else {
                    file.cases[i]
                },
        ),
        trailer: file.trailer,
    }
}

/// The views of a sequence of verdicts, some of which may be missing.
pub open spec fn results_view<'a>(results: Seq<Option<ReconciliationResult<'a>>>) -> Seq<
    Option<ResultView>,
> {
    Seq::new(
        results.len(),
        |i: int|
            match results[i] {
                Some(result) => Some(result@),
                None => None,
            },
    )
}

/// Rewrites the expected output of every case that did not pass with its
/// actual output. Everything else in the file stays as it is.
pub fn update<'a>(file: &CaseFile, results: &Vec<Option<ReconciliationResult<'a>>>) -> (r: CaseFile)
    ensures
        r@ == updated(file@, results_view(results@)),
{
    let mut cases: Vec<Case> = Vec::new();
    let mut i: usize = 0;
    let ghost want = updated(file@, results_view(results@));
    while i < file.cases.len()
        invariant
            i <= file.cases.len(),
            want == updated(file@, results_view(results@)),
            cases.len() == i,
            forall|j: int| 0 <= j < i ==> (#[trigger] cases@[j])@ == want.cases[j],
        decreases file.cases.len() - i,
    {
        let old_case = &file.cases[i];
        let mut case = Case {
            leading: copy_lines(&old_case.leading, 0, old_case.leading.len()),
            query_lines: copy_lines(&old_case.query_lines, 0, old_case.query_lines.len()),
            separator: copy_lines(&old_case.separator, 0, old_case.separator.len()),
            expected_lines: copy_lines(&old_case.expected_lines, 0, old_case.expected_lines.len()),
        };
        proof {
            let v = old_case@;
            assert(v.leading.subrange(0, v.leading.len() as int) == v.leading);
            assert(v.query_lines.subrange(0, v.query_lines.len() as int) == v.query_lines);
            assert(v.separator.subrange(0, v.separator.len() as int) == v.separator);
            assert(v.expected_lines.subrange(0, v.expected_lines.len() as int) == v.expected_lines);
            assert(case@ == v);
            assert(results_view(results@).len() == results.len());
        }
        if i < results.len() {
            match &results[i] {
                Some(result) => {
                    if !result.passed {
                        case.accept(result.actual_output.as_str());
                    }
                },
                None => {},
            }
        }
        cases.push(case);
        i += 1;
    }
    let trailer = copy_lines(&file.trailer, 0, file.trailer.len());
    assert(file@.trailer.subrange(0, file@.trailer.len() as int) == file@.trailer);
    let r = CaseFile { cases, trailer };
    assert(r@.cases == want.cases);
    r
}

/// Whether every verdict that is there says "passed".
pub open spec fn all_passed(results: Seq<Option<ResultView>>) -> bool {
    forall|i: int|
        0 <= i < results.len() ==> ((#[trigger] results[i]) matches Some(result) ==> result.passed)
}

/// An update with verdicts that all say "passed" changes nothing.
pub proof fn lemma_passing_update_keeps_file(file: CaseFileView, results: Seq<Option<ResultView>>)
    requires
        all_passed(results),
    ensures
        updated(file, results) == file,
{
    assert(updated(file, results).cases == file.cases);
}

/// A case file whose cases all pass is written back, after an update, as
/// the text that it was read from.
pub proof fn lemma_passing_update_round_trip(text: Seq<char>, results: Seq<Option<ResultView>>)
    requires
        parse_file_spec(text) is Ok,
        all_passed(results),
    ensures
        render_spec(updated(parse_file_spec(text).unwrap(), results)) == text,
{
    lemma_passing_update_keeps_file(parse_file_spec(text).unwrap(), results);
    lemma_render_parsed(text);
}

/// Whether `session` is what [`prepare`] gives for `case` with these
/// factories.
pub open spec fn prepared_from<'a, F: InterceptorFactory>(
    session: Session<'a, F::Built>,
    factories: Seq<F>,
    case: CaseView,
) -> bool {
    let plan = chain_plan(factories, case.leading);
    &&& before_all(plan, initial_state(case)) matches Some(out)
    &&& session.case() == case
    &&& session.plan() == plan
    &&& session.query() == out.0
    &&& session.context() == out.1
}

/// Whether `result` is the verdict that [`Session::conclude`] gives when
/// the query of `session` has the raw output `raw`.
pub open spec fn concluded_from<'a, I: Interceptor>(
    result: ResultView,
    session: Session<'a, I>,
    raw: Seq<char>,
) -> bool {
    &&& after_all(session.plan(), (raw, session.context())) matches Some(out)
    &&& result == verdict(session.case(), out.0)
}

/// Two runs of one case with the same factories submit the same query,
/// and where the execution answers the same query with the same output,
/// they end in the same actual output and the same verdict.
pub proof fn lemma_runs_agree<'a, F: InterceptorFactory>(
    factories: Seq<F>,
    case: CaseView,
    execution: spec_fn(Seq<char>) -> Seq<char>,
    first: Session<'a, F::Built>,
    second: Session<'a, F::Built>,
    first_result: ResultView,
    second_result: ResultView,
)
    requires
        prepared_from(first, factories, case),
        prepared_from(second, factories, case),
        concluded_from(first_result, first, execution(join(first.query(), '\n'))),
        concluded_from(second_result, second, execution(join(second.query(), '\n'))),
    ensures
        join(first.query(), '\n') == join(second.query(), '\n'),
        first_result.actual_output == second_result.actual_output,
        first_result.passed == second_result.passed,
        first_result == second_result,
{
}

/// With the factories of the `ENV` directive alone, the actual output is
/// the raw output: no value of a variable is put into anything that is
/// recorded.
pub proof fn lemma_env_output_untouched(
    factories: Seq<EnvInterceptorFactory>,
    lines: Seq<Seq<char>>,
    state: ResultState,
)
    ensures
        after_all(chain_plan(factories, lines), state) == Some(state),
    decreases lines.len(),
{
    if lines.len() > 0 {
        lemma_env_output_untouched(factories, lines.drop_last(), state);
        let rest = chain_plan(factories, lines.drop_last());
        let plan = chain_plan(factories, lines);
        if plan != rest {
            let directive = parse_directive_spec(lines.last()).unwrap();
            let behaviour = resolved(factories, directive_text(directive)).unwrap();
            assert(plan == rest.push(behaviour));
            assert(plan.drop_last() == rest);
            assert(plan.last() == behaviour);
            assert((behaviour.after)(state) == Some(state));
        }
    }
}

/// With the factories of the `ENV` directive alone, every hook before
/// execution completes, and the context stays as it was.
pub proof fn lemma_env_hooks_complete(
    factories: Seq<EnvInterceptorFactory>,
    lines: Seq<Seq<char>>,
    state: QueryState,
)
    ensures
        before_all(chain_plan(factories, lines), state) matches Some(out) && out.0.len()
            == state.0.len() && out.1 == state.1,
    decreases lines.len(),
{
    if lines.len() > 0 {
        lemma_env_hooks_complete(factories, lines.drop_last(), state);
        let rest = chain_plan(factories, lines.drop_last());
        let plan = chain_plan(factories, lines);
        if plan != rest {
            let directive = parse_directive_spec(lines.last()).unwrap();
            let behaviour = resolved(factories, directive_text(directive)).unwrap();
            assert(plan == rest.push(behaviour));
            assert(plan.drop_last() == rest);
            assert(plan.last() == behaviour);
        }
    }
}

} // verus!
