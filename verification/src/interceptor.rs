//! Interceptors and the registry of their factories.
//!
//! An interceptor rewrites the query before it is run and the output after.
//! A factory knows one directive keyword and builds the interceptor that a
//! directive with that keyword asks for.

use crate::context::QueryContext;
use crate::text::lines_view;
use vstd::prelude::*;

pub mod env;

verus! {

/// A query as hooks see it: its lines, and the context beside them.
pub type QueryState = (Seq<Seq<char>>, Map<Seq<char>, Seq<char>>);

/// An output as hooks see it: its text, and the context beside it.
pub type ResultState = (Seq<char>, Map<Seq<char>, Seq<char>>);

/// Why a hook could not complete.
pub struct HookFault {
    pub reason: String,
}

/// A unit of text transformation with a hook on either side of the
/// execution of a query.
pub trait Interceptor {
    /// What the hook before execution makes of a query and a context, or
    /// `None` where it cannot complete. Unless an interceptor says
    /// otherwise, the hook hands both on as they came.
    open spec fn before_spec(&self, state: QueryState) -> Option<QueryState> {
        Some(state)
    }

    /// What the hook after execution makes of an output and a context, or
    /// `None` where it cannot complete. Unless an interceptor says
    /// otherwise, the hook hands both on as they came.
    open spec fn after_spec(&self, state: ResultState) -> Option<ResultState> {
        Some(state)
    }

    /// Rewrites the query that is about to be run.
    fn before_execute(&self, execute_query: &mut Vec<String>, context: &mut QueryContext) -> (r:
        Result<(), HookFault>)
        ensures
            match self.before_spec((lines_view(old(execute_query)@), old(context)@)) {
                Some(out) => r is Ok && (lines_view(final(execute_query)@), final(context)@) == out,
                None => r is Err,
            },
    ;

    /// Rewrites the output that the query gave.
    fn after_execute(&self, result: &mut String, context: &mut QueryContext) -> (r: Result<
        (),
        HookFault,
    >)
        ensures
            match self.after_spec((old(result)@, old(context)@)) {
                Some(out) => r is Ok && (final(result)@, final(context)@) == out,
                None => r is Err,
            },
    ;
}

/// What an interceptor does, as a pair of functions.
pub struct Behaviour {
    pub before: spec_fn(QueryState) -> Option<QueryState>,
    pub after: spec_fn(ResultState) -> Option<ResultState>,
}

/// Whether both hooks of `interceptor` are the functions that `behaviour`
/// holds.
pub open spec fn behaves_as<I: Interceptor>(interceptor: I, behaviour: Behaviour) -> bool {
    &&& forall|state: QueryState| #[trigger]
        interceptor.before_spec(state) == (behaviour.before)(state)
    &&& forall|state: ResultState| #[trigger]
        interceptor.after_spec(state) == (behaviour.after)(state)
}

/// Builds interceptors from the directives that start with its keyword.
pub trait InterceptorFactory {
    /// The interceptors that this factory builds.
    type Built: Interceptor;

    /// The keyword that this factory answers to.
    open spec fn prefix(&self) -> Seq<char> {
        Seq::empty()
    }

    /// Whether the arguments in `text` are in order, so that an interceptor
    /// can be built from them.
    open spec fn accepts(&self, text: Seq<char>) -> bool {
        true
    }

    /// The hook before execution of the interceptor built from `text`.
    open spec fn built_before(&self, text: Seq<char>, state: QueryState) -> Option<QueryState> {
        Some(state)
    }

    /// The hook after execution of the interceptor built from `text`.
    open spec fn built_after(&self, text: Seq<char>, state: ResultState) -> Option<ResultState> {
        Some(state)
    }

    /// Whether `built` holds what an interceptor built from `text` is to
    /// hold. A factory whose interceptors hold data says here which.
    open spec fn builds(&self, text: Seq<char>, built: Self::Built) -> bool {
        true
    }

    /// The keyword that this factory answers to.
    fn keyword(&self) -> (p: String)
        ensures
            p@ == self.prefix(),
    ;

    /// The interceptor that the directive text asks for. There is one if
    /// and only if the text starts with the keyword and its arguments are
    /// in order.
    fn try_new(&self, interceptor: &str) -> (r: Option<Self::Built>)
        ensures
            r is Some <==> self.prefix().is_prefix_of(interceptor@) && self.accepts(interceptor@),
            r matches Some(built) ==> self.builds(interceptor@, built),
            r matches Some(built) ==> behaves_as(
                built,
                Behaviour {
                    before: |state: QueryState| self.built_before(interceptor@, state),
                    after: |state: ResultState| self.built_after(interceptor@, state),
                },
            ),
    ;
}

/// Whether `factory` builds an interceptor from `text`: the text starts
/// with its keyword and the arguments are in order.
pub open spec fn takes<F: InterceptorFactory>(factory: F, text: Seq<char>) -> bool {
    factory.prefix().is_prefix_of(text) && factory.accepts(text)
}

/// The behaviour of what `factory` builds from `text`.
pub open spec fn made<F: InterceptorFactory>(factory: F, text: Seq<char>) -> Behaviour {
    Behaviour {
        before: |state: QueryState| factory.built_before(text, state),
        after: |state: ResultState| factory.built_after(text, state),
    }
}

/// Why a factory was not taken into a registry.
#[derive(Debug, Clone, Copy, PartialEq, Eq, Structural)]
pub enum RegistryError {
    /// A factory with the same keyword is registered already.
    DuplicatePrefix,
}

/// Whether one of the factories has the keyword `prefix`.
pub open spec fn prefix_taken<F: InterceptorFactory>(factories: Seq<F>, prefix: Seq<char>) -> bool {
    exists|i: int| 0 <= i < factories.len() && (#[trigger] factories[i]).prefix() == prefix
}

/// Whether no two of the factories have the same keyword.
pub open spec fn prefixes_distinct<F: InterceptorFactory>(factories: Seq<F>) -> bool {
    forall|i: int, j: int|
        0 <= i < j < factories.len() ==> (#[trigger] factories[i]).prefix() != (
        #[trigger] factories[j]).prefix()
}

/// The index of the first factory at or after `from` that builds from
/// `text`, or the number of factories.
pub open spec fn first_accepting<F: InterceptorFactory>(
    factories: Seq<F>,
    text: Seq<char>,
    from: int,
) -> int
    decreases factories.len() - from,
{
    if from < 0 || from >= factories.len() {
        factories.len() as int
    } else if takes(factories[from], text) {
        from
    } else {
        first_accepting(factories, text, from + 1)
    }
}

/// What the factories make of a directive text: the behaviour of what the
/// first factory that takes the text builds from it, or `None` if none
/// takes it.
pub open spec fn resolved<F: InterceptorFactory>(factories: Seq<F>, text: Seq<char>) -> Option<
    Behaviour,
> {
    let k = first_accepting(factories, text, 0);
    if 0 <= k < factories.len() {
        Some(made(factories[k], text))
    } else {
        None
    }
}

/// The factories that directives are resolved with, in the order of their
/// registration.
pub struct Registry<F: InterceptorFactory> {
    factories: Vec<F>,
}

impl<F: InterceptorFactory> Registry<F> {
    /// The registered factories, in the order in which they are tried.
    pub closed spec fn factories(&self) -> Seq<F> {
        self.factories@
    }

    /// A registry without factories.
    pub fn new() -> (r: Self)
        ensures
            r.factories().len() == 0,
            prefixes_distinct(r.factories()),
    {
        Registry { factories: Vec::new() }
    }

    /// Takes `factory` in behind those registered so far, unless its keyword
    /// is taken: then the registry stays as it is and the factory is
    /// refused. Keywords that differed before still differ afterwards.
    pub fn register(&mut self, factory: F) -> (r: Result<(), RegistryError>)
        ensures
            prefixes_distinct(old(self).factories()) ==> prefixes_distinct(
                final(self).factories(),
            ),
            match r {
                Ok(()) => !prefix_taken(old(self).factories(), factory.prefix())
                    && final(self).factories() == old(self).factories().push(factory),
                Err(e) => e == RegistryError::DuplicatePrefix && prefix_taken(
                    old(self).factories(),
                    factory.prefix(),
                ) && final(self).factories() == old(self).factories(),
            },
    {
        let keyword = factory.keyword();
        let mut i: usize = 0;
        while i < self.factories.len()
            invariant
                i <= self.factories.len(),
                keyword@ == factory.prefix(),
                forall|j: int|
                    0 <= j < i ==> (#[trigger] self.factories@[j]).prefix() != factory.prefix(),
            decreases self.factories.len() - i,
        {
            let other = self.factories[i].keyword();
            if other == keyword {
                return Err(RegistryError::DuplicatePrefix);
            }
            i += 1;
        }
        self.factories.push(factory);
        Ok(())
    }

    /// The interceptor that a directive text asks for: what the first
    /// factory that takes the text builds from it. Text that no factory
    /// takes gives `None`.
    pub fn resolve(&self, directive_text: &str) -> (r: Option<F::Built>)
        ensures
            match r {
                Some(built) => resolved(self.factories(), directive_text@) matches Some(behaviour)
                    && behaves_as(built, behaviour) && self.factories()[first_accepting(
                    self.factories(),
                    directive_text@,
                    0,
                )].builds(directive_text@, built),
                None => resolved(self.factories(), directive_text@) is None,
            },
    {
        let mut i: usize = 0;
        while i < self.factories.len()
            invariant
                i <= self.factories.len(),
                first_accepting(self.factories@, directive_text@, 0) == first_accepting(
                    self.factories@,
                    directive_text@,
                    i as int,
                ),
            decreases self.factories.len() - i,
        {
            match self.factories[i].try_new(directive_text) {
                Some(built) => {
                    return Some(built);
                },
                None => {},
            }
            i += 1;
        }
        None
    }
}

/// A directive text that starts with none of the registered keywords
/// resolves to no interceptor.
pub proof fn lemma_unknown_prefix_resolves_to_nothing<F: InterceptorFactory>(
    factories: Seq<F>,
    text: Seq<char>,
)
    requires
        forall|i: int|
            0 <= i < factories.len() ==> !(#[trigger] factories[i]).prefix().is_prefix_of(text),
    ensures
        resolved(factories, text) is None,
{
    lemma_none_takes(factories, text, 0);
}

proof fn lemma_none_takes<F: InterceptorFactory>(factories: Seq<F>, text: Seq<char>, from: int)
    requires
        0 <= from <= factories.len(),
        forall|i: int|
            0 <= i < factories.len() ==> !(#[trigger] factories[i]).prefix().is_prefix_of(text),
    ensures
        first_accepting(factories, text, from) == factories.len(),
    decreases factories.len() - from,
{
    if from < factories.len() {
        lemma_none_takes(factories, text, from + 1);
    }
}

/// One of two kinds. A registry holds factories of one type; with this
/// type it holds factories of several kinds, each with its own keyword.
pub enum Either<A, B> {
    Left(A),
    Right(B),
}

impl<A: Interceptor, B: Interceptor> Interceptor for Either<A, B> {
    open spec fn before_spec(&self, state: QueryState) -> Option<QueryState> {
        match self {
            Either::Left(a) => a.before_spec(state),
            Either::Right(b) => b.before_spec(state),
        }
    }

    open spec fn after_spec(&self, state: ResultState) -> Option<ResultState> {
        match self {
            Either::Left(a) => a.after_spec(state),
            Either::Right(b) => b.after_spec(state),
        }
    }

    fn before_execute(&self, execute_query: &mut Vec<String>, context: &mut QueryContext) -> (r:
        Result<(), HookFault>) {
        match self {
            Either::Left(a) => a.before_execute(execute_query, context),
            Either::Right(b) => b.before_execute(execute_query, context),
        }
    }

    fn after_execute(&self, result: &mut String, context: &mut QueryContext) -> (r: Result<
        (),
        HookFault,
    >) {
        match self {
            Either::Left(a) => a.after_execute(result, context),
            Either::Right(b) => b.after_execute(result, context),
        }
    }
}

impl<A: InterceptorFactory, B: InterceptorFactory> InterceptorFactory for Either<A, B> {
    type Built = Either<A::Built, B::Built>;

    open spec fn prefix(&self) -> Seq<char> {
        match self {
            Either::Left(a) => a.prefix(),
            Either::Right(b) => b.prefix(),
        }
    }

    open spec fn accepts(&self, text: Seq<char>) -> bool {
        match self {
            Either::Left(a) => a.accepts(text),
            Either::Right(b) => b.accepts(text),
        }
    }

    open spec fn built_before(&self, text: Seq<char>, state: QueryState) -> Option<QueryState> {
        match self {
            Either::Left(a) => a.built_before(text, state),
            Either::Right(b) => b.built_before(text, state),
        }
    }

    open spec fn built_after(&self, text: Seq<char>, state: ResultState) -> Option<ResultState> {
        match self {
            Either::Left(a) => a.built_after(text, state),
            Either::Right(b) => b.built_after(text, state),
        }
    }

    open spec fn builds(&self, text: Seq<char>, built: Either<A::Built, B::Built>) -> bool {
        match (self, built) {
            (Either::Left(a), Either::Left(x)) => a.builds(text, x),
            (Either::Right(b), Either::Right(y)) => b.builds(text, y),
            _ => false,
        }
    }

    fn keyword(&self) -> (p: String) {
        match self {
            Either::Left(a) => a.keyword(),
            Either::Right(b) => b.keyword(),
        }
    }

    fn try_new(&self, interceptor: &str) -> (r: Option<Either<A::Built, B::Built>>) {
        match self {
            Either::Left(a) => match a.try_new(interceptor) {
                Some(built) => Some(Either::Left(built)),
                None => None,
            },
            Either::Right(b) => match b.try_new(interceptor) {
                Some(built) => Some(Either::Right(built)),
                None => None,
            },
        }
    }
}

} // verus!
