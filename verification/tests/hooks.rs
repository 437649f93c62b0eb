use sqlness::case::parse_case_file;
use sqlness::context::QueryContext;
use sqlness::context::StringMap;
use sqlness::interceptor::env::EnvInterceptorFactory;
use sqlness::interceptor::{Either, HookFault, Interceptor, InterceptorFactory, Registry};
use sqlness::runner::{build_chain, prepare, unresolved, Phase};

/// Sorts the lines of the output; marks the query; fails on request.
struct Probe {
    args: String,
}

impl Interceptor for Probe {
    fn before_execute(
        &self,
        execute_query: &mut Vec<String>,
        context: &mut QueryContext,
    ) -> Result<(), HookFault> {
        if self.args == "fail-before" {
            return Err(HookFault { reason: "before".to_string() });
        }
        execute_query.push(format!("-- {}", self.args));
        context.context.insert("seen", &self.args);
        Ok(())
    }

    fn after_execute(&self, result: &mut String, context: &mut QueryContext) -> Result<(), HookFault> {
        if self.args == "fail-after" {
            return Err(HookFault { reason: "after".to_string() });
        }
        let seen = context.context.get("seen").unwrap_or_default();
        result.push_str(&format!("|{}:{}", self.args, seen));
        Ok(())
    }
}

struct ProbeFactory;

impl InterceptorFactory for ProbeFactory {
    type Built = Probe;

    fn keyword(&self) -> String {
        "PROBE".to_string()
    }

    fn try_new(&self, interceptor: &str) -> Option<Probe> {
        let args = interceptor.strip_prefix("PROBE")?.trim();
        if args.is_empty() {
            None
        } else {
            Some(Probe { args: args.to_string() })
        }
    }
}

fn registry() -> Registry<ProbeFactory> {
    let mut registry = Registry::new();
    assert!(registry.register(ProbeFactory).is_ok());
    registry
}

#[test]
fn hooks_run_in_the_order_of_the_chain_on_both_sides() {
    let file = parse_case_file("-- SQLNESS PROBE a\n-- SQLNESS PROBE b\nQ\n\nraw|a:b|b:b").unwrap();
    let session = match prepare(&registry(), &file.cases[0]) {
        Ok(session) => session,
        Err(_) => panic!("failed"),
    };
    assert_eq!(session.query_text(), "Q\n-- a\n-- b");
    let result = match session.conclude("raw".to_string()) {
        Ok(result) => result,
        Err(_) => panic!("failed"),
    };
    assert_eq!(result.actual_output, "raw|a:b|b:b");
    assert!(result.passed);
}

#[test]
fn directive_with_arguments_out_of_order_builds_nothing() {
    let file = parse_case_file("-- SQLNESS PROBE\n-- SQLNESS PROBE x\nQ").unwrap();
    let session = match prepare(&registry(), &file.cases[0]) {
        Ok(session) => session,
        Err(_) => panic!("failed"),
    };
    assert_eq!(session.query_text(), "Q\n-- x");
}

#[test]
fn fault_before_execution_names_its_hook() {
    let file = parse_case_file("-- SQLNESS PROBE a\n-- SQLNESS PROBE fail-before\nQ").unwrap();
    match prepare(&registry(), &file.cases[0]) {
        Ok(_) => panic!("prepared"),
        Err(e) => {
            assert_eq!(e.phase, Phase::Before);
            assert_eq!(e.index, 1);
            assert_eq!(e.fault.reason, "before");
        }
    }
}

#[test]
fn fault_after_execution_names_its_hook() {
    let file = parse_case_file("-- SQLNESS PROBE fail-after\n-- SQLNESS PROBE b\nQ").unwrap();
    let session = match prepare(&registry(), &file.cases[0]) {
        Ok(session) => session,
        Err(_) => panic!("failed"),
    };
    match session.conclude("raw".to_string()) {
        Ok(_) => panic!("concluded"),
        Err(e) => {
            assert_eq!(e.phase, Phase::After);
            assert_eq!(e.index, 0);
            assert_eq!(e.fault.reason, "after");
        }
    }
}

#[test]
fn second_factory_with_the_same_keyword_is_refused() {
    let mut registry = registry();
    assert!(registry.register(ProbeFactory).is_err());
}

fn mixed() -> Registry<Either<EnvInterceptorFactory, ProbeFactory>> {
    let mut environment = StringMap::new();
    environment.insert("A", "1");
    let mut registry = Registry::new();
    assert!(registry.register(Either::Left(EnvInterceptorFactory::new(environment))).is_ok());
    assert!(registry.register(Either::Right(ProbeFactory)).is_ok());
    registry
}

#[test]
fn registry_holds_factories_of_several_kinds() {
    let registry = mixed();
    assert!(matches!(registry.resolve("ENV A"), Some(Either::Left(_))));
    assert!(matches!(registry.resolve("PROBE x"), Some(Either::Right(_))));
    assert!(registry.resolve("SORT").is_none());
    assert!(registry.resolve("PROBE").is_none());
}

#[test]
fn keyword_is_taken_whatever_the_kind() {
    let mut registry = mixed();
    assert!(registry.register(Either::Right(ProbeFactory)).is_err());
    assert!(registry.register(Either::Left(EnvInterceptorFactory::new(StringMap::new()))).is_err());
    assert!(matches!(registry.resolve("ENV A"), Some(Either::Left(_))));
}

#[test]
fn kinds_mix_in_one_chain() {
    let registry = mixed();
    let file = parse_case_file("-- SQLNESS PROBE $A\n-- SQLNESS ENV A\n-- SQLNESS PROBE b\nQ $A").unwrap();
    let chain = build_chain(&registry, &file.cases[0]);
    assert_eq!(chain.len(), 3);
    assert!(matches!(chain[0], Either::Right(_)));
    assert!(matches!(chain[1], Either::Left(_)));
    let session = match prepare(&registry, &file.cases[0]) {
        Ok(session) => session,
        Err(_) => panic!("failed"),
    };
    assert_eq!(session.query_text(), "Q 1\n-- 1\n-- b");
    let result = match session.conclude("raw".to_string()) {
        Ok(result) => result,
        Err(_) => panic!("failed"),
    };
    assert_eq!(result.actual_output, "raw|$A:b|b:b");
    assert!(!result.passed);
}

#[test]
fn directives_that_nothing_takes_are_listed() {
    let registry = mixed();
    let file = parse_case_file(
        "-- SQLNESS SORT_RESULT 1 2\n-- SQLNESS ENV A\n\n-- SQLNESS PROBE\n-- SQLNESS env  A\nQ",
    )
    .unwrap();
    assert_eq!(unresolved(&registry, &file.cases[0]), vec!["SORT_RESULT 1 2", "PROBE", "env A"]);
    assert_eq!(build_chain(&registry, &file.cases[0]).len(), 1);
    let plain = parse_case_file("Q\n\n1").unwrap();
    assert!(unresolved(&registry, &plain.cases[0]).is_empty());
}
