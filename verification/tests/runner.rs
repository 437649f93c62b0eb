use sqlness::case::{parse_case_file, CaseFile};
use sqlness::context::StringMap;
use sqlness::interceptor::env::EnvInterceptorFactory;
use sqlness::interceptor::Registry;
use sqlness::runner::{build_chain, compare, prepare, update, ReconciliationResult};

fn registry(pairs: &[(&str, &str)]) -> Registry<EnvInterceptorFactory> {
    let mut map = StringMap::new();
    for (name, value) in pairs {
        map.insert(name, value);
    }
    let mut registry = Registry::new();
    assert!(registry.register(EnvInterceptorFactory::new(map)).is_ok());
    registry
}

fn file(text: &str) -> CaseFile {
    parse_case_file(text).unwrap()
}

fn echo(query: &str) -> String {
    query.replace("SELECT ", "").replace(';', "")
}

fn run<'a>(
    registry: &Registry<EnvInterceptorFactory>,
    file: &'a CaseFile,
) -> Vec<Option<ReconciliationResult<'a>>> {
    let mut results = Vec::new();
    for case in &file.cases {
        let session = match prepare(registry, case) {
            Ok(session) => session,
            Err(_) => panic!("a hook before execution failed"),
        };
        let raw = echo(&session.query_text());
        match session.conclude(raw) {
            Ok(result) => results.push(Some(result)),
            Err(_) => panic!("a hook after execution failed"),
        }
    }
    results
}

#[test]
fn secret_is_filled_into_the_submitted_query() {
    let registry = registry(&[("SECRET", "2333")]);
    let file = file("-- SQLNESS ENV SECRET\nSELECT $SECRET;");
    let chain = build_chain(&registry, &file.cases[0]);
    assert_eq!(chain.len(), 1);
    assert_eq!(chain[0].data(), &vec![("$SECRET".to_string(), "2333".to_string())]);
    let session = match prepare(&registry, &file.cases[0]) {
        Ok(session) => session,
        Err(_) => panic!("failed"),
    };
    assert_eq!(session.query_text(), "SELECT 2333;");
    assert_eq!(file.cases[0].query_lines, vec!["SELECT $SECRET;"]);
}

#[test]
fn unset_secret_leaves_the_query_unmodified() {
    let registry = registry(&[]);
    let file = file("-- SQLNESS ENV SECRET\nSELECT $SECRET;");
    let chain = build_chain(&registry, &file.cases[0]);
    assert_eq!(chain.len(), 1);
    assert!(chain[0].data().is_empty());
    let session = match prepare(&registry, &file.cases[0]) {
        Ok(session) => session,
        Err(_) => panic!("failed"),
    };
    assert_eq!(session.query_text(), "SELECT $SECRET;");
}

#[test]
fn two_directives_give_two_interceptors_in_order() {
    let registry = registry(&[("A", "1"), ("B", "2")]);
    let file = file("-- SQLNESS ENV A\n-- SQLNESS ENV B\nSELECT $A, $B;");
    let chain = build_chain(&registry, &file.cases[0]);
    assert_eq!(chain.len(), 2);
    assert_eq!(chain[0].data(), &vec![("$A".to_string(), "1".to_string())]);
    assert_eq!(chain[1].data(), &vec![("$B".to_string(), "2".to_string())]);
    let session = match prepare(&registry, &file.cases[0]) {
        Ok(session) => session,
        Err(_) => panic!("failed"),
    };
    assert_eq!(session.query_text(), "SELECT 1, 2;");
}

#[test]
fn later_hook_sees_what_the_earlier_left() {
    let registry = registry(&[("A", "$B"), ("B", "2")]);
    let file = file("-- SQLNESS ENV A\n-- SQLNESS ENV B\nSELECT $A;");
    let session = match prepare(&registry, &file.cases[0]) {
        Ok(session) => session,
        Err(_) => panic!("failed"),
    };
    assert_eq!(session.query_text(), "SELECT 2;");
    let swapped = parse_case_file("-- SQLNESS ENV B\n-- SQLNESS ENV A\nSELECT $A;").unwrap();
    let session = match prepare(&registry, &swapped.cases[0]) {
        Ok(session) => session,
        Err(_) => panic!("failed"),
    };
    assert_eq!(session.query_text(), "SELECT $B;");
}

#[test]
fn unknown_directive_is_passed_over() {
    let registry = registry(&[("A", "1")]);
    let file = file("-- SQLNESS SORT_RESULT\n-- SQLNESS ENV A\n-- SQLNESS REPLACE a b\nSELECT $A;");
    let chain = build_chain(&registry, &file.cases[0]);
    assert_eq!(chain.len(), 1);
    let session = match prepare(&registry, &file.cases[0]) {
        Ok(session) => session,
        Err(_) => panic!("failed"),
    };
    assert_eq!(session.query_text(), "SELECT 1;");
}

#[test]
fn query_without_directives_is_submitted_as_it_is() {
    let registry = registry(&[("A", "1")]);
    let file = file("SELECT $A,\n  2;\n\n1");
    assert!(build_chain(&registry, &file.cases[0]).is_empty());
    let session = match prepare(&registry, &file.cases[0]) {
        Ok(session) => session,
        Err(_) => panic!("failed"),
    };
    assert_eq!(session.query_text(), "SELECT $A,\n  2;");
}

#[test]
fn equal_output_passes() {
    let registry = registry(&[("SECRET", "2333")]);
    let file = file("-- SQLNESS ENV SECRET\nSELECT $SECRET;\n\n2333\n");
    let results = run(&registry, &file);
    assert_eq!(results.len(), 1);
    let result = results[0].as_ref().unwrap();
    assert!(result.passed);
    assert_eq!(result.actual_output, "2333");
    assert_eq!(result.diff, None);
}

#[test]
fn other_output_fails_with_a_diff() {
    let registry = registry(&[("SECRET", "4")]);
    let file = file("-- SQLNESS ENV SECRET\nSELECT $SECRET;\n\n2333\n");
    let results = run(&registry, &file);
    let result = results[0].as_ref().unwrap();
    assert!(!result.passed);
    assert_eq!(result.actual_output, "4");
    assert_eq!(result.diff, Some("- 2333\n+ 4".to_string()));
}

#[test]
fn verdict_names_its_case() {
    let file = file("SELECT 1;\n\n1\n\nSELECT 2;\n\n2\n");
    let result = compare(&file.cases[1], "2".to_string());
    assert!(result.passed);
    assert_eq!(result.case.query_lines, vec!["SELECT 2;"]);
}

#[test]
fn comparison_is_exact() {
    let file = file("SELECT 1;\n\n1\n2\n");
    let result = compare(&file.cases[0], "1\n2".to_string());
    assert!(result.passed);
    assert_eq!(result.diff, None);
    let result = compare(&file.cases[0], "1\n2\n".to_string());
    assert!(!result.passed);
    assert_eq!(result.actual_output, "1\n2\n");
    assert_eq!(result.diff, Some("  1\n  2\n+ ".to_string()));
    let result = compare(&file.cases[0], "1\n2 ".to_string());
    assert!(!result.passed);
    assert_eq!(result.diff, Some("  1\n- 2\n+ 2 ".to_string()));
}

#[test]
fn error_text_is_an_output_like_any_other() {
    let file = file("SELECT nothing;\n\nError: no such column\n");
    let result = compare(&file.cases[0], "Error: no such column".to_string());
    assert!(result.passed);
}

#[test]
fn running_twice_gives_the_same_verdict() {
    let registry = registry(&[("A", "1"), ("B", "2")]);
    let file = file("-- SQLNESS ENV A B\nSELECT $A $B;\n\n1 2\n\n-- SQLNESS ENV A\nSELECT $A;\n\n7\n");
    let first = run(&registry, &file);
    let second = run(&registry, &file);
    assert_eq!(first.len(), 2);
    for (a, b) in first.iter().zip(second.iter()) {
        let (a, b) = (a.as_ref().unwrap(), b.as_ref().unwrap());
        assert_eq!(a.passed, b.passed);
        assert_eq!(a.actual_output, b.actual_output);
        assert_eq!(a.diff, b.diff);
    }
    assert!(first[0].as_ref().unwrap().passed);
    assert!(!first[1].as_ref().unwrap().passed);
}

#[test]
fn update_of_passing_cases_changes_nothing() {
    let text = "\n-- SQLNESS ENV A\nSELECT $A;\n\n1\n\n\nSELECT 2;\n \n2\r\n\n";
    let registry = registry(&[("A", "1")]);
    let file = file(text);
    let mut results = run(&registry, &file);
    assert!(results[0].as_ref().unwrap().passed);
    results[1] = Some(compare(&file.cases[1], "2\r".to_string()));
    assert!(results[1].as_ref().unwrap().passed);
    assert_eq!(update(&file, &results).render(), text);
}

#[test]
fn update_rewrites_the_failing_cases_only() {
    let registry = registry(&[("A", "secret")]);
    let file = file("-- SQLNESS ENV A\nSELECT $A;\n\nold\n\nSELECT 2;\n\n2\n");
    let results = run(&registry, &file);
    assert!(!results[0].as_ref().unwrap().passed);
    assert!(results[1].as_ref().unwrap().passed);
    let updated = update(&file, &results);
    assert_eq!(updated.render(), "-- SQLNESS ENV A\nSELECT $A;\n\nsecret\n\nSELECT 2;\n\n2\n");
    assert_eq!(file.render(), "-- SQLNESS ENV A\nSELECT $A;\n\nold\n\nSELECT 2;\n\n2\n");
}

#[test]
fn update_leaves_cases_without_verdict() {
    let file = file("SELECT 1;\n\n1\n\nSELECT 2;\n\n2\n");
    let results = vec![Some(compare(&file.cases[0], "one".to_string()))];
    assert_eq!(update(&file, &results).render(), "SELECT 1;\n\none\n\nSELECT 2;\n\n2\n");
    assert_eq!(update(&file, &Vec::new()).render(), "SELECT 1;\n\n1\n\nSELECT 2;\n\n2\n");
    let results = vec![None, Some(compare(&file.cases[1], "two".to_string()))];
    assert_eq!(update(&file, &results).render(), "SELECT 1;\n\n1\n\nSELECT 2;\n\ntwo\n");
}

#[test]
fn substituted_value_stays_out_of_the_file() {
    let registry = registry(&[("SECRET", "2333")]);
    let text = "-- SQLNESS ENV SECRET\nSELECT length('$SECRET');\n\nwrong\n";
    let file = file(text);
    let session = match prepare(&registry, &file.cases[0]) {
        Ok(session) => session,
        Err(_) => panic!("failed"),
    };
    assert_eq!(session.query_text(), "SELECT length('2333');");
    let result = match session.conclude("4".to_string()) {
        Ok(result) => result,
        Err(_) => panic!("failed"),
    };
    let rendered = update(&file, &vec![Some(result)]).render();
    assert_eq!(rendered, "-- SQLNESS ENV SECRET\nSELECT length('$SECRET');\n\n4\n");
    assert!(!rendered.contains("2333"));
}
