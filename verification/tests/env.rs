use sqlness::context::{QueryContext, StringMap};
use sqlness::interceptor::env::{EnvInterceptorFactory, PREFIX};
use sqlness::interceptor::{Interceptor, InterceptorFactory};

fn environment(pairs: &[(&str, &str)]) -> StringMap {
    let mut map = StringMap::new();
    for (name, value) in pairs {
        map.insert(name, value);
    }
    map
}

fn pairs(data: &[(String, String)]) -> Vec<(&str, &str)> {
    data.iter().map(|(k, v)| (k.as_str(), v.as_str())).collect()
}

fn rewritten(directive: &str, env: &StringMap, query: &[&str]) -> Vec<String> {
    let interceptor = EnvInterceptorFactory::create(directive, env).unwrap();
    let mut lines: Vec<String> = query.iter().map(|l| l.to_string()).collect();
    let mut context = QueryContext::new();
    assert!(interceptor.before_execute(&mut lines, &mut context).is_ok());
    lines
}

#[test]
fn cut_env_string() {
    let input = "ENV SECRET NONEXISTENT";
    let env = environment(&[("SECRET", "2333")]);

    let expected = vec![("$SECRET", "2333")];

    let interceptor = EnvInterceptorFactory::create(input, &env).unwrap();
    assert_eq!(pairs(interceptor.data()), expected);
}

#[test]
fn create_needs_the_keyword() {
    let env = environment(&[("SECRET", "2333")]);
    assert!(EnvInterceptorFactory::create("SORT SECRET", &env).is_none());
    assert!(EnvInterceptorFactory::create(" ENV SECRET", &env).is_none());
    assert!(EnvInterceptorFactory::create("", &env).is_none());
    assert!(EnvInterceptorFactory::create("EN", &env).is_none());
    assert!(EnvInterceptorFactory::create("ENV", &env).is_some());
}

#[test]
fn create_without_variables_maps_nothing() {
    let env = environment(&[("SECRET", "2333")]);
    let interceptor = EnvInterceptorFactory::create("ENV", &env).unwrap();
    assert!(interceptor.data().is_empty());
    let interceptor = EnvInterceptorFactory::create("ENV    ", &env).unwrap();
    assert!(interceptor.data().is_empty());
}

#[test]
fn absent_variable_is_left_out() {
    let env = StringMap::new();
    let interceptor = EnvInterceptorFactory::create("ENV SECRET", &env).unwrap();
    assert!(interceptor.data().is_empty());
    assert_eq!(rewritten("ENV SECRET", &env, &["SELECT $SECRET;"]), vec!["SELECT $SECRET;"]);
}

#[test]
fn present_variable_replaces_every_occurrence() {
    let env = environment(&[("SECRET", "2333")]);
    assert_eq!(
        rewritten("ENV SECRET", &env, &["SELECT $SECRET, '$SECRET';", "-- $SECRET$SECRET", "none"]),
        vec!["SELECT 2333, '2333';", "-- 23332333", "none"]
    );
}

#[test]
fn variables_keep_the_order_of_declaration() {
    let env = environment(&[("B", "2"), ("A", "1")]);
    let interceptor = EnvInterceptorFactory::create("ENV A B", &env).unwrap();
    assert_eq!(pairs(interceptor.data()), vec![("$A", "1"), ("$B", "2")]);
    let interceptor = EnvInterceptorFactory::create("ENV B A", &env).unwrap();
    assert_eq!(pairs(interceptor.data()), vec![("$B", "2"), ("$A", "1")]);
}

#[test]
fn repeated_variable_is_mapped_once() {
    let env = environment(&[("A", "1")]);
    let interceptor = EnvInterceptorFactory::create("ENV A A  A", &env).unwrap();
    assert_eq!(pairs(interceptor.data()), vec![("$A", "1")]);
}

#[test]
fn empty_tokens_are_ignored() {
    let mut env = environment(&[("A", "1"), ("B", "2")]);
    env.insert("", "nothing");
    let interceptor = EnvInterceptorFactory::create("ENV   A    B  ", &env).unwrap();
    assert_eq!(pairs(interceptor.data()), vec![("$A", "1"), ("$B", "2")]);
}

#[test]
fn repeated_keyword_is_stripped() {
    let env = environment(&[("A", "1"), ("ENV", "no")]);
    let names = EnvInterceptorFactory::variable_names("ENVENV A").unwrap();
    assert_eq!(names, vec!["A"]);
    let names = EnvInterceptorFactory::variable_names("ENV ENV A").unwrap();
    assert_eq!(names, vec!["ENV", "A"]);
    let interceptor = EnvInterceptorFactory::create("ENVENV A", &env).unwrap();
    assert_eq!(pairs(interceptor.data()), vec![("$A", "1")]);
}

#[test]
fn keyword_may_run_into_the_name() {
    let env = environment(&[("IRONMENT", "x")]);
    let names = EnvInterceptorFactory::variable_names("ENVIRONMENT").unwrap();
    assert_eq!(names, vec!["IRONMENT"]);
    let interceptor = EnvInterceptorFactory::create("ENVIRONMENT", &env).unwrap();
    assert_eq!(pairs(interceptor.data()), vec![("$IRONMENT", "x")]);
}

#[test]
fn names_are_cut_at_spaces_only() {
    let names = EnvInterceptorFactory::variable_names("ENV \t A\tB C \n").unwrap();
    assert_eq!(names, vec!["A\tB", "C"]);
    assert!(EnvInterceptorFactory::variable_names("env A").is_none());
}

#[test]
fn substituted_text_is_not_scanned_again() {
    let env = environment(&[("A", "$B"), ("B", "x")]);
    assert_eq!(rewritten("ENV A B", &env, &["$A $B"]), vec!["$B x"]);
    assert_eq!(rewritten("ENV B A", &env, &["$A $B"]), vec!["$B x"]);
}

#[test]
fn first_declared_key_wins_where_two_stand() {
    let env = environment(&[("A", "1"), ("AB", "2")]);
    assert_eq!(rewritten("ENV A AB", &env, &["$AB"]), vec!["1B"]);
    assert_eq!(rewritten("ENV AB A", &env, &["$AB $A"]), vec!["2 1"]);
}

#[test]
fn value_that_holds_its_own_key_is_put_in_once() {
    let env = environment(&[("A", "<$A>")]);
    assert_eq!(rewritten("ENV A", &env, &["$A$A"]), vec!["<$A><$A>"]);
}

#[test]
fn colliding_name_is_replaced_too() {
    let env = environment(&[("1", "one")]);
    assert_eq!(rewritten("ENV 1", &env, &["SELECT '$100';"]), vec!["SELECT 'one00';"]);
}

#[test]
fn before_hook_keeps_the_context() {
    let env = environment(&[("A", "1")]);
    let interceptor = EnvInterceptorFactory::create("ENV A", &env).unwrap();
    let mut context = QueryContext::new();
    context.context.insert("note", "kept");
    let mut lines = vec!["$A".to_string()];
    assert!(interceptor.before_execute(&mut lines, &mut context).is_ok());
    assert_eq!(lines, vec!["1"]);
    assert_eq!(context.context.get("note"), Some("kept".to_string()));
    assert_eq!(context.context.get("A"), None);
}

#[test]
fn after_hook_passes_the_output_through() {
    let env = environment(&[("SECRET", "2333")]);
    let interceptor = EnvInterceptorFactory::create("ENV SECRET", &env).unwrap();
    let mut context = QueryContext::new();
    let mut output = "$SECRET is 2333".to_string();
    assert!(interceptor.after_execute(&mut output, &mut context).is_ok());
    assert_eq!(output, "$SECRET is 2333");
}

#[test]
fn factory_answers_to_its_keyword() {
    let factory = EnvInterceptorFactory::new(environment(&[("A", "1")]));
    assert_eq!(PREFIX, "ENV");
    assert_eq!(factory.keyword(), "ENV");
    assert!(factory.try_new("REPLACE A").is_none());
    let built = factory.try_new("ENV A").unwrap();
    assert_eq!(pairs(built.data()), vec![("$A", "1")]);
}

#[test]
fn empty_query_stays_empty() {
    let env = environment(&[("A", "1")]);
    assert_eq!(rewritten("ENV A", &env, &[]), Vec::<String>::new());
    assert_eq!(rewritten("ENV A", &env, &[""]), vec![""]);
}

#[test]
fn string_map_keeps_the_last_value() {
    let mut map = StringMap::new();
    assert_eq!(map.get("a"), None);
    map.insert("a", "1");
    map.insert("b", "2");
    map.insert("a", "3");
    assert_eq!(map.get("a"), Some("3".to_string()));
    assert_eq!(map.get("b"), Some("2".to_string()));
    assert_eq!(map.get("c"), None);
    assert_eq!(map.get(""), None);
}

#[test]
fn built_interceptor_can_be_shown() {
    let env = environment(&[("A", "1")]);
    let interceptor = EnvInterceptorFactory::create("ENV A", &env).unwrap();
    assert_eq!(format!("{:?}", interceptor), r#"EnvInterceptor { data: [("$A", "1")] }"#);
}
