use sqlness::context::StringMap;
use sqlness::interceptor::env::EnvInterceptorFactory;
use sqlness::interceptor::{Registry, RegistryError};

fn factory(pairs: &[(&str, &str)]) -> EnvInterceptorFactory {
    let mut map = StringMap::new();
    for (name, value) in pairs {
        map.insert(name, value);
    }
    EnvInterceptorFactory::new(map)
}

#[test]
fn empty_registry_resolves_nothing() {
    let registry: Registry<EnvInterceptorFactory> = Registry::new();
    assert!(registry.resolve("ENV SECRET").is_none());
    assert!(registry.resolve("").is_none());
}

#[test]
fn unknown_prefix_resolves_to_nothing() {
    let mut registry = Registry::new();
    assert_eq!(registry.register(factory(&[("A", "1")])), Ok(()));
    for text in ["", "SORT_RESULT", "REPLACE a b", "env A", " ENV A", "EN", "E N V"] {
        assert!(registry.resolve(text).is_none(), "{:?}", text);
    }
}

#[test]
fn known_prefix_resolves_to_its_interceptor() {
    let mut registry = Registry::new();
    assert_eq!(registry.register(factory(&[("A", "1")])), Ok(()));
    let built = registry.resolve("ENV A B").unwrap();
    assert_eq!(built.data().len(), 1);
    assert_eq!(built.data()[0], ("$A".to_string(), "1".to_string()));
}

#[test]
fn taken_prefix_is_refused() {
    let mut registry = Registry::new();
    assert_eq!(registry.register(factory(&[("A", "first")])), Ok(()));
    assert_eq!(registry.register(factory(&[("A", "second")])), Err(RegistryError::DuplicatePrefix));
    let built = registry.resolve("ENV A").unwrap();
    assert_eq!(built.data()[0].1, "first");
}
