use rulescan::registry::{Registry, RegistryError};
use rulescan::rule::{ArgCount, Matcher, Rule, Scope, Severity, TargetKind};

fn rule(id: &str, scope: Scope) -> Rule {
    Rule {
        id: id.to_string(),
        category: "safety".to_string(),
        severity: Severity::Warning,
        scope,
        matcher: Matcher::MacroInvocation { name: "dbg".to_string() },
        message: "{name}".to_string(),
    }
}

fn ids(registry: &Registry) -> Vec<String> {
    (0..registry.len()).map(|i| registry.get(i).id.clone()).collect()
}

fn in_force(registry: &Registry, target: TargetKind) -> Vec<String> {
    registry.applicable_rules(target).iter().map(|r| r.id.clone()).collect()
}

#[test]
fn new_registry_is_empty() {
    let registry = Registry::new();
    assert_eq!(registry.len(), 0);
    assert!(registry.applicable_rules(TargetKind::Library).is_empty());
    assert_eq!(registry.position(&"x".to_string()), None);
}

#[test]
fn register_keeps_registration_order() {
    let mut registry = Registry::new();
    for id in ["c", "a", "b"] {
        assert_eq!(registry.register(rule(id, Scope::AnyFile)), Ok(()));
    }
    assert_eq!(ids(&registry), vec!["c", "a", "b"]);
    assert_eq!(registry.position(&"c".to_string()), Some(0));
    assert_eq!(registry.position(&"a".to_string()), Some(1));
    assert_eq!(registry.position(&"b".to_string()), Some(2));
    assert_eq!(registry.position(&"d".to_string()), None);
}

#[test]
fn register_refuses_a_taken_id() {
    let mut registry = Registry::new();
    assert_eq!(registry.register(rule("a", Scope::AnyFile)), Ok(()));
    assert_eq!(registry.register(rule("b", Scope::AnyFile)), Ok(()));
    assert_eq!(
        registry.register(rule("a", Scope::LibraryTargetOnly)),
        Err(RegistryError::DuplicateRuleId)
    );
    assert_eq!(ids(&registry), vec!["a", "b"]);
    assert_eq!(registry.get(0).scope, Scope::AnyFile);
}

#[test]
fn register_refuses_a_rule_without_id() {
    let mut registry = Registry::new();
    assert_eq!(registry.register(rule("", Scope::AnyFile)), Err(RegistryError::InvalidRule));
    assert_eq!(registry.len(), 0);
}

#[test]
fn register_refuses_a_matcher_that_names_nothing() {
    let mut registry = Registry::new();
    let no_names = Rule {
        matcher: Matcher::MethodCall { names: vec![], args: ArgCount::Any },
        ..rule("a", Scope::AnyFile)
    };
    let empty_name = Rule {
        matcher: Matcher::MethodCall {
            names: vec!["unwrap".to_string(), String::new()],
            args: ArgCount::Any,
        },
        ..rule("b", Scope::AnyFile)
    };
    let empty_macro =
        Rule { matcher: Matcher::MacroInvocation { name: String::new() }, ..rule("c", Scope::AnyFile) };
    assert!(!no_names.is_valid());
    assert!(!empty_name.is_valid());
    assert!(!empty_macro.is_valid());
    assert!(rule("d", Scope::AnyFile).is_valid());
    assert_eq!(registry.register(no_names), Err(RegistryError::InvalidRule));
    assert_eq!(registry.register(empty_name), Err(RegistryError::InvalidRule));
    assert_eq!(registry.register(empty_macro), Err(RegistryError::InvalidRule));
    assert_eq!(registry.len(), 0);
}

#[test]
fn invalid_comes_before_duplicate() {
    let mut registry = Registry::new();
    assert_eq!(registry.register(rule("a", Scope::AnyFile)), Ok(()));
    let bad = Rule { matcher: Matcher::MacroInvocation { name: String::new() }, ..rule("a", Scope::AnyFile) };
    assert_eq!(registry.register(bad), Err(RegistryError::InvalidRule));
}

#[test]
fn applicable_rules_go_by_scope_and_target() {
    let mut registry = Registry::new();
    assert_eq!(registry.register(rule("lib", Scope::LibraryTargetOnly)), Ok(()));
    assert_eq!(registry.register(rule("any", Scope::AnyFile)), Ok(()));
    assert_eq!(registry.register(rule("bin", Scope::BinaryTargetOnly)), Ok(()));
    assert_eq!(registry.register(rule("any2", Scope::AnyFile)), Ok(()));
    assert_eq!(in_force(&registry, TargetKind::Library), vec!["lib", "any", "any2"]);
    assert_eq!(in_force(&registry, TargetKind::Binary), vec!["any", "bin", "any2"]);
    assert_eq!(in_force(&registry, TargetKind::Test), vec!["any", "any2"]);
}

#[test]
fn scope_applies_to_each_target_as_stated() {
    let targets = [TargetKind::Library, TargetKind::Binary, TargetKind::Test];
    let any: Vec<bool> = targets.iter().map(|t| Scope::AnyFile.applies_to(*t)).collect();
    let lib: Vec<bool> = targets.iter().map(|t| Scope::LibraryTargetOnly.applies_to(*t)).collect();
    let bin: Vec<bool> = targets.iter().map(|t| Scope::BinaryTargetOnly.applies_to(*t)).collect();
    assert_eq!(any, vec![true, true, true]);
    assert_eq!(lib, vec![true, false, false]);
    assert_eq!(bin, vec![false, true, false]);
}

#[test]
fn remove_takes_out_one_rule_and_keeps_the_order() {
    let mut registry = Registry::new();
    for id in ["a", "b", "c", "d"] {
        assert_eq!(registry.register(rule(id, Scope::AnyFile)), Ok(()));
    }
    assert_eq!(registry.remove(&"b".to_string()), Ok(()));
    assert_eq!(ids(&registry), vec!["a", "c", "d"]);
    assert_eq!(registry.remove(&"d".to_string()), Ok(()));
    assert_eq!(ids(&registry), vec!["a", "c"]);
    assert_eq!(registry.remove(&"a".to_string()), Ok(()));
    assert_eq!(ids(&registry), vec!["c"]);
}

#[test]
fn remove_of_an_unknown_id_changes_nothing() {
    let mut registry = Registry::new();
    assert_eq!(registry.remove(&"a".to_string()), Err(RegistryError::UnknownRuleId));
    assert_eq!(registry.register(rule("a", Scope::AnyFile)), Ok(()));
    assert_eq!(registry.remove(&"b".to_string()), Err(RegistryError::UnknownRuleId));
    assert_eq!(ids(&registry), vec!["a"]);
}

#[test]
fn a_removed_id_can_be_registered_again() {
    let mut registry = Registry::new();
    assert_eq!(registry.register(rule("a", Scope::AnyFile)), Ok(()));
    assert_eq!(registry.register(rule("b", Scope::AnyFile)), Ok(()));
    assert_eq!(registry.remove(&"a".to_string()), Ok(()));
    assert_eq!(registry.register(rule("a", Scope::AnyFile)), Ok(()));
    assert_eq!(ids(&registry), vec!["b", "a"]);
}

#[test]
fn set_severity_changes_one_rule() {
    let mut registry = Registry::new();
    assert_eq!(registry.register(rule("a", Scope::AnyFile)), Ok(()));
    assert_eq!(registry.register(rule("b", Scope::LibraryTargetOnly)), Ok(()));
    assert_eq!(registry.set_severity(&"b".to_string(), Severity::Error), Ok(()));
    assert_eq!(registry.get(0).severity, Severity::Warning);
    assert_eq!(registry.get(1).severity, Severity::Error);
    assert_eq!(registry.get(1).id, "b");
    assert_eq!(registry.get(1).scope, Scope::LibraryTargetOnly);
    assert_eq!(registry.get(1).message, "{name}");
    assert_eq!(
        registry.set_severity(&"c".to_string(), Severity::Error),
        Err(RegistryError::UnknownRuleId)
    );
    assert_eq!(registry.get(0).severity, Severity::Warning);
}
