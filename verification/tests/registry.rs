use starlark::values::Value;
use starlark_dialect_build_targets::registry::EnvironmentContext;

fn callable_stub(label: &str) -> Value {
    Value::from(label)
}

fn owned(names: &[&str]) -> Vec<String> {
    names.iter().map(|name| name.to_string()).collect()
}

#[test]
fn new_registry_is_empty() {
    let context = EnvironmentContext::new();
    assert!(context.targets().is_empty());
    assert!(context.targets_order().is_empty());
    assert_eq!(context.default_target(), None);
    assert_eq!(context.default_build_script_target, None);
    assert!(!context.build_script_mode);
    assert!(context.targets_to_resolve().is_empty());
    assert!(context.get_target("x").is_none());
}

#[test]
fn first_registration_becomes_default_until_a_claim() {
    let mut context = EnvironmentContext::new();
    context.register_target("x".to_string(), callable_stub("fx"), vec![], false, false);
    assert_eq!(context.default_target(), Some("x"));
    context.register_target("y".to_string(), callable_stub("fy"), vec![], true, false);
    assert_eq!(context.default_target(), Some("y"));
    context.register_target("z".to_string(), callable_stub("fz"), vec![], false, false);
    assert_eq!(context.default_target(), Some("y"));
    assert_eq!(context.targets_order(), &owned(&["x", "y", "z"]));
}

#[test]
fn build_script_default_goes_by_its_own_claims() {
    let mut context = EnvironmentContext::new();
    context.register_target("x".to_string(), callable_stub("fx"), vec![], false, false);
    assert_eq!(context.default_build_script_target, Some("x".to_string()));
    context.register_target("y".to_string(), callable_stub("fy"), vec![], true, false);
    assert_eq!(context.default_target(), Some("y"));
    assert_eq!(context.default_build_script_target, Some("x".to_string()));
    context.register_target("z".to_string(), callable_stub("fz"), vec![], false, true);
    assert_eq!(context.default_target(), Some("y"));
    assert_eq!(context.default_build_script_target, Some("z".to_string()));
}

#[test]
fn later_claim_overrides_earlier_claim() {
    let mut context = EnvironmentContext::new();
    context.register_target("a".to_string(), callable_stub("fa"), vec![], true, true);
    context.register_target("b".to_string(), callable_stub("fb"), vec![], true, true);
    assert_eq!(context.default_target(), Some("b"));
    assert_eq!(context.default_build_script_target, Some("b".to_string()));
}

#[test]
fn registration_keeps_what_it_was_given() {
    let mut context = EnvironmentContext::new();
    context.register_target(
        "app".to_string(),
        callable_stub("build_app"),
        owned(&["lib", "res"]),
        false,
        false,
    );
    let target = context.get_target("app").expect("app is registered");
    assert_eq!(target.callable.to_str(), "build_app");
    assert_eq!(target.depends, owned(&["lib", "res"]));
    assert!(target.resolved_value.is_none());
    assert!(target.built_target.is_none());
    assert!(context.get_target("lib").is_none());
    assert!(context.get_target("ap").is_none());
}

#[test]
fn reregistration_replaces_the_target_and_keeps_the_order() {
    let mut context = EnvironmentContext::new();
    context.register_target("a".to_string(), callable_stub("first"), owned(&["b"]), false, false);
    context.register_target("b".to_string(), callable_stub("fb"), vec![], false, false);
    context.set_resolved_value("a", Value::from(7i64));
    assert!(context.get_target("a").unwrap().resolved_value.is_some());

    context.register_target("a".to_string(), callable_stub("second"), vec![], false, false);
    assert_eq!(context.targets_order(), &owned(&["a", "b"]));
    assert_eq!(context.targets().len(), 2);
    let target = context.get_target("a").unwrap();
    assert_eq!(target.callable.to_str(), "second");
    assert!(target.depends.is_empty());
    assert!(target.resolved_value.is_none());
    assert_eq!(context.default_target(), Some("a"));
    assert_eq!(context.get_target("b").unwrap().callable.to_str(), "fb");
}

#[test]
fn targets_are_listed_in_registration_order() {
    let mut context = EnvironmentContext::new();
    context.register_target("zeta".to_string(), callable_stub("1"), vec![], false, false);
    context.register_target("alpha".to_string(), callable_stub("2"), vec![], false, false);
    context.register_target("mid".to_string(), callable_stub("3"), vec![], false, false);
    assert_eq!(context.targets_order(), &owned(&["zeta", "alpha", "mid"]));
    let callables: Vec<String> =
        context.targets().iter().map(|target| target.callable.to_str()).collect();
    assert_eq!(callables, owned(&["1", "2", "3"]));
}

#[test]
fn get_target_mut_changes_the_registered_target() {
    let mut context = EnvironmentContext::new();
    context.register_target("a".to_string(), callable_stub("fa"), vec![], false, false);
    context.register_target("b".to_string(), callable_stub("fb"), vec![], false, false);
    {
        let target = context.get_target_mut("b").expect("b is registered");
        target.resolved_value = Some(Value::from("done"));
    }
    assert!(context.get_target_mut("missing").is_none());
    assert!(context.get_target("a").unwrap().resolved_value.is_none());
    let value = context.get_target("b").unwrap().resolved_value.clone().unwrap();
    assert_eq!(value.to_str(), "done");
}

#[test]
fn set_resolved_value_ignores_unknown_names() {
    let mut context = EnvironmentContext::new();
    context.register_target("a".to_string(), callable_stub("fa"), vec![], false, false);
    context.set_resolved_value("nope", Value::from(1i64));
    assert!(context.get_target("a").unwrap().resolved_value.is_none());
    assert_eq!(context.targets_order(), &owned(&["a"]));
}

#[test]
fn targets_to_resolve_prefers_the_explicit_list() {
    let mut context = EnvironmentContext::new();
    context.register_target("d".to_string(), callable_stub("fd"), vec![], true, false);
    context.register_target("bsr".to_string(), callable_stub("fb"), vec![], false, true);
    context.set_resolve_targets(owned(&["one", "two"]));
    assert_eq!(context.targets_to_resolve(), owned(&["one", "two"]));
    context.build_script_mode = true;
    assert_eq!(context.targets_to_resolve(), owned(&["one", "two"]));
    context.set_resolve_targets(vec![]);
    assert!(context.targets_to_resolve().is_empty());
}

#[test]
fn targets_to_resolve_in_build_script_mode() {
    let mut context = EnvironmentContext::new();
    context.register_target("main".to_string(), callable_stub("fm"), vec![], true, false);
    context.register_target("bsr".to_string(), callable_stub("fb"), vec![], false, true);
    assert_eq!(context.default_target(), Some("main"));
    assert_eq!(context.targets_to_resolve(), owned(&["main"]));
    context.build_script_mode = true;
    assert_eq!(context.targets_to_resolve(), owned(&["bsr"]));
}

#[test]
fn targets_to_resolve_falls_back_to_the_default() {
    let mut context = EnvironmentContext::new();
    context.build_script_mode = true;
    assert!(context.targets_to_resolve().is_empty());
    context.register_target("only".to_string(), callable_stub("f"), vec![], false, false);
    context.default_build_script_target = None;
    assert_eq!(context.targets_to_resolve(), owned(&["only"]));
}

#[test]
fn index_of_gives_the_place_in_the_order() {
    let mut context = EnvironmentContext::new();
    assert_eq!(context.index_of("a"), None);
    context.register_target("a".to_string(), callable_stub("fa"), vec![], false, false);
    context.register_target("b".to_string(), callable_stub("fb"), vec![], false, false);
    context.register_target("a".to_string(), callable_stub("fa2"), vec![], false, false);
    assert_eq!(context.index_of("a"), Some(0));
    assert_eq!(context.index_of("b"), Some(1));
    assert_eq!(context.index_of("c"), None);
    assert_eq!(context.index_of(""), None);
}

#[test]
fn setters_do_what_assignments_do() {
    let mut context = EnvironmentContext::new();
    context.register_target("main".to_string(), callable_stub("fm"), vec![], false, false);
    context.set_default_build_script_target(Some("bsr".to_string()));
    assert_eq!(context.default_build_script_target, Some("bsr".to_string()));
    assert_eq!(context.targets_to_resolve(), owned(&["main"]));
    context.set_build_script_mode(true);
    assert!(context.build_script_mode);
    assert_eq!(context.targets_to_resolve(), owned(&["bsr"]));
    context.set_default_build_script_target(None);
    assert_eq!(context.targets_to_resolve(), owned(&["main"]));
    context.set_build_script_mode(false);
    assert!(!context.build_script_mode);
}
