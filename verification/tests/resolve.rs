use codemap::CodeMap;
use starlark::environment::{Environment, TypeValues};
use starlark::eval::call_stack::CallStack;
use starlark::eval::noload;
use starlark::stdlib::global_environment;
use starlark::syntax::dialect::Dialect;
use starlark::values::error::ValueError;
use starlark::values::Value;
use starlark_dialect_build_targets::registry::EnvironmentContext;
use starlark_dialect_build_targets::resolve::{
    starlark_resolve_target, starlark_resolve_targets, ResolveError,
};
use std::sync::{Arc, Mutex};

const SCRIPT: &str = r#"
calls = []

def build_leaf():
    calls.append("leaf")
    return "leaf#" + str(len(calls))

def build_b():
    calls.append("b")
    return "B"

def build_c(b):
    calls.append("c")
    return "C(" + b + ")"

def build_a(b):
    calls.append("a")
    return "A(" + b + ")"

def build_pair(first, second):
    calls.append("pair")
    return first + "+" + second

def build_bad():
    calls.append("bad")
    return 1 // 0

def build_after_bad(x):
    calls.append("after_bad")
    return "unreachable"
"#;

fn script_environment() -> (Environment, TypeValues) {
    let (mut env, type_values) = global_environment();
    let map = Arc::new(Mutex::new(CodeMap::new()));
    if noload::eval(&map, "targets.bzl", SCRIPT, Dialect::Bzl, &mut env, &type_values).is_err() {
        panic!("the script does not evaluate");
    }
    (env, type_values)
}

fn global(env: &Environment, name: &str) -> Value {
    match env.get(name) {
        Ok(value) => value,
        Err(_) => panic!("{} is not defined", name),
    }
}

fn calls_made(env: &Environment) -> String {
    global(env, "calls").to_repr()
}

fn names(list: &[&str]) -> Vec<String> {
    list.iter().map(|name| name.to_string()).collect()
}

fn cached_text(context: &EnvironmentContext, name: &str) -> Option<String> {
    context
        .get_target(name)
        .and_then(|target| target.resolved_value.clone())
        .map(|value| value.to_str())
}

#[test]
fn target_without_dependencies_is_called_once() {
    let (env, type_values) = script_environment();
    let mut stack = CallStack::default();
    let mut context = EnvironmentContext::new();
    context.register_target("leaf".to_string(), global(&env, "build_leaf"), vec![], false, false);

    let first =
        starlark_resolve_target(&mut context, &type_values, &mut stack, "leaf".to_string())
            .expect("leaf resolves");
    assert_eq!(first.to_str(), "leaf#1");
    assert_eq!(calls_made(&env), r#"["leaf"]"#);

    let second =
        starlark_resolve_target(&mut context, &type_values, &mut stack, "leaf".to_string())
            .expect("leaf resolves again");
    let third =
        starlark_resolve_target(&mut context, &type_values, &mut stack, "leaf".to_string())
            .expect("leaf resolves a third time");
    assert_eq!(second.to_str(), "leaf#1");
    assert_eq!(third.to_str(), "leaf#1");
    assert_eq!(calls_made(&env), r#"["leaf"]"#);
    assert_eq!(cached_text(&context, "leaf"), Some("leaf#1".to_string()));
}

#[test]
fn dependency_is_resolved_first_and_passed_as_argument() {
    let (env, type_values) = script_environment();
    let mut stack = CallStack::default();
    let mut context = EnvironmentContext::new();
    context.register_target("a".to_string(), global(&env, "build_a"), names(&["b"]), false, false);
    context.register_target("b".to_string(), global(&env, "build_b"), vec![], false, false);

    let value = starlark_resolve_target(&mut context, &type_values, &mut stack, "a".to_string())
        .expect("a resolves");
    assert_eq!(value.to_str(), "A(B)");
    assert_eq!(calls_made(&env), r#"["b", "a"]"#);
    assert_eq!(cached_text(&context, "a"), Some("A(B)".to_string()));
    assert_eq!(cached_text(&context, "b"), Some("B".to_string()));
}

#[test]
fn shared_dependency_is_called_once() {
    let (env, type_values) = script_environment();
    let mut stack = CallStack::default();
    let mut context = EnvironmentContext::new();
    context.register_target("a".to_string(), global(&env, "build_a"), names(&["b"]), false, false);
    context.register_target("c".to_string(), global(&env, "build_c"), names(&["b"]), false, false);
    context.register_target("b".to_string(), global(&env, "build_b"), vec![], false, false);

    let a = starlark_resolve_target(&mut context, &type_values, &mut stack, "a".to_string())
        .expect("a resolves");
    let c = starlark_resolve_target(&mut context, &type_values, &mut stack, "c".to_string())
        .expect("c resolves");
    assert_eq!(a.to_str(), "A(B)");
    assert_eq!(c.to_str(), "C(B)");
    assert_eq!(calls_made(&env), r#"["b", "a", "c"]"#);
}

#[test]
fn arguments_follow_the_order_of_the_dependencies() {
    let (env, type_values) = script_environment();
    let mut stack = CallStack::default();
    let mut context = EnvironmentContext::new();
    context.register_target(
        "pair".to_string(),
        global(&env, "build_pair"),
        names(&["c", "b"]),
        false,
        false,
    );
    context.register_target("b".to_string(), global(&env, "build_b"), vec![], false, false);
    context.register_target("c".to_string(), global(&env, "build_c"), names(&["b"]), false, false);

    let value =
        starlark_resolve_target(&mut context, &type_values, &mut stack, "pair".to_string())
            .expect("pair resolves");
    assert_eq!(value.to_str(), "C(B)+B");
    assert_eq!(calls_made(&env), r#"["b", "c", "pair"]"#);
}

#[test]
fn repeated_dependency_is_passed_twice_and_called_once() {
    let (env, type_values) = script_environment();
    let mut stack = CallStack::default();
    let mut context = EnvironmentContext::new();
    context.register_target(
        "pair".to_string(),
        global(&env, "build_pair"),
        names(&["b", "b"]),
        false,
        false,
    );
    context.register_target("b".to_string(), global(&env, "build_b"), vec![], false, false);

    let value =
        starlark_resolve_target(&mut context, &type_values, &mut stack, "pair".to_string())
            .expect("pair resolves");
    assert_eq!(value.to_str(), "B+B");
    assert_eq!(calls_made(&env), r#"["b", "pair"]"#);
}

#[test]
fn unknown_target_is_not_found_and_nothing_changes() {
    let (env, type_values) = script_environment();
    let mut stack = CallStack::default();
    let mut context = EnvironmentContext::new();
    context.register_target("b".to_string(), global(&env, "build_b"), vec![], false, false);

    match starlark_resolve_target(&mut context, &type_values, &mut stack, "nope".to_string()) {
        Err(ResolveError::TargetNotFound(name)) => assert_eq!(name, "nope"),
        other => panic!("expected a missing target, got {:?}", other),
    }
    assert_eq!(context.targets_order(), &names(&["b"]));
    assert_eq!(context.default_target(), Some("b"));
    assert_eq!(context.targets_to_resolve(), names(&["b"]));
    assert_eq!(cached_text(&context, "b"), None);
    assert!(context.get_target("nope").is_none());
    assert_eq!(calls_made(&env), "[]");
}

#[test]
fn missing_dependency_is_not_found_before_the_target_is_called() {
    let (env, type_values) = script_environment();
    let mut stack = CallStack::default();
    let mut context = EnvironmentContext::new();
    context.register_target(
        "pair".to_string(),
        global(&env, "build_pair"),
        names(&["b", "ghost"]),
        false,
        false,
    );
    context.register_target("b".to_string(), global(&env, "build_b"), vec![], false, false);

    match starlark_resolve_target(&mut context, &type_values, &mut stack, "pair".to_string()) {
        Err(ResolveError::TargetNotFound(name)) => assert_eq!(name, "ghost"),
        other => panic!("expected a missing target, got {:?}", other),
    }
    assert_eq!(calls_made(&env), r#"["b"]"#);
    assert_eq!(cached_text(&context, "b"), Some("B".to_string()));
    assert_eq!(cached_text(&context, "pair"), None);
}

#[test]
fn failed_step_is_reported_and_not_cached() {
    let (env, type_values) = script_environment();
    let mut stack = CallStack::default();
    let mut context = EnvironmentContext::new();
    context.register_target(
        "top".to_string(),
        global(&env, "build_after_bad"),
        names(&["bad"]),
        false,
        false,
    );
    context.register_target("bad".to_string(), global(&env, "build_bad"), vec![], false, false);

    match starlark_resolve_target(&mut context, &type_values, &mut stack, "top".to_string()) {
        Err(ResolveError::StepFailed(name, _)) => assert_eq!(name, "bad"),
        other => panic!("expected a failed step, got {:?}", other),
    }
    assert_eq!(calls_made(&env), r#"["bad"]"#);
    assert_eq!(cached_text(&context, "bad"), None);
    assert_eq!(cached_text(&context, "top"), None);

    match starlark_resolve_target(&mut context, &type_values, &mut stack, "bad".to_string()) {
        Err(ResolveError::StepFailed(name, _)) => assert_eq!(name, "bad"),
        other => panic!("expected a failed step, got {:?}", other),
    }
    assert_eq!(calls_made(&env), r#"["bad", "bad"]"#);
}

#[test]
fn value_that_is_no_function_fails_as_a_step() {
    let (_env, type_values) = script_environment();
    let mut stack = CallStack::default();
    let mut context = EnvironmentContext::new();
    context.register_target("n".to_string(), Value::from(3i64), vec![], false, false);
    match starlark_resolve_target(&mut context, &type_values, &mut stack, "n".to_string()) {
        Err(ResolveError::StepFailed(name, _)) => assert_eq!(name, "n"),
        other => panic!("expected a failed step, got {:?}", other),
    }
}

#[test]
fn cached_target_returns_without_looking_at_its_dependencies() {
    let (env, type_values) = script_environment();
    let mut stack = CallStack::default();
    let mut context = EnvironmentContext::new();
    context.register_target(
        "a".to_string(),
        global(&env, "build_a"),
        names(&["ghost"]),
        false,
        false,
    );
    context.set_resolved_value("a", Value::from("ready"));
    let value = starlark_resolve_target(&mut context, &type_values, &mut stack, "a".to_string())
        .expect("a is cached");
    assert_eq!(value.to_str(), "ready");
    assert_eq!(calls_made(&env), "[]");
}

#[test]
fn reregistered_target_is_called_again() {
    let (env, type_values) = script_environment();
    let mut stack = CallStack::default();
    let mut context = EnvironmentContext::new();
    context.register_target("leaf".to_string(), global(&env, "build_leaf"), vec![], false, false);
    let first =
        starlark_resolve_target(&mut context, &type_values, &mut stack, "leaf".to_string())
            .expect("leaf resolves");
    assert_eq!(first.to_str(), "leaf#1");
    context.register_target("leaf".to_string(), global(&env, "build_leaf"), vec![], false, false);
    let second =
        starlark_resolve_target(&mut context, &type_values, &mut stack, "leaf".to_string())
            .expect("leaf resolves");
    assert_eq!(second.to_str(), "leaf#2");
    assert_eq!(calls_made(&env), r#"["leaf", "leaf"]"#);
}

#[test]
fn resolve_targets_resolves_the_default() {
    let (env, type_values) = script_environment();
    let mut stack = CallStack::default();
    let mut context = EnvironmentContext::new();
    context.register_target("a".to_string(), global(&env, "build_a"), names(&["b"]), false, false);
    context.register_target("b".to_string(), global(&env, "build_b"), vec![], false, false);
    context.register_target("leaf".to_string(), global(&env, "build_leaf"), vec![], false, false);

    assert!(starlark_resolve_targets(&mut context, &type_values, &mut stack).is_ok());
    assert_eq!(calls_made(&env), r#"["b", "a"]"#);
    assert_eq!(cached_text(&context, "a"), Some("A(B)".to_string()));
    assert_eq!(cached_text(&context, "leaf"), None);
}

#[test]
fn resolve_targets_follows_the_explicit_list_in_order() {
    let (env, type_values) = script_environment();
    let mut stack = CallStack::default();
    let mut context = EnvironmentContext::new();
    context.register_target("a".to_string(), global(&env, "build_a"), names(&["b"]), false, false);
    context.register_target("b".to_string(), global(&env, "build_b"), vec![], false, false);
    context.register_target("c".to_string(), global(&env, "build_c"), names(&["b"]), false, false);
    context.set_resolve_targets(names(&["c", "a", "c"]));

    assert!(starlark_resolve_targets(&mut context, &type_values, &mut stack).is_ok());
    assert_eq!(calls_made(&env), r#"["b", "c", "a"]"#);
}

#[test]
fn resolve_targets_in_build_script_mode() {
    let (env, type_values) = script_environment();
    let mut stack = CallStack::default();
    let mut context = EnvironmentContext::new();
    context.register_target("main".to_string(), global(&env, "build_leaf"), vec![], true, false);
    context.register_target("bsr".to_string(), global(&env, "build_b"), vec![], false, true);
    context.build_script_mode = true;

    assert!(starlark_resolve_targets(&mut context, &type_values, &mut stack).is_ok());
    assert_eq!(calls_made(&env), r#"["b"]"#);
    assert_eq!(cached_text(&context, "main"), None);
}

#[test]
fn resolve_targets_stops_at_the_first_failure() {
    let (env, type_values) = script_environment();
    let mut stack = CallStack::default();
    let mut context = EnvironmentContext::new();
    context.register_target("b".to_string(), global(&env, "build_b"), vec![], false, false);
    context.register_target("bad".to_string(), global(&env, "build_bad"), vec![], false, false);
    context.register_target("leaf".to_string(), global(&env, "build_leaf"), vec![], false, false);
    context.set_resolve_targets(names(&["b", "bad", "leaf"]));

    match starlark_resolve_targets(&mut context, &type_values, &mut stack) {
        Err(ResolveError::StepFailed(name, _)) => assert_eq!(name, "bad"),
        other => panic!("expected a failed step, got {:?}", other),
    }
    assert_eq!(calls_made(&env), r#"["b", "bad"]"#);
    assert_eq!(cached_text(&context, "b"), Some("B".to_string()));
    assert_eq!(cached_text(&context, "leaf"), None);
}

#[test]
fn resolve_targets_with_nothing_registered() {
    let (_env, type_values) = script_environment();
    let mut stack = CallStack::default();
    let mut context = EnvironmentContext::new();
    assert!(starlark_resolve_targets(&mut context, &type_values, &mut stack).is_ok());
    context.set_resolve_targets(names(&["nope"]));
    match starlark_resolve_targets(&mut context, &type_values, &mut stack) {
        Err(ResolveError::TargetNotFound(name)) => assert_eq!(name, "nope"),
        other => panic!("expected a missing target, got {:?}", other),
    }
}

#[test]
fn complete_step_keeps_a_value() {
    let mut context = EnvironmentContext::new();
    context.register_target("a".to_string(), Value::from("fa"), vec![], false, false);
    context.register_target("b".to_string(), Value::from("fb"), vec![], false, false);
    let value = context.complete_step("b", Ok(Value::from("built"))).expect("a value is kept");
    assert_eq!(value.to_str(), "built");
    assert_eq!(cached_text(&context, "b"), Some("built".to_string()));
    assert_eq!(cached_text(&context, "a"), None);
}

#[test]
fn complete_step_reports_a_failure() {
    let mut context = EnvironmentContext::new();
    context.register_target("a".to_string(), Value::from("fa"), vec![], false, false);
    match context.complete_step("a", Err(ValueError::DivisionByZero)) {
        Err(ResolveError::StepFailed(name, cause)) => {
            assert_eq!(name, "a");
            assert!(matches!(cause, ValueError::DivisionByZero));
        }
        other => panic!("expected a failed step, got {:?}", other),
    }
    assert_eq!(cached_text(&context, "a"), None);
}

#[test]
fn complete_step_for_an_unknown_target_returns_the_value() {
    let mut context = EnvironmentContext::new();
    context.register_target("a".to_string(), Value::from("fa"), vec![], false, false);
    let value = context.complete_step("zz", Ok(Value::from(5i64))).expect("the value comes back");
    assert_eq!(value.to_int().ok(), Some(5));
    assert_eq!(cached_text(&context, "a"), None);
    assert_eq!(context.targets_order(), &names(&["a"]));
}

#[test]
fn first_missing_dependency_is_the_one_reported() {
    let (env, type_values) = script_environment();
    let mut stack = CallStack::default();
    let mut context = EnvironmentContext::new();
    context.register_target(
        "pair".to_string(),
        global(&env, "build_pair"),
        names(&["ghost1", "ghost2"]),
        false,
        false,
    );
    match starlark_resolve_target(&mut context, &type_values, &mut stack, "pair".to_string()) {
        Err(ResolveError::TargetNotFound(name)) => assert_eq!(name, "ghost1"),
        other => panic!("expected a missing target, got {:?}", other),
    }
    assert_eq!(calls_made(&env), "[]");
    assert_eq!(cached_text(&context, "pair"), None);
}

#[test]
fn calls_go_depth_first_and_left_to_right() {
    let (env, type_values) = script_environment();
    let mut stack = CallStack::default();
    let mut context = EnvironmentContext::new();
    context.register_target(
        "pair".to_string(),
        global(&env, "build_pair"),
        names(&["a", "c"]),
        false,
        false,
    );
    context.register_target("c".to_string(), global(&env, "build_c"), names(&["leaf"]), false, false);
    context.register_target("a".to_string(), global(&env, "build_a"), names(&["b"]), false, false);
    context.register_target("b".to_string(), global(&env, "build_b"), vec![], false, false);
    context.register_target("leaf".to_string(), global(&env, "build_leaf"), vec![], false, false);

    let value =
        starlark_resolve_target(&mut context, &type_values, &mut stack, "pair".to_string())
            .expect("pair resolves");
    assert_eq!(value.to_str(), "A(B)+C(leaf#3)");
    assert_eq!(calls_made(&env), r#"["b", "a", "leaf", "c", "pair"]"#);
}

#[test]
fn failure_stops_before_later_dependencies() {
    let (env, type_values) = script_environment();
    let mut stack = CallStack::default();
    let mut context = EnvironmentContext::new();
    context.register_target(
        "pair".to_string(),
        global(&env, "build_pair"),
        names(&["bad", "b"]),
        false,
        false,
    );
    context.register_target("bad".to_string(), global(&env, "build_bad"), vec![], false, false);
    context.register_target("b".to_string(), global(&env, "build_b"), vec![], false, false);
    match starlark_resolve_target(&mut context, &type_values, &mut stack, "pair".to_string()) {
        Err(ResolveError::StepFailed(name, _)) => assert_eq!(name, "bad"),
        other => panic!("expected a failed step, got {:?}", other),
    }
    assert_eq!(calls_made(&env), r#"["bad"]"#);
    assert_eq!(cached_text(&context, "b"), None);
}
