//! What holds of every resolution, whatever the callables return: each
//! statement here is proved from what `starlark_resolve_target` ensures.

use crate::order::{
    calls_since, halts, lemma_halts_at_first_dependency, lemma_visits_left_to_right,
};
use crate::registry::ContextView;
use crate::resolve::{
    is_path, lemma_advances_trans, lemma_resolved, reaches, resolve_post, ResolveErrorView,
};
use starlark::values::error::ValueError;
use starlark::values::Value;
use vstd::prelude::*;

verus! {

/// Resolving a name that is not registered fails with that name as the
/// missing target and leaves the registry as it was.
pub proof fn lemma_unknown_target_fails(
    before: ContextView,
    name: Seq<char>,
    outcome: Result<Value, ResolveErrorView>,
    after: ContextView,
)
    requires
        !before.is_registered(name),
        resolve_post(before, name, outcome, after),
    ensures
        outcome == Err::<Value, ResolveErrorView>(ResolveErrorView::TargetNotFound(name)),
        after == before,
{
}

/// Once a target was resolved, resolving it again returns the same value
/// and changes nothing: no callable is called a second time.
pub proof fn lemma_resolved_again(
    before: ContextView,
    name: Seq<char>,
    value: Value,
    between: ContextView,
    again: Result<Value, ResolveErrorView>,
    after: ContextView,
)
    requires
        resolve_post(before, name, Ok(value), between),
        resolve_post(between, name, again, after),
    ensures
        again == Ok::<Value, ResolveErrorView>(value),
        after == between,
{
    lemma_resolved(before, name, value, between);
}

/// Resolving a pending target without dependencies makes exactly one call:
/// that of the target's callable, without arguments. What it returns is
/// what the resolution returns.
pub proof fn lemma_single_call(
    before: ContextView,
    name: Seq<char>,
    outcome: Result<Value, ResolveErrorView>,
    after: ContextView,
)
    requires
        before.pending(name),
        before.targets[name].depends.len() == 0,
        resolve_post(before, name, outcome, after),
    ensures
        after.invocations.len() == before.invocations.len() + 1,
        after.invocations.drop_last() == before.invocations,
        after.invocations.last().target == name,
        after.invocations.last().args == Seq::<Value>::empty(),
        match outcome {
            Ok(value) => after.invocations.last().outcome == Ok::<Value, ValueError>(value)
                && after.cached(name) == Some(value),
            Err(error) => error is StepFailed && error->StepFailed_0 == name
                && after.invocations.last().outcome == Err::<Value, ValueError>(
                error->StepFailed_1,
            ) && after.pending(name),
        },
{
    let from = before.invocations.len() as int;
    assert forall|to: Seq<char>| reaches(before, name, to) implies to == name by {
        let path = choose|path: Seq<Seq<char>>| #[trigger]
            is_path(before, path) && path[0] == name && path.last() == to;
        if path.len() > 1 {
            assert(before.pending(path[0]) && before.targets[path[0]].depends.contains(path[1]));
        }
    }
    assert forall|k: int| from <= k < after.invocations.len() implies (
    #[trigger] after.invocations[k]).target == name by {
        assert(reaches(before, name, after.invocations[k].target));
    }
    let last = after.invocations.len() - 1;
    match outcome {
        Ok(value) => {
            if last > from {
                assert(after.invocations[from].target == name);
                assert(after.invocations[last].target == name);
            }
            assert(after.sound_call(before, last));
            assert(after.invocations.drop_last() =~= before.invocations);
        },
        Err(ResolveErrorView::TargetNotFound(missing)) => {
            assert(missing == name);
        },
        Err(ResolveErrorView::StepFailed(failed, cause)) => {
            let kept = after.before_last_call();
            if last > from {
                assert(kept.invocations[from] == after.invocations[from]);
                assert(kept.sound_call(before, from));
                assert(kept.cached(name) is Some);
            }
            assert(after.invocations.drop_last() =~= before.invocations);
        },
    }
    assert(after.invocations.last().args =~= Seq::<Value>::empty());
}

/// A successful resolution of a pending target ends with the call of its
/// callable, whose arguments are the results of the target's dependencies in
/// the order listed; every one of them was resolved before that call.
pub proof fn lemma_dependencies_first(
    before: ContextView,
    name: Seq<char>,
    value: Value,
    after: ContextView,
)
    requires
        before.pending(name),
        resolve_post(before, name, Ok(value), after),
    ensures
        after.invocations.len() > before.invocations.len(),
        after.invocations.last().target == name,
        after.invocations.last().outcome == Ok::<Value, ValueError>(value),
        after.args_match(after.invocations.last()),
        after.prepared(before, after.invocations.len() - 1),
{
    let last = after.invocations.len() - 1;
    assert(after.sound_call(before, last));
}

/// A target with one dependency is called with that dependency's result as
/// its only argument, after the dependency was resolved.
pub proof fn lemma_sole_dependency(
    before: ContextView,
    name: Seq<char>,
    dependency: Seq<char>,
    value: Value,
    after: ContextView,
)
    requires
        before.pending(name),
        before.targets[name].depends == seq![dependency],
        resolve_post(before, name, Ok(value), after),
    ensures
        after.cached(dependency) is Some,
        after.invocations.last().target == name,
        after.invocations.last().args == seq![after.cached(dependency)->Some_0],
        before.cached(dependency) is Some || after.invoked_between(
            before.invocations.len() as int,
            after.invocations.len() - 1,
            dependency,
        ),
{
    lemma_dependencies_first(before, name, value, after);
    let call = after.invocations.last();
    let depends = after.targets[name].depends;
    assert(depends[0] == dependency);
    assert(after.cached(depends[0]) == Some(call.args[0]));
    assert(call.args =~= seq![after.cached(dependency)->Some_0]);
}

/// A successful resolution of a pending target with two pending
/// dependencies that depend on nothing makes three calls: for the
/// dependency listed first, for the one listed second, and for the target.
pub proof fn lemma_dependencies_in_listed_order(
    before: ContextView,
    name: Seq<char>,
    first: Seq<char>,
    second: Seq<char>,
    value: Value,
    after: ContextView,
)
    requires
        before.pending(name),
        before.pending(first),
        before.pending(second),
        first != second,
        before.targets[name].depends == seq![first, second],
        before.targets[first].depends.len() == 0,
        before.targets[second].depends.len() == 0,
        resolve_post(before, name, Ok(value), after),
    ensures
        calls_since(before, after) == seq![first, second, name],
        after.invocations.last().args == seq![
            after.cached(first)->Some_0,
            after.cached(second)->Some_0,
        ],
{
    lemma_resolved(before, name, value, after);
    lemma_visits_left_to_right(before, name, first, second, calls_since(before, after));
    lemma_dependencies_first(before, name, value, after);
    let call = after.invocations.last();
    let depends = after.targets[name].depends;
    assert(depends[0] == first && depends[1] == second);
    assert(after.cached(depends[0]) == Some(call.args[0]));
    assert(after.cached(depends[1]) == Some(call.args[1]));
    assert(call.args =~= seq![after.cached(first)->Some_0, after.cached(second)->Some_0]);
}

/// Whatever a resolution comes to, it keeps what the registry declares and
/// every result that was cached before.
pub proof fn lemma_results_are_kept(
    before: ContextView,
    name: Seq<char>,
    outcome: Result<Value, ResolveErrorView>,
    after: ContextView,
)
    requires
        resolve_post(before, name, outcome, after),
    ensures
        before.same_declarations(after),
        forall|other: Seq<char>|
            before.cached(other) is Some ==> #[trigger] after.cached(other) == before.cached(other),
{
    if before.pending(name) {
        if outcome is Err && outcome->Err_0 is StepFailed {
            assert(before.same_declarations(after.before_last_call()));
        }
    }
}

/// A pending target that lists a dependency which is not registered is never
/// called: resolving it fails and leaves it pending.
pub proof fn lemma_missing_dependency_fails(
    before: ContextView,
    name: Seq<char>,
    j: int,
    outcome: Result<Value, ResolveErrorView>,
    after: ContextView,
)
    requires
        before.pending(name),
        0 <= j < before.targets[name].depends.len(),
        !before.is_registered(before.targets[name].depends[j]),
        resolve_post(before, name, outcome, after),
    ensures
        outcome is Err,
        after.pending(name),
        forall|k: int|
            before.invocations.len() <= k < after.invocations.len() ==> (
            #[trigger] after.invocations[k]).target != name,
{
    lemma_results_are_kept(before, name, outcome, after);
    let missing = before.targets[name].depends[j];
    let from = before.invocations.len() as int;
    assert(after.targets[name].depends[j] == missing);
    match outcome {
        Ok(value) => {
            let last = after.invocations.len() - 1;
            assert(after.sound_call(before, last));
            assert(after.cached(after.targets[name].depends[j]) is Some);
        },
        Err(ResolveErrorView::TargetNotFound(_)) => {
            assert forall|k: int| from <= k < after.invocations.len() implies (
            #[trigger] after.invocations[k]).target != name by {
                if after.invocations[k].target == name {
                    assert(after.sound_call(before, k));
                    assert(after.cached(after.targets[name].depends[j]) is Some);
                }
            }
            if !after.pending(name) {
                assert(after.invoked_since(from, name));
            }
        },
        Err(ResolveErrorView::StepFailed(failed, _)) => {
            let kept = after.before_last_call();
            let last = after.invocations.len() - 1;
            assert(kept.targets[name].depends[j] == missing);
            assert forall|k: int| from <= k < after.invocations.len() implies (
            #[trigger] after.invocations[k]).target != name by {
                if after.invocations[k].target == name {
                    if k < last {
                        assert(kept.invocations[k] == after.invocations[k]);
                        assert(kept.sound_call(before, k));
                        assert(kept.cached(kept.targets[name].depends[j]) is Some);
                    } else {
                        assert(after.cached(after.targets[name].depends[j]) is Some);
                    }
                }
            }
            if !after.pending(name) {
                assert(!kept.pending(name));
                assert(kept.invoked_since(from, name));
                let k = choose|k: int|
                    0 <= k && from <= k < kept.invocations.len() && k < kept.invocations.len() && (
                    #[trigger] kept.invocations[k]).target == name;
                assert(after.invocations[k] == kept.invocations[k]);
            }
        },
    }
}

/// A registry that advanced without any call is the registry it was.
pub proof fn lemma_no_call_no_change(before: ContextView, after: ContextView)
    requires
        before.advances(after),
        after.invocations.len() == before.invocations.len(),
    ensures
        after == before,
{
    assert(after.invocations =~= before.invocations);
    assert forall|name: Seq<char>| before.targets.dom().contains(name) implies (
    #[trigger] after.targets[name]) == before.targets[name] by {
        if before.pending(name) && !after.pending(name) {
            assert(after.invoked_since(before.invocations.len() as int, name));
        }
    }
    assert(after.targets =~= before.targets);
}

/// Resolving a pending target whose first dependency is not registered
/// fails with that dependency as the missing target, without any call and
/// without any change.
pub proof fn lemma_first_dependency_missing(
    before: ContextView,
    name: Seq<char>,
    outcome: Result<Value, ResolveErrorView>,
    after: ContextView,
)
    requires
        before.pending(name),
        before.targets[name].depends.len() > 0,
        !before.is_registered(before.targets[name].depends[0]),
        resolve_post(before, name, outcome, after),
    ensures
        outcome == Err::<Value, ResolveErrorView>(
            ResolveErrorView::TargetNotFound(before.targets[name].depends[0]),
        ),
        after == before,
{
    let trace = calls_since(before, after);
    lemma_missing_dependency_fails(before, name, 0, outcome, after);
    match outcome {
        Ok(_) => {},
        Err(ResolveErrorView::TargetNotFound(missing)) => {
            let path = choose|path: Seq<Seq<char>>| #[trigger]
                halts(before, Set::empty(), name, trace, path, false) && path.last() == missing;
            lemma_halts_at_first_dependency(before, name, trace, path, false);
            assert(trace.len() == after.invocations.len() - before.invocations.len());
            lemma_no_call_no_change(before, after);
        },
        Err(ResolveErrorView::StepFailed(failed, _)) => {
            let path = choose|path: Seq<Seq<char>>| #[trigger]
                halts(before, Set::empty(), name, trace, path, true) && path.last() == failed;
            lemma_halts_at_first_dependency(before, name, trace, path, true);
        },
    }
}

/// Over two successful resolutions in a row, no target is called twice, and
/// every call was handed the results that the registry holds in the end: a
/// dependency that two targets share is called at most once, and both see
/// the same result.
pub proof fn lemma_shared_dependency(
    before: ContextView,
    first: Seq<char>,
    first_value: Value,
    between: ContextView,
    second: Seq<char>,
    second_value: Value,
    after: ContextView,
)
    requires
        resolve_post(before, first, Ok(first_value), between),
        resolve_post(between, second, Ok(second_value), after),
    ensures
        before.advances(after),
        forall|k1: int, k2: int|
            before.invocations.len() <= k1 < k2 < after.invocations.len() ==> (
            #[trigger] after.invocations[k1]).target != (#[trigger] after.invocations[k2]).target,
        forall|k: int|
            before.invocations.len() <= k < after.invocations.len() ==> after.args_match(
                #[trigger] after.invocations[k],
            ),
        forall|k1: int, j1: int, k2: int, j2: int|
            before.invocations.len() <= k1 < after.invocations.len() && before.invocations.len()
                <= k2 < after.invocations.len() && 0 <= j1
                < after.targets[after.invocations[k1].target].depends.len() && 0 <= j2
                < after.targets[after.invocations[k2].target].depends.len()
                && after.targets[after.invocations[k1].target].depends[j1]
                == after.targets[after.invocations[k2].target].depends[j2] ==> (
            #[trigger] after.invocations[k1].args[j1]) == (
            #[trigger] after.invocations[k2].args[j2]),
        after.cached(first) == Some(first_value),
        after.cached(second) == Some(second_value),
{
    lemma_resolved(before, first, first_value, between);
    lemma_resolved(between, second, second_value, after);
    lemma_advances_trans(before, between, after);
    assert forall|k: int|
        before.invocations.len() <= k < after.invocations.len() implies after.args_match(
        #[trigger] after.invocations[k],
    ) by {
        assert(after.sound_call(before, k));
    }
    assert forall|k1: int, j1: int, k2: int, j2: int|
        before.invocations.len() <= k1 < after.invocations.len() && before.invocations.len()
            <= k2 < after.invocations.len() && 0 <= j1
            < after.targets[after.invocations[k1].target].depends.len() && 0 <= j2
            < after.targets[after.invocations[k2].target].depends.len()
            && after.targets[after.invocations[k1].target].depends[j1]
            == after.targets[after.invocations[k2].target].depends[j2] implies (
    #[trigger] after.invocations[k1].args[j1]) == (#[trigger] after.invocations[k2].args[j2]) by {
        let one = after.invocations[k1];
        let two = after.invocations[k2];
        assert(after.args_match(one) && after.args_match(two));
        assert(after.cached(after.targets[one.target].depends[j1]) == Some(one.args[j1]));
        assert(after.cached(after.targets[two.target].depends[j2]) == Some(two.args[j2]));
    }
}

} // verus!
