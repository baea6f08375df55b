//! Resolution: a target's dependencies first, in the order listed, then the
//! target's callable once, with the result kept for every later request.

use crate::order::{
    calls_since, halts, lemma_halts_at_call, lemma_halts_at_unknown, lemma_halts_below,
    lemma_visits_one_more, lemma_visits_then_call, stops_at, visits, visits_each,
};
use crate::registry::{clone_names, names_of, ContextView, EnvironmentContext, Invocation};
use crate::script::call_positional;
use starlark::environment::TypeValues;
use starlark::eval::call_stack::CallStack;
use starlark::values::error::ValueError;
use starlark::values::Value;
use vstd::prelude::*;

verus! {

/// Why a target could not be resolved.
#[derive(Debug)]
pub enum ResolveError {
    /// No target is registered under this name.
    TargetNotFound(String),
    /// The callable of this target failed, with this cause.
    StepFailed(String, ValueError),
}

/// A `ResolveError` as contracts see it.
pub ghost enum ResolveErrorView {
    TargetNotFound(Seq<char>),
    StepFailed(Seq<char>, ValueError),
}

impl View for ResolveError {
    type V = ResolveErrorView;

    open spec fn view(&self) -> ResolveErrorView {
        match *self {
            ResolveError::TargetNotFound(name) => ResolveErrorView::TargetNotFound(name@),
            ResolveError::StepFailed(name, cause) => ResolveErrorView::StepFailed(name@, cause),
        }
    }
}

/// The outcome of a resolution as contracts see it.
pub open spec fn outcome_view<T>(outcome: Result<T, ResolveError>) -> Result<T, ResolveErrorView> {
    match outcome {
        Ok(value) => Ok(value),
        Err(error) => Err(error@),
    }
}

impl ContextView {
    /// Registered and not resolved yet.
    pub open spec fn pending(self, name: Seq<char>) -> bool {
        self.is_registered(name) && self.targets[name].resolved_value is None
    }

    /// `later` declares what `self` declares, and has kept every cached result.
    pub open spec fn same_declarations(self, later: ContextView) -> bool {
        &&& later.targets_order == self.targets_order
        &&& later.default_target == self.default_target
        &&& later.resolve_targets == self.resolve_targets
        &&& later.default_build_script_target == self.default_build_script_target
        &&& later.build_script_mode == self.build_script_mode
        &&& later.targets.dom() == self.targets.dom()
        &&& forall|name: Seq<char>|
            #![trigger self.targets[name]]
            #![trigger later.targets[name]]
            self.targets.dom().contains(name) ==> {
                &&& later.targets[name].callable == self.targets[name].callable
                &&& later.targets[name].depends == self.targets[name].depends
                &&& later.targets[name].built_target == self.targets[name].built_target
                &&& self.targets[name].resolved_value is Some
                    ==> later.targets[name].resolved_value == self.targets[name].resolved_value
            }
    }

    /// The arguments of `invocation` are the cached results of its target's
    /// dependencies, in the order in which the target lists them.
    pub open spec fn args_match(self, invocation: Invocation) -> bool {
        let depends = self.targets[invocation.target].depends;
        &&& invocation.args.len() == depends.len()
        &&& forall|j: int|
            #![trigger depends[j]]
            #![trigger invocation.args[j]]
            0 <= j < depends.len() ==> self.cached(depends[j]) == Some(invocation.args[j])
    }

    /// Whether a call for `name` was recorded at a position from `from` up
    /// to, and not including, `to`.
    pub open spec fn invoked_between(self, from: int, to: int, name: Seq<char>) -> bool {
        exists|k: int|
            0 <= k && from <= k < to && k < self.invocations.len() && (
            #[trigger] self.invocations[k]).target == name
    }

    /// Whether a call for `name` was recorded at or after position `from`.
    pub open spec fn invoked_since(self, from: int, name: Seq<char>) -> bool {
        self.invoked_between(from, self.invocations.len() as int, name)
    }

    /// When call `k` was made, every dependency of its target had its result:
    /// from before position `from`, where `earlier` was the registry, or
    /// from a call in between.
    pub open spec fn prepared(self, earlier: ContextView, k: int) -> bool {
        let depends = self.targets[self.invocations[k].target].depends;
        forall|j: int|
            0 <= j < depends.len() ==> earlier.cached(#[trigger] depends[j]) is Some
                || self.invoked_between(earlier.invocations.len() as int, k, depends[j])
    }

    /// Call `k` was a successful call for a target that was pending in
    /// `earlier`, made when its dependencies had their results, and `self`
    /// holds its result.
    pub open spec fn sound_call(self, earlier: ContextView, k: int) -> bool {
        let invocation = self.invocations[k];
        &&& earlier.pending(invocation.target)
        &&& invocation.outcome is Ok
        &&& self.cached(invocation.target) == Some(invocation.outcome->Ok_0)
        &&& self.args_match(invocation)
        &&& self.prepared(earlier, k)
    }

    /// `later` is `self` after successful calls only: one call for each
    /// target that got its result in between, none for any other target, each
    /// after the calls for the target's dependencies and with their results
    /// as arguments; and nothing else differs.
    pub open spec fn advances(self, later: ContextView) -> bool {
        let from = self.invocations.len() as int;
        &&& self.same_declarations(later)
        &&& self.invocations.is_prefix_of(later.invocations)
        &&& forall|k: int|
            #![trigger later.invocations[k]]
            from <= k < later.invocations.len() ==> later.sound_call(self, k)
        &&& forall|k1: int, k2: int|
            from <= k1 < k2 < later.invocations.len() ==> (#[trigger] later.invocations[k1]).target
                != (#[trigger] later.invocations[k2]).target
        &&& forall|name: Seq<char>|
            self.pending(name) && !(#[trigger] later.pending(name)) ==> later.invoked_since(
                from,
                name,
            )
    }

    /// The registry without the latest recorded call.
    pub open spec fn before_last_call(self) -> ContextView {
        ContextView { invocations: self.invocations.drop_last(), ..self }
    }
}

/// Each name of `path` but the last is a pending target that lists the next
/// name among its dependencies.
pub open spec fn is_path(context: ContextView, path: Seq<Seq<char>>) -> bool {
    &&& path.len() > 0
    &&& forall|i: int|
        0 <= i < path.len() - 1 ==> context.pending(#[trigger] path[i])
            && context.targets[path[i]].depends.contains(path[i + 1])
}

/// Resolving `from` comes to ask for `to`: `to` is `from`, or a dependency
/// of a pending target that resolving `from` comes to ask for.
pub open spec fn reaches(context: ContextView, from: Seq<char>, to: Seq<char>) -> bool {
    exists|path: Seq<Seq<char>>| #[trigger]
        is_path(context, path) && path[0] == from && path.last() == to
}

/// Every call recorded in `after` and not in `before` was for a target that
/// resolving `name` comes to ask for.
pub open spec fn calls_needed(before: ContextView, name: Seq<char>, after: ContextView) -> bool {
    forall|k: int|
        before.invocations.len() <= k < after.invocations.len() ==> reaches(
            before,
            name,
            (#[trigger] after.invocations[k]).target,
        )
}

/// What resolving `name` makes of `before`, whatever the callables return.
///
/// An unknown name fails and a cached result is returned, each without any
/// call and without any change. Otherwise only targets that resolving `name`
/// comes to ask for were called, and: a success has advanced the registry to
/// one that holds the result, by calls in the order of `visits`, of which
/// that for `name` came last; a missing target was asked for after
/// successful calls only; and a failed call came last, after successful
/// calls only, for a target that is left pending. Either failure is the
/// first that resolving meets on its way, as `stops_at` has it.
pub open spec fn resolve_post(
    before: ContextView,
    name: Seq<char>,
    outcome: Result<Value, ResolveErrorView>,
    after: ContextView,
) -> bool {
    if !before.is_registered(name) {
        outcome == Err::<Value, ResolveErrorView>(ResolveErrorView::TargetNotFound(name)) && after
            == before
    } else if let Some(value) = before.targets[name].resolved_value {
        outcome == Ok::<Value, ResolveErrorView>(value) && after == before
    } else {
        &&& calls_needed(before, name, after)
        &&& match outcome {
            Ok(value) => {
                &&& before.advances(after)
                &&& after.cached(name) == Some(value)
                &&& after.invocations.len() > before.invocations.len()
                &&& after.invocations.last().target == name
                &&& visits(before, Set::empty(), name, calls_since(before, after))
            },
            Err(ResolveErrorView::TargetNotFound(missing)) => {
                &&& before.advances(after)
                &&& !after.is_registered(missing)
                &&& reaches(before, name, missing)
                &&& stops_at(before, name, after, missing, false)
            },
            Err(ResolveErrorView::StepFailed(failed, cause)) => {
                &&& after.invocations.len() > before.invocations.len()
                &&& before.advances(after.before_last_call())
                &&& after.invocations.last().target == failed
                &&& after.invocations.last().outcome == Err::<Value, ValueError>(cause)
                &&& after.pending(failed)
                &&& after.args_match(after.invocations.last())
                &&& after.prepared(before, after.invocations.len() - 1)
                &&& stops_at(before, name, after, failed, true)
            },
        }
    }
}

/// `rank` orders the pending targets it covers below the pending targets
/// that depend on them.
pub open spec fn ranked(context: ContextView, rank: Map<Seq<char>, nat>) -> bool {
    forall|name: Seq<char>, j: int|
        rank.dom().contains(name) && context.pending(name) && 0 <= j
            < context.targets[name].depends.len() && context.pending(
            #[trigger] context.targets[name].depends[j],
        ) ==> rank.dom().contains(context.targets[name].depends[j])
            && rank[context.targets[name].depends[j]] < rank[name]
}

/// No pending target that resolving `name` reaches depends on itself, directly
/// or through other pending targets.
pub open spec fn acyclic_from(context: ContextView, name: Seq<char>) -> bool {
    exists|rank: Map<Seq<char>, nat>|
        #[trigger] ranked(context, rank) && (context.pending(name) ==> rank.dom().contains(name))
}

/// Resolving `name` comes to ask for a pending target that, by way of its
/// dependencies, comes to ask for itself: `lap` leads from that target back
/// to it.
pub open spec fn cyclic_from(context: ContextView, name: Seq<char>) -> bool {
    exists|lap: Seq<Seq<char>>| #[trigger]
        is_path(context, lap) && lap.len() > 1 && lap[0] == lap.last() && reaches(
            context,
            name,
            lap[0],
        )
}

/// Along a path of pending targets, a ranking that covers the first covers
/// each, and falls by one at least from each to the next.
pub proof fn lemma_path_ranks(
    context: ContextView,
    rank: Map<Seq<char>, nat>,
    path: Seq<Seq<char>>,
    i: int,
)
    requires
        ranked(context, rank),
        is_path(context, path),
        context.pending(path.last()),
        rank.dom().contains(path[0]),
        0 <= i < path.len(),
    ensures
        rank.dom().contains(path[i]),
        rank[path[i]] + i <= rank[path[0]],
    decreases i,
{
    if i > 0 {
        lemma_path_ranks(context, rank, path, i - 1);
        let upper = path[i - 1];
        assert(context.pending(upper) && context.targets[upper].depends.contains(path[i - 1 + 1]));
        let j = choose|j: int|
            0 <= j < context.targets[upper].depends.len() && context.targets[upper].depends[j]
                == path[i];
        if i < path.len() - 1 {
            assert(context.pending(path[i]));
        }
        assert(context.pending(context.targets[upper].depends[j]));
    }
}

/// Where resolving is free of cycles, it asks for no pending target that
/// comes to ask for itself.
pub proof fn lemma_acyclic_has_no_cycle(context: ContextView, name: Seq<char>)
    requires
        acyclic_from(context, name),
    ensures
        !cyclic_from(context, name),
{
    if cyclic_from(context, name) {
        let rank = choose|rank: Map<Seq<char>, nat>| #[trigger]
            ranked(context, rank) && (context.pending(name) ==> rank.dom().contains(name));
        let lap = choose|lap: Seq<Seq<char>>| #[trigger]
            is_path(context, lap) && lap.len() > 1 && lap[0] == lap.last() && reaches(
                context,
                name,
                lap[0],
            );
        let path = choose|path: Seq<Seq<char>>| #[trigger]
            is_path(context, path) && path[0] == name && path.last() == lap[0];
        assert(context.pending(lap[0]));
        if path.len() > 1 {
            assert(context.pending(path[0]));
        }
        lemma_path_ranks(context, rank, path, path.len() - 1);
        lemma_path_ranks(context, rank, lap, lap.len() - 1);
    }
}

/// Resolving a name that is not pending is free of cycles: nothing is asked
/// for.
pub proof fn lemma_acyclic_when_not_pending(context: ContextView, name: Seq<char>)
    requires
        !context.pending(name),
    ensures
        acyclic_from(context, name),
{
    assert(ranked(context, Map::<Seq<char>, nat>::empty()));
}

/// How far resolving `name` is from done.
pub open spec fn distance(context: ContextView, rank: Map<Seq<char>, nat>, name: Seq<char>) -> nat {
    if context.pending(name) && rank.dom().contains(name) {
        rank[name] + 1
    } else {
        0
    }
}

/// Every call recorded in `after` and not in `before` was for a target
/// that `rank` places below `bound`.
pub open spec fn calls_below(
    before: ContextView,
    after: ContextView,
    rank: Map<Seq<char>, nat>,
    bound: nat,
) -> bool {
    forall|k: int|
        before.invocations.len() <= k < after.invocations.len() ==> rank.dom().contains(
            (#[trigger] after.invocations[k]).target,
        ) && rank[after.invocations[k].target] < bound
}

/// A registry advances to itself, by no call.
pub proof fn lemma_advances_refl(context: ContextView)
    ensures
        context.advances(context),
{
}

/// A call recorded in a range is recorded in every wider range of a record
/// that begins with the same calls.
pub proof fn lemma_invoked_wider(
    narrow: ContextView,
    from: int,
    to: int,
    name: Seq<char>,
    wide: ContextView,
    wide_from: int,
    wide_to: int,
)
    requires
        narrow.invoked_between(from, to, name),
        narrow.invocations.is_prefix_of(wide.invocations),
        wide_from <= from,
        to <= wide_to,
    ensures
        wide.invoked_between(wide_from, wide_to, name),
{
    let k = choose|k: int|
        0 <= k && from <= k < to && k < narrow.invocations.len() && (
        #[trigger] narrow.invocations[k]).target == name;
    assert(wide.invocations[k] == narrow.invocations[k]);
}

/// Advancing twice is advancing: over both steps still no target is called
/// twice, and every call still matches the results held in the end.
pub proof fn lemma_advances_trans(first: ContextView, second: ContextView, third: ContextView)
    requires
        first.advances(second),
        second.advances(third),
    ensures
        first.advances(third),
{
    let from = first.invocations.len() as int;
    let mid = second.invocations.len() as int;
    assert(first.same_declarations(third));
    assert forall|k: int|
        #![trigger third.invocations[k]]
        from <= k < third.invocations.len() implies third.sound_call(first, k) by {
        let invocation = third.invocations[k];
        let depends = third.targets[invocation.target].depends;
        if k < mid {
            assert(invocation == second.invocations[k]);
            assert(second.sound_call(first, k));
            assert forall|j: int| 0 <= j < depends.len() implies third.cached(depends[j]) == Some(
                invocation.args[j],
            ) by {
                assert(second.cached(depends[j]) == Some(invocation.args[j]));
            }
            assert forall|j: int| 0 <= j < depends.len() implies first.cached(
                #[trigger] depends[j],
            ) is Some || third.invoked_between(from, k, depends[j]) by {
                if !(first.cached(depends[j]) is Some) {
                    lemma_invoked_wider(second, from, k, depends[j], third, from, k);
                }
            }
        } else {
            assert(third.sound_call(second, k));
            assert forall|j: int| 0 <= j < depends.len() implies first.cached(
                #[trigger] depends[j],
            ) is Some || third.invoked_between(from, k, depends[j]) by {
                let dep = depends[j];
                if !(first.cached(dep) is Some) {
                    if second.cached(dep) is Some {
                        assert(first.pending(dep) && !second.pending(dep));
                        lemma_invoked_wider(second, from, mid, dep, third, from, k);
                    } else {
                        lemma_invoked_wider(third, mid, k, dep, third, from, k);
                    }
                }
            }
        }
    }
    assert forall|k1: int, k2: int| from <= k1 < k2 < third.invocations.len() implies (
    #[trigger] third.invocations[k1]).target != (#[trigger] third.invocations[k2]).target by {
        if k2 < mid {
            assert(third.invocations[k1] == second.invocations[k1]);
            assert(third.invocations[k2] == second.invocations[k2]);
        } else if k1 < mid {
            assert(third.invocations[k1] == second.invocations[k1]);
            assert(second.sound_call(first, k1));
            assert(third.sound_call(second, k2));
        }
    }
    assert forall|name: Seq<char>| first.pending(name) && !(#[trigger] third.pending(
        name,
    )) implies third.invoked_since(from, name) by {
        if !second.pending(name) {
            lemma_invoked_wider(
                second,
                from,
                mid,
                name,
                third,
                from,
                third.invocations.len() as int,
            );
        } else {
            lemma_invoked_wider(
                third,
                mid,
                third.invocations.len() as int,
                name,
                third,
                from,
                third.invocations.len() as int,
            );
        }
    }
}

/// A successful call for a pending target whose dependencies are all
/// resolved advances the registry.
pub proof fn lemma_advances_by_call(before: ContextView, invocation: Invocation, after: ContextView)
    requires
        before.pending(invocation.target),
        before.args_match(invocation),
        invocation.outcome is Ok,
        after == (ContextView {
            invocations: before.invocations.push(invocation),
            ..before
        }).with_resolved_value(invocation.target, invocation.outcome->Ok_0),
    ensures
        before.advances(after),
{
    let from = before.invocations.len() as int;
    assert(after.invocations[from] == invocation);
    assert(after.targets.dom() =~= before.targets.dom());
    assert(before.same_declarations(after));
    assert(after.args_match(invocation));
    assert(after.prepared(before, from));
    assert forall|name: Seq<char>| before.pending(name) && !(#[trigger] after.pending(
        name,
    )) implies after.invoked_since(from, name) by {
        assert(name == invocation.target);
        assert(after.invocations[from].target == name);
    }
}

/// What the results of a target's dependencies came from, seen from an
/// earlier registry: each was there already, or a call since made it.
pub proof fn lemma_prepared_from(
    first: ContextView,
    second: ContextView,
    third: ContextView,
    k: int,
)
    requires
        first.advances(second),
        second.invocations.is_prefix_of(third.invocations),
        second.invocations.len() <= k < third.invocations.len(),
        third.prepared(second, k),
    ensures
        third.prepared(first, k),
{
    let from = first.invocations.len() as int;
    let mid = second.invocations.len() as int;
    let depends = third.targets[third.invocations[k].target].depends;
    assert forall|j: int| 0 <= j < depends.len() implies first.cached(#[trigger] depends[j]) is Some
        || third.invoked_between(from, k, depends[j]) by {
        let dep = depends[j];
        if !(first.cached(dep) is Some) {
            if second.cached(dep) is Some {
                assert(first.pending(dep) && !second.pending(dep));
                lemma_invoked_wider(second, from, mid, dep, third, from, k);
            } else {
                lemma_invoked_wider(third, mid, k, dep, third, from, k);
            }
        }
    }
}

/// What resolving a dependency of a pending target comes to ask for,
/// resolving the target comes to ask for, also when seen from an earlier
/// registry.
pub proof fn lemma_reaches_through(
    earlier: ContextView,
    later: ContextView,
    target: Seq<char>,
    j: int,
    to: Seq<char>,
)
    requires
        earlier.same_declarations(later),
        earlier.pending(target),
        0 <= j < earlier.targets[target].depends.len(),
        reaches(later, earlier.targets[target].depends[j], to),
    ensures
        reaches(earlier, target, to),
{
    let dep = earlier.targets[target].depends[j];
    let tail = choose|path: Seq<Seq<char>>| #[trigger]
        is_path(later, path) && path[0] == dep && path.last() == to;
    let path = seq![target] + tail;
    assert forall|i: int| 0 <= i < path.len() - 1 implies earlier.pending(#[trigger] path[i])
        && earlier.targets[path[i]].depends.contains(path[i + 1]) by {
        if i > 0 {
            assert(path[i] == tail[i - 1]);
            assert(path[i + 1] == tail[i]);
            assert(later.pending(tail[i - 1]));
        } else {
            assert(path[1] == tail[0]);
        }
    }
    assert(is_path(earlier, path));
    assert(path.last() == to);
}

/// Resolving a name comes to ask for that name.
pub proof fn lemma_reaches_self(context: ContextView, name: Seq<char>)
    ensures
        reaches(context, name, name),
{
    let path = seq![name];
    assert(is_path(context, path));
    assert(path[0] == name && path.last() == name);
}

/// A ranking stays one while the registry advances.
pub proof fn lemma_ranked_later(before: ContextView, after: ContextView, rank: Map<Seq<char>, nat>)
    requires
        before.same_declarations(after),
        ranked(before, rank),
    ensures
        ranked(after, rank),
{
    assert forall|name: Seq<char>, j: int|
        rank.dom().contains(name) && after.pending(name) && 0 <= j
            < after.targets[name].depends.len() && after.pending(
            #[trigger] after.targets[name].depends[j],
        ) implies rank.dom().contains(after.targets[name].depends[j])
        && rank[after.targets[name].depends[j]] < rank[name] by {
        let dep = before.targets[name].depends[j];
        assert(before.pending(name));
        assert(before.pending(dep));
    }
}

/// A resolution that failed stopped at the name that the failure names,
/// after the calls that come before it in the order of resolution.
pub proof fn lemma_stopped(
    before: ContextView,
    name: Seq<char>,
    error: ResolveErrorView,
    after: ContextView,
)
    requires
        resolve_post(before, name, Err(error), after),
    ensures
        match error {
            ResolveErrorView::TargetNotFound(missing) => stops_at(
                before,
                name,
                after,
                missing,
                false,
            ),
            ResolveErrorView::StepFailed(failed, _) => stops_at(before, name, after, failed, true),
        },
{
    if !before.is_registered(name) {
        lemma_halts_at_unknown(before, name);
    }
}

/// A resolution that succeeded has advanced the registry to one that holds
/// the result.
pub proof fn lemma_resolved(
    before: ContextView,
    name: Seq<char>,
    value: Value,
    after: ContextView,
)
    requires
        resolve_post(before, name, Ok(value), after),
    ensures
        before.advances(after),
        after.cached(name) == Some(value),
        visits(before, Set::empty(), name, calls_since(before, after)),
{
}

impl EnvironmentContext {
    /// Takes what the callable of `target` gave back: a value is kept as the
    /// target's result and returned, a failure is reported as the failure of
    /// that target and nothing is kept.
    pub fn complete_step(&mut self, target: &str, outcome: Result<Value, ValueError>) -> (result:
        Result<Value, ResolveError>)
        requires
            old(self).wf(),
        ensures
            final(self).wf(),
            match outcome {
                Ok(value) => outcome_view(result) == Ok::<Value, ResolveErrorView>(value)
                    && final(self)@ == old(self)@.with_resolved_value(target@, value),
                Err(cause) => outcome_view(result) == Err::<Value, ResolveErrorView>(
                    ResolveErrorView::StepFailed(target@, cause),
                ) && final(self)@ == old(self)@,
            },
    {
        match outcome {
            Ok(value) => {
                self.set_resolved_value(target, value.clone());
                Ok(value)
            },
            Err(cause) => Err(ResolveError::StepFailed(target.to_owned(), cause)),
        }
    }
}

/// Resolves `target` under a ranking of the pending targets, which bounds
/// the depth of the recursion.
fn resolve_ranked(
    context: &mut EnvironmentContext,
    type_values: &TypeValues,
    call_stack: &mut CallStack,
    target: &str,
    Ghost(rank): Ghost<Map<Seq<char>, nat>>,
) -> (result: Result<Value, ResolveError>)
    requires
        old(context).wf(),
        ranked(old(context)@, rank),
        old(context)@.pending(target@) ==> rank.dom().contains(target@),
    ensures
        final(context).wf(),
        resolve_post(old(context)@, target@, outcome_view(result), final(context)@),
        old(context)@.same_declarations(final(context)@),
        calls_below(
            old(context)@,
            final(context)@,
            rank,
            distance(old(context)@, rank, target@),
        ),
    decreases distance(old(context)@, rank, target@),
{
    let ghost start = context@;
    let (callable, depends) = match context.get_target(target) {
        None => {
            return Err(ResolveError::TargetNotFound(target.to_owned()));
        },
        Some(entry) => {
            match &entry.resolved_value {
                Some(value) => {
                    return Ok(value.clone());
                },
                None => {},
            }
            (entry.callable.clone(), clone_names(&entry.depends))
        },
    };
    let ghost wanted = names_of(depends@);
    let mut args: Vec<Value> = Vec::new();
    let mut i: usize = 0;
    while i < depends.len()
        invariant
            start == old(context)@,
            context.wf(),
            i <= depends.len(),
            wanted == names_of(depends@),
            wanted == start.targets[target@].depends,
            start.pending(target@),
            rank.dom().contains(target@),
            ranked(start, rank),
            start.advances(context@),
            context@.pending(target@),
            calls_below(start, context@, rank, rank[target@]),
            calls_needed(start, target@, context@),
            visits_each(
                start,
                Set::empty(),
                wanted.take(i as int),
                calls_since(start, context@),
            ),
            args.len() == i,
            forall|j: int| 0 <= j < i ==> context@.cached(#[trigger] wanted[j]) == Some(args@[j]),
        decreases depends.len() - i,
    {
        let ghost mid = context@;
        let ghost dep = wanted[i as int];
        proof {
            lemma_ranked_later(start, mid, rank);
            assert(mid.targets[target@].depends[i as int] == dep);
            assert(depends@[i as int]@ == dep);
        }
        let step = resolve_ranked(
            context,
            type_values,
            call_stack,
            depends[i].as_str(),
            Ghost(rank),
        );
        proof {
            let after = context@;
            assert(start.same_declarations(after));
            assert(distance(mid, rank, dep) <= rank[target@]);
            assert(calls_needed(start, target@, after)) by {
                assert forall|k: int|
                    start.invocations.len() <= k < after.invocations.len() implies reaches(
                    start,
                    target@,
                    (#[trigger] after.invocations[k]).target,
                ) by {
                    if k < mid.invocations.len() {
                        assert(after.invocations[k] == mid.invocations[k]);
                    } else {
                        assert(reaches(mid, dep, after.invocations[k].target));
                        lemma_reaches_through(
                            start,
                            mid,
                            target@,
                            i as int,
                            after.invocations[k].target,
                        );
                    }
                }
            }
            assert(calls_below(start, after, rank, rank[target@])) by {
                assert forall|k: int|
                    start.invocations.len() <= k < after.invocations.len() implies rank.dom().contains(
                    (#[trigger] after.invocations[k]).target,
                ) && rank[after.invocations[k].target] < rank[target@] by {
                    if k < mid.invocations.len() {
                        assert(after.invocations[k] == mid.invocations[k]);
                    }
                }
            }
        }
        match step {
            Ok(value) => {
                proof {
                    let after = context@;
                    lemma_resolved(mid, dep, value, after);
                    lemma_visits_one_more(start, mid, after, wanted, i as int);
                    lemma_advances_trans(start, mid, after);
                    if !after.pending(target@) {
                        assert(after.invoked_since(mid.invocations.len() as int, target@));
                    }
                    assert forall|j: int| 0 <= j < i implies after.cached(#[trigger] wanted[j])
                        == Some(args@[j]) by {
                        assert(mid.cached(wanted[j]) == Some(args@[j]));
                    }
                }
                args.push(value);
            },
            Err(error) => {
                proof {
                    let after = context@;
                    match error@ {
                        ResolveErrorView::TargetNotFound(missing) => {
                            if mid.is_registered(dep) {
                                lemma_advances_trans(start, mid, after);
                            } else {
                                lemma_reaches_self(mid, dep);
                            }
                            lemma_reaches_through(start, mid, target@, i as int, missing);
                            lemma_stopped(mid, dep, error@, after);
                            let path = choose|path: Seq<Seq<char>>| #[trigger]
                                halts(
                                    mid,
                                    Set::empty(),
                                    dep,
                                    calls_since(mid, after),
                                    path,
                                    false,
                                ) && path.last() == missing;
                            lemma_halts_below(start, mid, after, target@, i as int, path, false);
                        },
                        ResolveErrorView::StepFailed(failed, cause) => {
                            lemma_advances_trans(start, mid, after.before_last_call());
                            lemma_prepared_from(start, mid, after, after.invocations.len() - 1);
                            lemma_stopped(mid, dep, error@, after);
                            let path = choose|path: Seq<Seq<char>>| #[trigger]
                                halts(
                                    mid,
                                    Set::empty(),
                                    dep,
                                    calls_since(mid, after),
                                    path,
                                    true,
                                ) && path.last() == failed;
                            lemma_halts_below(start, mid, after, target@, i as int, path, true);
                        },
                    }
                }
                return Err(error);
            },
        }
        i += 1;
    }
    let ghost ready = context@;
    let ghost handed = args@;
    let outcome = call_positional(&callable, call_stack, type_values, args);
    let ghost invocation = Invocation { target: target@, args: handed, outcome };
    context.note_invocation(Ghost(invocation));
    let ghost noted = context@;
    let result = context.complete_step(target, outcome);
    proof {
        let after = context@;
        assert(ready.args_match(invocation));
        assert(noted.invocations.drop_last() =~= ready.invocations);
        match invocation.outcome {
            Ok(value) => {
                lemma_advances_by_call(ready, invocation, after);
                lemma_advances_trans(start, ready, after);
                assert(wanted.take(wanted.len() as int) =~= wanted);
                lemma_visits_then_call(start, ready, after, target@);
            },
            Err(cause) => {
                assert(after.before_last_call() == ready);
                assert(after.prepared(ready, ready.invocations.len() as int));
                lemma_prepared_from(start, ready, after, ready.invocations.len() as int);
                assert(wanted.take(wanted.len() as int) =~= wanted);
                lemma_halts_at_call(start, ready, after, target@);
            },
        }
        lemma_reaches_self(start, target@);
        assert forall|k: int|
            start.invocations.len() <= k < after.invocations.len() implies rank.dom().contains(
            (#[trigger] after.invocations[k]).target,
        ) && rank[after.invocations[k].target] < rank[target@] + 1 by {
            if k < ready.invocations.len() {
                assert(after.invocations[k] == ready.invocations[k]);
            }
        }
    }
    result
}

/// resolve_target(target)
///
/// This will return a Value returned from the called function.
///
/// If the target is already resolved, its cached return value is returned
/// immediately.
///
/// If the target depends on other targets, those targets will be resolved
/// recursively before calling the target's function.
///
/// The pending targets that this comes to ask for must not depend on each
/// other in a cycle: `resolve_target_checked` is for callers who cannot
/// tell.
pub fn starlark_resolve_target(
    context: &mut EnvironmentContext,
    type_values: &TypeValues,
    call_stack: &mut CallStack,
    target: String,
) -> (result: Result<Value, ResolveError>)
    requires
        old(context).wf(),
        acyclic_from(old(context)@, target@),
    ensures
        final(context).wf(),
        resolve_post(old(context)@, target@, outcome_view(result), final(context)@),
{
    let ghost rank = choose|rank: Map<Seq<char>, nat>|
        #[trigger] ranked(context@, rank) && (context@.pending(target@) ==> rank.dom().contains(
            target@,
        ));
    resolve_ranked(context, type_values, call_stack, target.as_str(), Ghost(rank))
}

/// What resolving `names` one after the other makes of `before`: nothing
/// where there is no name; else what resolving the first name makes of it,
/// and there it ends with that failure, or goes on with the other names
/// from where the first left the registry.
pub open spec fn resolve_each_post(
    before: ContextView,
    names: Seq<Seq<char>>,
    outcome: Result<(), ResolveErrorView>,
    after: ContextView,
) -> bool
    decreases names.len(),
{
    if names.len() == 0 {
        outcome == Ok::<(), ResolveErrorView>(()) && after == before
    } else {
        exists|first: Result<Value, ResolveErrorView>, between: ContextView| #[trigger]
            resolve_post(before, names[0], first, between) && match first {
                Ok(_) => resolve_each_post(between, names.drop_first(), outcome, after),
                Err(error) => outcome == Err::<(), ResolveErrorView>(error) && after == between,
            }
    }
}

/// Resolving stays free of cycles while the registry keeps its declarations
/// and results.
pub proof fn lemma_acyclic_later(before: ContextView, after: ContextView, name: Seq<char>)
    requires
        before.same_declarations(after),
        acyclic_from(before, name),
    ensures
        acyclic_from(after, name),
{
    let rank = choose|rank: Map<Seq<char>, nat>| #[trigger]
        ranked(before, rank) && (before.pending(name) ==> rank.dom().contains(name));
    lemma_ranked_later(before, after, rank);
}

/// resolve_targets()
///
/// Resolves the targets that `targets_to_resolve` gives, in that order, and
/// stops at the first that fails. None of them may come to ask for pending
/// targets that depend on each other in a cycle: `resolve_targets_checked`
/// is for callers who cannot tell.
pub fn starlark_resolve_targets(
    context: &mut EnvironmentContext,
    type_values: &TypeValues,
    call_stack: &mut CallStack,
) -> (result: Result<(), ResolveError>)
    requires
        old(context).wf(),
        forall|i: int|
            0 <= i < old(context)@.targets_to_resolve().len() ==> acyclic_from(
                old(context)@,
                #[trigger] old(context)@.targets_to_resolve()[i],
            ),
    ensures
        final(context).wf(),
        resolve_each_post(
            old(context)@,
            old(context)@.targets_to_resolve(),
            outcome_view(result),
            final(context)@,
        ),
{
    let ghost start = context@;
    let targets = context.targets_to_resolve();
    let ghost names = names_of(targets@);
    let mut i: usize = 0;
    assert(names.skip(0) =~= names);
    while i < targets.len()
        invariant
            start == old(context)@,
            context.wf(),
            i <= targets.len(),
            names == names_of(targets@),
            names == start.targets_to_resolve(),
            forall|j: int| 0 <= j < names.len() ==> acyclic_from(start, #[trigger] names[j]),
            start.same_declarations(context@),
            forall|outcome: Result<(), ResolveErrorView>, after: ContextView| #[trigger]
                resolve_each_post(context@, names.skip(i as int), outcome, after)
                    ==> resolve_each_post(start, names, outcome, after),
        decreases targets.len() - i,
    {
        let ghost mid = context@;
        let ghost rest = names.skip(i as int);
        proof {
            lemma_acyclic_later(start, mid, names[i as int]);
            assert(targets@[i as int]@ == names[i as int]);
            assert(rest[0] == names[i as int]);
            assert(rest.drop_first() =~= names.skip(i + 1));
        }
        let step = starlark_resolve_target(context, type_values, call_stack, targets[i].clone());
        match step {
            Ok(_) => {
                proof {
                    let next = context@;
                    lemma_resolved(mid, names[i as int], step->Ok_0, next);
                    assert forall|outcome: Result<(), ResolveErrorView>, after: ContextView| #[trigger]
                        resolve_each_post(
                            next,
                            names.skip(i + 1),
                            outcome,
                            after,
                        ) implies resolve_each_post(start, names, outcome, after) by {
                        assert(resolve_post(mid, rest[0], outcome_view(step), next));
                        assert(resolve_each_post(mid, rest, outcome, after));
                    }
                }
            },
            Err(error) => {
                proof {
                    let next = context@;
                    assert(resolve_post(mid, rest[0], outcome_view(step), next));
                    assert(resolve_each_post(
                        mid,
                        rest,
                        Err::<(), ResolveErrorView>(error@),
                        next,
                    ));
                }
                return Err(error);
            },
        }
        i += 1;
    }
    assert(resolve_each_post(
        context@,
        names.skip(i as int),
        Ok::<(), ResolveErrorView>(()),
        context@,
    ));
    Ok(())
}

} // verus!
