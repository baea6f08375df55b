//! The order in which resolution calls the callables: depth first, and the
//! dependencies of a target from the first listed to the last.

use crate::registry::ContextView;
use vstd::prelude::*;

verus! {

/// The targets of the calls recorded in `after` and not in `before`, oldest
/// first.
pub open spec fn calls_since(before: ContextView, after: ContextView) -> Seq<Seq<char>> {
    Seq::new(
        (after.invocations.len() - before.invocations.len()) as nat,
        |i: int| after.invocations[before.invocations.len() + i].target,
    )
}

/// `name` is pending and not among the targets that are `done`.
pub open spec fn awaits(context: ContextView, done: Set<Seq<char>>, name: Seq<char>) -> bool {
    context.pending(name) && !done.contains(name)
}

/// `trace` lists the targets in the order in which resolving `name` calls
/// them when every call succeeds and the targets in `done` have their
/// results: none if `name` is registered and awaits no call, else those
/// that resolving its dependencies calls, and then `name`. A name that is
/// not registered has no such trace.
pub open spec fn visits(
    context: ContextView,
    done: Set<Seq<char>>,
    name: Seq<char>,
    trace: Seq<Seq<char>>,
) -> bool
    decreases trace.len(), 0nat,
{
    if awaits(context, done, name) {
        trace.len() > 0 && trace.last() == name && visits_each(
            context,
            done,
            context.targets[name].depends,
            trace.drop_last(),
        )
    } else {
        context.is_registered(name) && trace.len() == 0
    }
}

/// `trace` lists the targets in the order in which resolving `names` one
/// after the other calls them: those for all names but the last, and then
/// those that resolving the last name calls once the former have their
/// results.
pub open spec fn visits_each(
    context: ContextView,
    done: Set<Seq<char>>,
    names: Seq<Seq<char>>,
    trace: Seq<Seq<char>>,
) -> bool
    decreases trace.len(), 1 + names.len(),
{
    if names.len() == 0 {
        trace.len() == 0
    } else {
        exists|cut: int|
            0 <= cut <= trace.len() && visits_each(
                context,
                done,
                names.drop_last(),
                #[trigger] trace.take(cut),
            ) && visits(
                context,
                done.union(trace.take(cut).to_set()),
                names.last(),
                trace.skip(cut),
            )
    }
}

/// The same targets await a call in the one setting as in the other, and
/// each of them has the same dependencies in both.
pub open spec fn alike(
    context: ContextView,
    done: Set<Seq<char>>,
    other: ContextView,
    other_done: Set<Seq<char>>,
) -> bool {
    &&& forall|name: Seq<char>|
        context.is_registered(name) == #[trigger] other.is_registered(name)
    &&& forall|name: Seq<char>|
        awaits(context, done, name) == #[trigger] awaits(other, other_done, name)
    &&& forall|name: Seq<char>| #[trigger]
        awaits(context, done, name) ==> context.targets[name].depends
            == other.targets[name].depends
}

/// Settings that are alike stay alike when the same targets are done in
/// both.
pub proof fn lemma_alike_with(
    context: ContextView,
    done: Set<Seq<char>>,
    other: ContextView,
    other_done: Set<Seq<char>>,
    seen: Set<Seq<char>>,
)
    requires
        alike(context, done, other, other_done),
    ensures
        alike(context, done.union(seen), other, other_done.union(seen)),
{
    assert forall|name: Seq<char>|
        awaits(context, done.union(seen), name) == #[trigger] awaits(
            other,
            other_done.union(seen),
            name,
        ) by {
        assert(awaits(context, done, name) == awaits(other, other_done, name));
    }
    assert forall|name: Seq<char>| #[trigger]
        awaits(context, done.union(seen), name) implies context.targets[name].depends
        == other.targets[name].depends by {
        assert(awaits(context, done, name));
    }
}

/// The order of the calls goes by nothing but which targets await a call
/// and what they depend on.
pub proof fn lemma_visits_alike(
    context: ContextView,
    done: Set<Seq<char>>,
    other: ContextView,
    other_done: Set<Seq<char>>,
    name: Seq<char>,
    trace: Seq<Seq<char>>,
)
    requires
        alike(context, done, other, other_done),
    ensures
        visits(context, done, name, trace) == visits(other, other_done, name, trace),
    decreases trace.len(), 0nat,
{
    assert(awaits(context, done, name) == awaits(other, other_done, name));
    if awaits(context, done, name) && trace.len() > 0 {
        lemma_visits_each_alike(
            context,
            done,
            other,
            other_done,
            context.targets[name].depends,
            trace.drop_last(),
        );
    }
}

/// The order of the calls for several names goes by nothing but which
/// targets await a call and what they depend on.
pub proof fn lemma_visits_each_alike(
    context: ContextView,
    done: Set<Seq<char>>,
    other: ContextView,
    other_done: Set<Seq<char>>,
    names: Seq<Seq<char>>,
    trace: Seq<Seq<char>>,
)
    requires
        alike(context, done, other, other_done),
    ensures
        visits_each(context, done, names, trace) == visits_each(other, other_done, names, trace),
    decreases trace.len(), 1 + names.len(),
{
    reveal_with_fuel(visits_each, 2);
    if names.len() > 0 {
        assert forall|cut: int| 0 <= cut <= trace.len() implies (visits_each(
            context,
            done,
            names.drop_last(),
            trace.take(cut),
        ) && visits(
            context,
            done.union(trace.take(cut).to_set()),
            names.last(),
            trace.skip(cut),
        )) == (visits_each(other, other_done, names.drop_last(), #[trigger] trace.take(cut))
            && visits(
            other,
            other_done.union(trace.take(cut).to_set()),
            names.last(),
            trace.skip(cut),
        )) by {
            let seen = trace.take(cut).to_set();
            lemma_visits_each_alike(
                context,
                done,
                other,
                other_done,
                names.drop_last(),
                trace.take(cut),
            );
            lemma_alike_with(context, done, other, other_done, seen);
            lemma_visits_alike(
                context,
                done.union(seen),
                other,
                other_done.union(seen),
                names.last(),
                trace.skip(cut),
            );
        }
        if visits_each(context, done, names, trace) {
            let cut = choose|cut: int|
                0 <= cut <= trace.len() && visits_each(
                    context,
                    done,
                    names.drop_last(),
                    #[trigger] trace.take(cut),
                ) && visits(
                    context,
                    done.union(trace.take(cut).to_set()),
                    names.last(),
                    trace.skip(cut),
                );
            assert(visits_each(other, other_done, names.drop_last(), trace.take(cut)));
        }
        if visits_each(other, other_done, names, trace) {
            let cut = choose|cut: int|
                0 <= cut <= trace.len() && visits_each(
                    other,
                    other_done,
                    names.drop_last(),
                    #[trigger] trace.take(cut),
                ) && visits(
                    other,
                    other_done.union(trace.take(cut).to_set()),
                    names.last(),
                    trace.skip(cut),
                );
            assert(visits_each(other, other_done, names.drop_last(), trace.take(cut)));
            assert(visits_each(context, done, names.drop_last(), trace.take(cut)));
        }
    }
}

/// After successful calls, the targets that await a call are those that
/// awaited one before and were not called since.
pub proof fn lemma_alike_after_calls(before: ContextView, after: ContextView)
    requires
        before.advances(after),
    ensures
        alike(after, Set::empty(), before, calls_since(before, after).to_set()),
{
    let from = before.invocations.len() as int;
    let called = calls_since(before, after);
    assert forall|name: Seq<char>| #[trigger]
        awaits(after, Set::empty(), name) implies after.targets[name].depends
        == before.targets[name].depends by {
        assert(before.pending(name));
    }
    assert forall|name: Seq<char>|
        awaits(after, Set::empty(), name) == #[trigger] awaits(
            before,
            called.to_set(),
            name,
        ) by {
        if after.pending(name) {
            assert(before.pending(name));
            if called.to_set().contains(name) {
                let i = choose|i: int| 0 <= i < called.len() && called[i] == name;
                assert(after.invocations[from + i].target == name);
                assert(after.sound_call(before, from + i));
            }
        } else if before.pending(name) {
            assert(after.invoked_since(from, name));
            let k = choose|k: int|
                0 <= k && from <= k < after.invocations.len() && k < after.invocations.len() && (
                #[trigger] after.invocations[k]).target == name;
            assert(called[k - from] == name);
            assert(called.to_set().contains(name));
        }
    }
}

/// Where resolving the names listed so far made the calls between `before`
/// and `between`, and resolving `next` then made the calls up to `after`,
/// resolving the names with `next` after them made the calls between
/// `before` and `after`.
pub proof fn lemma_visits_one_more(
    before: ContextView,
    between: ContextView,
    after: ContextView,
    names: Seq<Seq<char>>,
    count: int,
)
    requires
        0 <= count < names.len(),
        before.advances(between),
        between.invocations.is_prefix_of(after.invocations),
        visits_each(before, Set::empty(), names.take(count), calls_since(before, between)),
        visits(between, Set::empty(), names[count], calls_since(between, after)),
    ensures
        visits_each(before, Set::empty(), names.take(count + 1), calls_since(before, after)),
{
    reveal_with_fuel(visits_each, 2);
    let trace = calls_since(before, after);
    let cut = between.invocations.len() - before.invocations.len();
    let listed = names.take(count + 1);
    assert(listed.drop_last() =~= names.take(count));
    assert(listed.last() == names[count]);
    assert(trace.take(cut) =~= calls_since(before, between));
    assert(trace.skip(cut) =~= calls_since(between, after));
    let seen = trace.take(cut).to_set();
    assert(Set::<Seq<char>>::empty().union(seen) =~= seen);
    lemma_alike_after_calls(before, between);
    lemma_visits_alike(between, Set::empty(), before, seen, names[count], trace.skip(cut));
    assert(visits_each(before, Set::empty(), listed.drop_last(), trace.take(cut)));
}

/// Where resolving the dependencies of the pending target `name` made the
/// calls between `before` and `ready`, and the call for `name` came next,
/// resolving `name` made the calls between `before` and `after`.
pub proof fn lemma_visits_then_call(
    before: ContextView,
    ready: ContextView,
    after: ContextView,
    name: Seq<char>,
)
    requires
        before.pending(name),
        before.invocations.len() <= ready.invocations.len(),
        after.invocations.len() == ready.invocations.len() + 1,
        ready.invocations.is_prefix_of(after.invocations),
        after.invocations.last().target == name,
        visits_each(
            before,
            Set::empty(),
            before.targets[name].depends,
            calls_since(before, ready),
        ),
    ensures
        visits(before, Set::empty(), name, calls_since(before, after)),
{
    let trace = calls_since(before, after);
    assert(trace.drop_last() =~= calls_since(before, ready));
    assert(trace.last() == name);
}

/// A target that awaits a call and depends on nothing is visited by one
/// call, its own.
pub proof fn lemma_visits_leaf(
    context: ContextView,
    done: Set<Seq<char>>,
    name: Seq<char>,
    trace: Seq<Seq<char>>,
)
    requires
        awaits(context, done, name),
        context.targets[name].depends.len() == 0,
    ensures
        visits(context, done, name, trace) == (trace == seq![name]),
{
    if visits(context, done, name, trace) {
        assert(trace.drop_last().len() == 0);
        assert(trace =~= seq![name]);
    }
    if trace == seq![name] {
        assert(trace.drop_last().len() == 0);
    }
}

/// Resolving a list of one name calls what resolving that name calls.
pub proof fn lemma_visits_each_one(
    context: ContextView,
    done: Set<Seq<char>>,
    name: Seq<char>,
    trace: Seq<Seq<char>>,
)
    ensures
        visits_each(context, done, seq![name], trace) == visits(context, done, name, trace),
{
    let one = seq![name];
    assert(one.drop_last().len() == 0);
    assert(one.last() == name);
    if visits_each(context, done, one, trace) {
        let cut = choose|cut: int|
            0 <= cut <= trace.len() && visits_each(
                context,
                done,
                one.drop_last(),
                #[trigger] trace.take(cut),
            ) && visits(context, done.union(trace.take(cut).to_set()), one.last(), trace.skip(cut));
        assert(trace.take(cut).len() == 0);
        assert(done.union(trace.take(cut).to_set()) =~= done);
        assert(trace.skip(cut) =~= trace);
    }
    if visits(context, done, name, trace) {
        assert(trace.take(0).len() == 0);
        assert(done.union(trace.take(0).to_set()) =~= done);
        assert(trace.skip(0) =~= trace);
        assert(visits_each(context, done, one.drop_last(), trace.take(0)));
    }
}

/// A pending target with two pending dependencies that depend on nothing
/// is visited by the call for the first listed, then the call for the
/// second, then its own.
pub proof fn lemma_visits_left_to_right(
    context: ContextView,
    name: Seq<char>,
    first: Seq<char>,
    second: Seq<char>,
    trace: Seq<Seq<char>>,
)
    requires
        context.pending(name),
        context.pending(first),
        context.pending(second),
        first != second,
        context.targets[name].depends == seq![first, second],
        context.targets[first].depends.len() == 0,
        context.targets[second].depends.len() == 0,
        visits(context, Set::empty(), name, trace),
    ensures
        trace == seq![first, second, name],
{
    let none = Set::<Seq<char>>::empty();
    let both = seq![first, second];
    let inner = trace.drop_last();
    assert(visits_each(context, none, both, inner));
    let cut = choose|cut: int|
        0 <= cut <= inner.len() && visits_each(
            context,
            none,
            both.drop_last(),
            #[trigger] inner.take(cut),
        ) && visits(context, none.union(inner.take(cut).to_set()), both.last(), inner.skip(cut));
    let head = inner.take(cut);
    let rest = inner.skip(cut);
    assert(both.drop_last() =~= seq![first]);
    assert(both.last() == second);
    lemma_visits_each_one(context, none, first, head);
    lemma_visits_leaf(context, none, first, head);
    assert(head == seq![first]);
    assert(none.union(head.to_set()).contains(first)) by {
        assert(head[0] == first);
    }
    assert(!none.union(head.to_set()).contains(second)) by {
        if head.to_set().contains(second) {
            let i = choose|i: int| 0 <= i < head.len() && head[i] == second;
        }
    }
    lemma_visits_leaf(context, none.union(head.to_set()), second, rest);
    assert(rest == seq![second]);
    assert(inner =~= head + rest);
    assert(trace =~= inner.push(name));
    assert(trace =~= seq![first, second, name]);
}

/// `trace` lists the targets in the order in which resolving `name` calls
/// them up to the point where it stops, when the targets in `done` have
/// their results and every call before that point succeeds. `path` leads
/// from `name` to that point, each name a dependency of the one before it;
/// its last name is a target whose call fails, where `failed`, and else a
/// name that is not registered.
pub open spec fn halts(
    context: ContextView,
    done: Set<Seq<char>>,
    name: Seq<char>,
    trace: Seq<Seq<char>>,
    path: Seq<Seq<char>>,
    failed: bool,
) -> bool
    decreases path.len(),
{
    let depends = context.targets[name].depends;
    if path.len() == 0 || path[0] != name {
        false
    } else if path.len() == 1 {
        if failed {
            awaits(context, done, name) && trace.len() > 0 && trace.last() == name && visits_each(
                context,
                done,
                depends,
                trace.drop_last(),
            )
        } else {
            !context.is_registered(name) && trace.len() == 0
        }
    } else {
        awaits(context, done, name) && exists|i: int, cut: int|
            #![trigger depends.take(i), trace.take(cut)]
            0 <= i < depends.len() && 0 <= cut <= trace.len() && depends[i] == path[1]
                && visits_each(context, done, depends.take(i), trace.take(cut)) && halts(
                context,
                done.union(trace.take(cut).to_set()),
                depends[i],
                trace.skip(cut),
                path.skip(1),
                failed,
            )
    }
}

/// Resolving `name` made the calls between `before` and `after` and stopped
/// at `culprit`: at its failed call, where `failed`, and else because no
/// target is registered under that name.
pub open spec fn stops_at(
    before: ContextView,
    name: Seq<char>,
    after: ContextView,
    culprit: Seq<char>,
    failed: bool,
) -> bool {
    exists|path: Seq<Seq<char>>| #[trigger]
        halts(before, Set::empty(), name, calls_since(before, after), path, failed) && path.last()
            == culprit
}

/// Where resolution stops goes by nothing but which targets are registered,
/// which await a call and what they depend on.
pub proof fn lemma_halts_alike(
    context: ContextView,
    done: Set<Seq<char>>,
    other: ContextView,
    other_done: Set<Seq<char>>,
    name: Seq<char>,
    trace: Seq<Seq<char>>,
    path: Seq<Seq<char>>,
    failed: bool,
)
    requires
        alike(context, done, other, other_done),
    ensures
        halts(context, done, name, trace, path, failed) == halts(
            other,
            other_done,
            name,
            trace,
            path,
            failed,
        ),
    decreases path.len(),
{
    assert(awaits(context, done, name) == awaits(other, other_done, name));
    let depends = context.targets[name].depends;
    if path.len() == 0 || path[0] != name {
    } else if path.len() == 1 {
        if failed && awaits(context, done, name) && trace.len() > 0 {
            lemma_visits_each_alike(context, done, other, other_done, depends, trace.drop_last());
        }
    } else if awaits(context, done, name) {
        assert(other.targets[name].depends == depends);
        assert forall|i: int, cut: int|
            0 <= i < depends.len() && 0 <= cut <= trace.len() implies (visits_each(
            context,
            done,
            depends.take(i),
            trace.take(cut),
        ) && halts(
            context,
            done.union(trace.take(cut).to_set()),
            depends[i],
            trace.skip(cut),
            path.skip(1),
            failed,
        )) == (visits_each(other, other_done, #[trigger] depends.take(i), #[trigger] trace.take(cut))
            && halts(
            other,
            other_done.union(trace.take(cut).to_set()),
            depends[i],
            trace.skip(cut),
            path.skip(1),
            failed,
        )) by {
            let seen = trace.take(cut).to_set();
            lemma_visits_each_alike(
                context,
                done,
                other,
                other_done,
                depends.take(i),
                trace.take(cut),
            );
            lemma_alike_with(context, done, other, other_done, seen);
            lemma_halts_alike(
                context,
                done.union(seen),
                other,
                other_done.union(seen),
                depends[i],
                trace.skip(cut),
                path.skip(1),
                failed,
            );
        }
        if halts(context, done, name, trace, path, failed) {
            let (i, cut) = choose|i: int, cut: int|
                #![trigger depends.take(i), trace.take(cut)]
                0 <= i < depends.len() && 0 <= cut <= trace.len() && depends[i] == path[1]
                    && visits_each(context, done, depends.take(i), trace.take(cut)) && halts(
                    context,
                    done.union(trace.take(cut).to_set()),
                    depends[i],
                    trace.skip(cut),
                    path.skip(1),
                    failed,
                );
            assert(visits_each(other, other_done, depends.take(i), trace.take(cut)));
        }
        if halts(other, other_done, name, trace, path, failed) {
            let (i, cut) = choose|i: int, cut: int|
                #![trigger depends.take(i), trace.take(cut)]
                0 <= i < depends.len() && 0 <= cut <= trace.len() && depends[i] == path[1]
                    && visits_each(other, other_done, depends.take(i), trace.take(cut)) && halts(
                    other,
                    other_done.union(trace.take(cut).to_set()),
                    depends[i],
                    trace.skip(cut),
                    path.skip(1),
                    failed,
                );
            assert(visits_each(context, done, depends.take(i), trace.take(cut)));
        }
    }
}

/// Where resolving the first `count` dependencies of the pending target
/// `name` made the calls between `before` and `between`, and resolving the
/// next dependency then stopped after the calls up to `after`, resolving
/// `name` stopped there after the calls between `before` and `after`.
pub proof fn lemma_halts_below(
    before: ContextView,
    between: ContextView,
    after: ContextView,
    name: Seq<char>,
    count: int,
    path: Seq<Seq<char>>,
    failed: bool,
)
    requires
        before.pending(name),
        0 <= count < before.targets[name].depends.len(),
        before.advances(between),
        between.invocations.is_prefix_of(after.invocations),
        visits_each(
            before,
            Set::empty(),
            before.targets[name].depends.take(count),
            calls_since(before, between),
        ),
        halts(
            between,
            Set::empty(),
            before.targets[name].depends[count],
            calls_since(between, after),
            path,
            failed,
        ),
    ensures
        halts(before, Set::empty(), name, calls_since(before, after), seq![name] + path, failed),
        stops_at(before, name, after, path.last(), failed),
{
    let depends = before.targets[name].depends;
    let trace = calls_since(before, after);
    let cut = between.invocations.len() - before.invocations.len();
    let longer = seq![name] + path;
    assert(path.len() > 0);
    assert(longer[1] == path[0]);
    assert(longer.skip(1) =~= path);
    assert(trace.take(cut) =~= calls_since(before, between));
    assert(trace.skip(cut) =~= calls_since(between, after));
    let seen = trace.take(cut).to_set();
    assert(Set::<Seq<char>>::empty().union(seen) =~= seen);
    lemma_alike_after_calls(before, between);
    lemma_halts_alike(
        between,
        Set::empty(),
        before,
        seen,
        depends[count],
        trace.skip(cut),
        path,
        failed,
    );
    assert(visits_each(before, Set::empty(), depends.take(count), trace.take(cut)));
    assert(halts(before, Set::empty(), name, trace, longer, failed));
    assert(longer.last() == path.last());
}

/// Where resolving the dependencies of the pending target `name` made the
/// calls between `before` and `ready`, and the call for `name` came next
/// and failed, resolving `name` stopped at `name`.
pub proof fn lemma_halts_at_call(
    before: ContextView,
    ready: ContextView,
    after: ContextView,
    name: Seq<char>,
)
    requires
        before.pending(name),
        before.invocations.len() <= ready.invocations.len(),
        after.invocations.len() == ready.invocations.len() + 1,
        ready.invocations.is_prefix_of(after.invocations),
        after.invocations.last().target == name,
        visits_each(
            before,
            Set::empty(),
            before.targets[name].depends,
            calls_since(before, ready),
        ),
    ensures
        halts(before, Set::empty(), name, calls_since(before, after), seq![name], true),
        stops_at(before, name, after, name, true),
{
    let trace = calls_since(before, after);
    assert(trace.drop_last() =~= calls_since(before, ready));
    assert(trace.last() == name);
    assert(seq![name].last() == name);
}

/// Resolving a name that is not registered stops at that name, before any
/// call.
pub proof fn lemma_halts_at_unknown(context: ContextView, name: Seq<char>)
    requires
        !context.is_registered(name),
    ensures
        stops_at(context, name, context, name, false),
{
    let path = seq![name];
    assert(halts(context, Set::empty(), name, calls_since(context, context), path, false));
    assert(path.last() == name);
}

/// Names that resolution gets through without stopping are all registered.
pub proof fn lemma_visits_each_registered(
    context: ContextView,
    done: Set<Seq<char>>,
    names: Seq<Seq<char>>,
    trace: Seq<Seq<char>>,
    j: int,
)
    requires
        visits_each(context, done, names, trace),
        0 <= j < names.len(),
    ensures
        context.is_registered(names[j]),
    decreases names.len(),
{
    let cut = choose|cut: int|
        0 <= cut <= trace.len() && visits_each(
            context,
            done,
            names.drop_last(),
            #[trigger] trace.take(cut),
        ) && visits(context, done.union(trace.take(cut).to_set()), names.last(), trace.skip(cut));
    if j < names.len() - 1 {
        lemma_visits_each_registered(context, done, names.drop_last(), trace.take(cut), j);
        assert(names.drop_last()[j] == names[j]);
    }
}

/// Resolving a pending target whose first dependency is not registered
/// stops at that dependency, before any call.
pub proof fn lemma_halts_at_first_dependency(
    context: ContextView,
    name: Seq<char>,
    trace: Seq<Seq<char>>,
    path: Seq<Seq<char>>,
    failed: bool,
)
    requires
        context.pending(name),
        context.targets[name].depends.len() > 0,
        !context.is_registered(context.targets[name].depends[0]),
        halts(context, Set::empty(), name, trace, path, failed),
    ensures
        !failed,
        trace.len() == 0,
        path == seq![name, context.targets[name].depends[0]],
{
    let none = Set::<Seq<char>>::empty();
    let depends = context.targets[name].depends;
    reveal_with_fuel(halts, 2);
    if path.len() == 1 {
        lemma_visits_each_registered(context, none, depends, trace.drop_last(), 0);
    } else {
        let (i, cut) = choose|i: int, cut: int|
            #![trigger depends.take(i), trace.take(cut)]
            0 <= i < depends.len() && 0 <= cut <= trace.len() && depends[i] == path[1]
                && visits_each(context, none, depends.take(i), trace.take(cut)) && halts(
                context,
                none.union(trace.take(cut).to_set()),
                depends[i],
                trace.skip(cut),
                path.skip(1),
                failed,
            );
        if i > 0 {
            lemma_visits_each_registered(context, none, depends.take(i), trace.take(cut), 0);
            assert(depends.take(i)[0] == depends[0]);
        }
        assert(depends.take(i).len() == 0);
        assert(trace.take(cut).len() == 0);
        assert(trace.skip(cut) =~= trace);
        let rest = path.skip(1);
        assert(rest.len() == 1);
        assert(rest[0] == depends[0]);
        assert(path =~= seq![name, depends[0]]);
    }
}

} // verus!
