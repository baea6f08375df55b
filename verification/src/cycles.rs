//! Whether resolving a target comes back to a target that it is in the
//! middle of resolving, and resolution for callers that cannot rule that
//! out themselves.

use crate::registry::{lemma_slot, names_of, slot, ContextView, EnvironmentContext};
use crate::resolve::{
    acyclic_from, cyclic_from, is_path, outcome_view, ranked, reaches, resolve_each_post,
    resolve_post, starlark_resolve_target, starlark_resolve_targets, ResolveError,
};
use starlark::environment::TypeValues;
use starlark::eval::call_stack::CallStack;
use starlark::values::Value;
use vstd::prelude::*;
use vstd::set_lib::*;

verus! {

/// A walk over the pending targets, dependencies first.
struct Walk {
    /// For each target, by its place in the order of registration: 0 while
    /// the walk has not come to it, 1 while the walk is below it, 2 when the
    /// walk is through with it.
    marks: Vec<u8>,
    /// The targets that the walk is below, outermost first.
    trail: Ghost<Seq<int>>,
    /// When the walk was through with a target.
    finish: Ghost<Seq<nat>>,
    /// The next moment.
    clock: Ghost<nat>,
}

/// A walk as contracts see it.
ghost struct WalkView {
    marks: Seq<u8>,
    trail: Seq<int>,
    finish: Seq<nat>,
    clock: nat,
}

impl View for Walk {
    type V = WalkView;

    closed spec fn view(&self) -> WalkView {
        WalkView {
            marks: self.marks@,
            trail: self.trail@,
            finish: self.finish@,
            clock: self.clock@,
        }
    }
}

/// A sequence of distinct numbers from 0 up to, and not including, `bound`
/// is no longer than `bound`.
proof fn lemma_distinct_bounded(numbers: Seq<int>, bound: int)
    requires
        0 <= bound,
        numbers.no_duplicates(),
        forall|k: int| 0 <= k < numbers.len() ==> 0 <= #[trigger] numbers[k] < bound,
    ensures
        numbers.len() <= bound,
{
    if numbers.len() > 0 {
        numbers.unique_seq_to_set();
        lemma_int_range(0, bound);
        assert(numbers.to_set().subset_of(set_int_range(0, bound))) by {
            assert forall|x: int| numbers.to_set().contains(x) implies set_int_range(
                0,
                bound,
            ).contains(x) by {
                let k = choose|k: int| 0 <= k < numbers.len() && numbers[k] == x;
                assert(0 <= numbers[k] < bound);
            }
        }
        lemma_len_subset(numbers.to_set(), set_int_range(0, bound));
    }
}

impl WalkView {
    /// The marks, the trail and the moments fit each other and the registry:
    /// the trail is a chain of pending targets from `root`, each depending on
    /// the next, and a target that the walk is through with has every
    /// pending dependency finished before it.
    #[verifier::opaque]
    spec fn consistent(self, context: ContextView, root: int) -> bool {
        let names = context.targets_order;
        let trail = self.trail;
        &&& self.marks.len() == names.len()
        &&& self.finish.len() == names.len()
        &&& forall|i: int| 0 <= i < names.len() ==> #[trigger] self.marks[i] <= 2
        &&& forall|k: int|
            0 <= k < trail.len() ==> 0 <= #[trigger] trail[k] < names.len() && self.marks[trail[k]]
                == 1
        &&& forall|i: int|
            0 <= i < names.len() && #[trigger] self.marks[i] == 1 ==> trail.contains(i)
        &&& trail.no_duplicates()
        &&& forall|i: int|
            0 <= i < names.len() && #[trigger] self.marks[i] != 0 ==> context.pending(names[i])
        &&& trail.len() > 0 ==> trail[0] == root
        &&& forall|k: int|
            0 <= k < trail.len() - 1 ==> context.targets[names[#[trigger] trail[k]]].depends.contains(
                names[trail[k + 1]],
            )
        &&& forall|i: int| 0 <= i < names.len() && #[trigger] self.marks[i] == 2 ==> self.settled(
                context,
                i,
                context.targets[names[i]].depends.len() as int,
            ) && self.finish[i] < self.clock
    }

    /// Each of the first `count` dependencies of the target in place `place`
    /// that is pending, the walk was through with before it was, or will be,
    /// through with that target.
    spec fn settled(self, context: ContextView, place: int, count: int) -> bool {
        let names = context.targets_order;
        let depends = context.targets[names[place]].depends;
        forall|j: int|
            0 <= j < count && j < depends.len() && context.pending(#[trigger] depends[j]) ==> {
                let d = slot(names, depends[j]);
                &&& 0 <= d < self.marks.len()
                &&& self.marks[d] == 2
                &&& (self.marks[place] == 2 ==> self.finish[d] < self.finish[place])
            }
    }

    /// What the walk was through with in `earlier` it still is, and what it
    /// was below it still is below.
    spec fn grown_from(self, earlier: WalkView) -> bool {
        &&& self.marks.len() == earlier.marks.len()
        &&& forall|i: int|
            0 <= i < earlier.marks.len() && #[trigger] earlier.marks[i] == 2 ==> self.marks[i] == 2
                && self.finish[i] == earlier.finish[i]
        &&& forall|i: int|
            0 <= i < earlier.marks.len() && #[trigger] earlier.marks[i] == 1 ==> self.marks[i] == 1
    }

    /// The walk when it goes below the target in place `place`.
    spec fn enter(self, place: int) -> WalkView {
        WalkView { marks: self.marks.update(place, 1), trail: self.trail.push(place), ..self }
    }

    /// The walk when it is through with the target in place `place`, which
    /// it was below last.
    spec fn leave(self, place: int) -> WalkView {
        WalkView {
            marks: self.marks.update(place, 2),
            trail: self.trail.drop_last(),
            finish: self.finish.update(place, self.clock),
            clock: self.clock + 1,
        }
    }

    /// A walk that has not begun.
    spec fn fresh(count: nat) -> WalkView {
        WalkView {
            marks: Seq::new(count, |i: int| 0u8),
            trail: Seq::empty(),
            finish: Seq::new(count, |i: int| 0nat),
            clock: 0,
        }
    }
}

/// No ranking of the pending targets covers the target in place `root`.
spec fn unrankable(context: ContextView, root: int) -> bool {
    forall|rank: Map<Seq<char>, nat>| #[trigger]
        ranked(context, rank) ==> !rank.dom().contains(context.targets_order[root])
}

/// A walk that has not begun is consistent with every registry.
proof fn lemma_fresh(context: ContextView, root: int)
    ensures
        WalkView::fresh(context.targets_order.len()).consistent(context, root),
{
    reveal(WalkView::consistent);
}

/// Going below a pending target that the walk has not come to, and that the
/// last target of the trail depends on, keeps the walk consistent.
proof fn lemma_enter(context: ContextView, walk: WalkView, place: int, root: int)
    requires
        walk.consistent(context, root),
        0 <= place < context.targets_order.len(),
        walk.marks[place] == 0,
        context.pending(context.targets_order[place]),
        walk.trail.len() == 0 ==> root == place,
        walk.trail.len() > 0 ==> context.targets[context.targets_order[walk.trail.last()]].depends.contains(
            context.targets_order[place],
        ),
    ensures
        walk.enter(place).consistent(context, root),
        walk.enter(place).grown_from(walk),
        walk.enter(place).marks[place] == 1,
        walk.trail.len() < context.targets_order.len(),
{
    reveal(WalkView::consistent);
    let names = context.targets_order;
    let after = walk.enter(place);
    let below = after.trail;
    assert forall|k: int| 0 <= k < below.len() implies 0 <= #[trigger] below[k] < names.len()
        && after.marks[below[k]] == 1 by {
        if k < walk.trail.len() {
            assert(below[k] == walk.trail[k]);
        }
    }
    assert forall|i: int| 0 <= i < names.len() && #[trigger] after.marks[i] == 1 implies below.contains(
        i,
    ) by {
        if i == place {
            assert(below[below.len() - 1] == i);
        } else {
            assert(walk.marks[i] == 1);
            let k = choose|k: int| 0 <= k < walk.trail.len() && walk.trail[k] == i;
            assert(below[k] == i);
        }
    }
    assert(below.no_duplicates()) by {
        assert forall|a: int, b: int|
            0 <= a < below.len() && 0 <= b < below.len() && a != b implies below[a] != below[b] by {
            if a < walk.trail.len() && b < walk.trail.len() {
                assert(below[a] == walk.trail[a]);
                assert(below[b] == walk.trail[b]);
            } else if a < walk.trail.len() {
                assert(walk.marks[walk.trail[a]] == 1);
            } else if b < walk.trail.len() {
                assert(walk.marks[walk.trail[b]] == 1);
            }
        }
    }
    assert forall|i: int| 0 <= i < names.len() && #[trigger] after.marks[i] != 0 implies context.pending(
        names[i],
    ) by {
        if i != place {
            assert(walk.marks[i] != 0);
        }
    }
    assert forall|k: int| 0 <= k < below.len() - 1 implies context.targets[names[
    #[trigger] below[k]]].depends.contains(names[below[k + 1]]) by {
        if k < walk.trail.len() - 1 {
            assert(below[k] == walk.trail[k]);
            assert(below[k + 1] == walk.trail[k + 1]);
        } else {
            assert(below[k] == walk.trail.last());
        }
    }
    assert forall|i: int| 0 <= i < names.len() && #[trigger] after.marks[i] == 2 implies after.settled(
        context,
        i,
        context.targets[names[i]].depends.len() as int,
    ) && after.finish[i] < after.clock by {
        assert(walk.marks[i] == 2);
        assert(walk.settled(context, i, context.targets[names[i]].depends.len() as int));
    }
    lemma_distinct_bounded(below, names.len() as int);
}

/// Being through with the last target of the trail, once the walk is
/// through with each of its pending dependencies, keeps the walk consistent.
proof fn lemma_leave(context: ContextView, walk: WalkView, place: int, root: int)
    requires
        context.well_formed(),
        walk.consistent(context, root),
        0 <= place < context.targets_order.len(),
        walk.trail.len() > 0,
        walk.trail.last() == place,
        walk.settled(
            context,
            place,
            context.targets[context.targets_order[place]].depends.len() as int,
        ),
    ensures
        walk.leave(place).consistent(context, root),
{
    reveal(WalkView::consistent);
    let names = context.targets_order;
    let after = walk.leave(place);
    let trail = after.trail;
    assert(walk.marks[walk.trail[walk.trail.len() - 1]] == 1);
    assert forall|k: int| 0 <= k < trail.len() implies 0 <= #[trigger] trail[k] < names.len()
        && after.marks[trail[k]] == 1 by {
        assert(walk.trail[k] == trail[k]);
    }
    assert forall|i: int| 0 <= i < names.len() && #[trigger] after.marks[i] == 1 implies trail.contains(
        i,
    ) by {
        assert(walk.marks[i] == 1);
        let at = choose|at: int| 0 <= at < walk.trail.len() && walk.trail[at] == i;
        assert(trail[at] == i);
    }
    assert forall|i: int| 0 <= i < names.len() && #[trigger] after.marks[i] != 0 implies context.pending(
        names[i],
    ) by {
        assert(walk.marks[i] != 0);
    }
    assert forall|k: int| 0 <= k < trail.len() - 1 implies context.targets[names[
    #[trigger] trail[k]]].depends.contains(names[trail[k + 1]]) by {
        assert(walk.trail[k] == trail[k]);
        assert(walk.trail[k + 1] == trail[k + 1]);
    }
    assert forall|i: int| 0 <= i < names.len() && #[trigger] after.marks[i] == 2 implies after.settled(
        context,
        i,
        context.targets[names[i]].depends.len() as int,
    ) && after.finish[i] < after.clock by {
        let depends = context.targets[names[i]].depends;
        if i == place {
            assert forall|j: int|
                0 <= j < depends.len() && context.pending(#[trigger] depends[j]) implies ({
                let d = slot(names, depends[j]);
                &&& 0 <= d < after.marks.len()
                &&& after.marks[d] == 2
                &&& after.finish[d] < after.finish[place]
            }) by {
                let d = slot(names, depends[j]);
                assert(walk.marks[d] == 2);
                assert(d != place);
            }
        } else {
            assert(walk.marks[i] == 2);
            assert(walk.settled(context, i, depends.len() as int));
            assert forall|j: int|
                0 <= j < depends.len() && context.pending(#[trigger] depends[j]) implies ({
                let d = slot(names, depends[j]);
                &&& 0 <= d < after.marks.len()
                &&& after.marks[d] == 2
                &&& after.finish[d] < after.finish[i]
            }) by {
                let d = slot(names, depends[j]);
                assert(walk.marks[d] == 2);
                assert(d != place);
            }
        }
    }
}

/// Along the trail, a ranking that covers the first target covers every
/// target, and ranks none above a target that comes before it.
proof fn lemma_trail_ranks(
    context: ContextView,
    walk: WalkView,
    root: int,
    rank: Map<Seq<char>, nat>,
    upper: int,
    lower: int,
)
    requires
        walk.consistent(context, root),
        ranked(context, rank),
        0 <= upper <= lower < walk.trail.len(),
        0 <= root < context.targets_order.len(),
        rank.dom().contains(context.targets_order[root]),
    ensures
        rank.dom().contains(context.targets_order[walk.trail[lower]]),
        rank.dom().contains(context.targets_order[walk.trail[upper]]),
        rank[context.targets_order[walk.trail[lower]]] <= rank[context.targets_order[walk.trail[upper]]],
    decreases lower,
{
    reveal(WalkView::consistent);
    let names = context.targets_order;
    let trail = walk.trail;
    if lower > 0 {
        lemma_trail_ranks(context, walk, root, rank, 0, lower - 1);
        if upper < lower {
            lemma_trail_ranks(context, walk, root, rank, upper, lower - 1);
        }
        let above = names[trail[lower - 1]];
        assert(context.targets[names[trail[lower - 1]]].depends.contains(names[trail[lower - 1 + 1]]));
        let j = choose|j: int|
            0 <= j < context.targets[above].depends.len() && context.targets[above].depends[j]
                == names[trail[lower]];
        assert(walk.marks[trail[lower - 1]] == 1);
        assert(walk.marks[trail[lower]] == 1);
        assert(context.pending(above));
        assert(context.pending(context.targets[above].depends[j]));
    }
}

/// The names of the targets of the trail from position `from` up to, and
/// not including, position `to`.
spec fn trail_names(context: ContextView, walk: WalkView, from: int, to: int) -> Seq<Seq<char>> {
    Seq::new((to - from) as nat, |i: int| context.targets_order[walk.trail[from + i]])
}

/// Where the last target of the trail depends on a pending target of the
/// trail, no ranking covers the first target of the trail, and resolving
/// that first target runs into a cycle.
proof fn lemma_trail_closes(context: ContextView, walk: WalkView, root: int, j: int, found: int)
    requires
        walk.consistent(context, root),
        0 <= root < context.targets_order.len(),
        walk.trail.len() > 0,
        0 <= j < context.targets[context.targets_order[walk.trail.last()]].depends.len(),
        0 <= found < context.targets_order.len(),
        context.targets[context.targets_order[walk.trail.last()]].depends[j]
            == context.targets_order[found],
        walk.marks[found] == 1,
    ensures
        unrankable(context, root),
        cyclic_from(context, context.targets_order[root]),
{
    let names = context.targets_order;
    let trail = walk.trail;
    let last = trail.len() - 1;
    assert(trail.contains(found)) by {
        reveal(WalkView::consistent);
    }
    let at = choose|at: int| 0 <= at < trail.len() && trail[at] == found;
    assert forall|rank: Map<Seq<char>, nat>| #[trigger] ranked(context, rank) implies !rank.dom().contains(
        names[root],
    ) by {
        if rank.dom().contains(names[root]) {
            lemma_trail_ranks(context, walk, root, rank, at, last);
            assert(context.pending(names[trail[last]]) && context.pending(names[found])) by {
                reveal(WalkView::consistent);
                assert(walk.marks[trail[last]] == 1);
            }
            assert(context.pending(context.targets[names[trail[last]]].depends[j]));
        }
    }
    let path = trail_names(context, walk, 0, at + 1);
    let lap = trail_names(context, walk, at, last + 1).push(names[found]);
    assert(is_path(context, path) && is_path(context, lap) && path[0] == names[root]) by {
        reveal(WalkView::consistent);
        assert forall|i: int| 0 <= i < path.len() - 1 implies context.pending(#[trigger] path[i])
            && context.targets[path[i]].depends.contains(path[i + 1]) by {
            assert(walk.marks[trail[i]] == 1);
            assert(context.targets[names[trail[i]]].depends.contains(names[trail[i + 1]]));
        }
        assert forall|i: int| 0 <= i < lap.len() - 1 implies context.pending(#[trigger] lap[i])
            && context.targets[lap[i]].depends.contains(lap[i + 1]) by {
            assert(walk.marks[trail[at + i]] == 1);
            if at + i < last {
                assert(context.targets[names[trail[at + i]]].depends.contains(
                    names[trail[at + i + 1]],
                ));
            } else {
                assert(lap[i + 1] == names[found]);
                assert(context.targets[names[trail[last]]].depends[j] == names[found]);
            }
        }
    }
    assert(path.last() == names[found] && lap[0] == names[found] && lap.last() == names[found]);
    assert(reaches(context, names[root], lap[0]));
}

/// Where the walk is through with the target in place `root`, the moments
/// at which it was through with each target rank the pending targets.
proof fn lemma_walk_ranks(context: ContextView, walk: WalkView, root: int)
    requires
        context.well_formed(),
        walk.consistent(context, root),
        0 <= root < context.targets_order.len(),
        walk.marks[root] == 2,
    ensures
        acyclic_from(context, context.targets_order[root]),
{
    reveal(WalkView::consistent);
    let names = context.targets_order;
    let rank = Map::<Seq<char>, nat>::new(
        |name: Seq<char>| names.contains(name) && walk.marks[slot(names, name)] == 2,
        |name: Seq<char>| walk.finish[slot(names, name)],
    );
    assert forall|name: Seq<char>, j: int|
        rank.dom().contains(name) && context.pending(name) && 0 <= j
            < context.targets[name].depends.len() && context.pending(
            #[trigger] context.targets[name].depends[j],
        ) implies rank.dom().contains(context.targets[name].depends[j])
        && rank[context.targets[name].depends[j]] < rank[name] by {
        let i = slot(names, name);
        lemma_slot(names, i);
        assert(walk.marks[i] == 2);
        assert(walk.settled(context, i, context.targets[names[i]].depends.len() as int));
    }
    lemma_slot(names, root);
    assert(ranked(context, rank));
}

/// Walks below the pending target in place `place` and tells whether the
/// walk stayed clear of the targets it was below.
fn walk_below(
    context: &EnvironmentContext,
    place: usize,
    walk: &mut Walk,
    Ghost(root): Ghost<int>,
) -> (clear: bool)
    requires
        context.wf(),
        old(walk)@.consistent(context@, root),
        place < context@.targets_order.len(),
        old(walk)@.marks[place as int] == 0,
        context@.pending(context@.targets_order[place as int]),
        0 <= root < context@.targets_order.len(),
        old(walk)@.trail.len() == 0 ==> root == place,
        old(walk)@.trail.len() > 0 ==> context@.targets[context@.targets_order[old(
            walk,
        )@.trail.last()]].depends.contains(context@.targets_order[place as int]),
    ensures
        clear ==> final(walk)@.consistent(context@, root) && final(walk)@.trail == old(walk)@.trail
            && final(walk)@.marks[place as int] == 2 && final(walk)@.grown_from(old(walk)@),
        !clear ==> unrankable(context@, root) && cyclic_from(
            context@,
            context@.targets_order[root],
        ),
    decreases context@.targets_order.len() - old(walk)@.trail.len(),
{
    let ghost names = context@.targets_order;
    let ghost entered = walk@;
    proof {
        context.lemma_view_well_formed();
        lemma_enter(context@, entered, place as int, root);
        reveal(WalkView::consistent);
    }
    let all = context.targets();
    walk.marks[place] = 1;
    proof {
        walk.trail = Ghost(walk.trail@.push(place as int));
    }
    assert(walk@ == entered.enter(place as int));
    let ghost below = walk@;
    let count = all[place].depends.len();
    let mut k: usize = 0;
    while k < count
        invariant
            entered == old(walk)@,
            context.wf(),
            context@.well_formed(),
            names == context@.targets_order,
            place < names.len(),
            0 <= root < names.len(),
            all.len() == names.len(),
            forall|i: int| 0 <= i < all.len() ==> (#[trigger] all@[i])@ == context@.targets[names[i]],
            count == all@[place as int].depends.len(),
            k <= count,
            walk@.consistent(context@, root),
            walk@.trail == below.trail,
            below.trail.len() == entered.trail.len() + 1,
            below.trail.last() == place,
            below.marks[place as int] == 1,
            walk@.marks.len() == names.len(),
            walk@.grown_from(below),
            walk@.settled(context@, place as int, k as int),
        decreases count - k,
    {
        let ghost depends = context@.targets[names[place as int]].depends;
        let ghost dep = depends[k as int];
        let ghost before = walk@;
        assert(all@[place as int]@.depends == depends);
        assert(all@[place as int].depends@[k as int]@ == dep);
        match context.index_of(all[place].depends[k].as_str()) {
            None => {},
            Some(found) => {
                proof {
                    lemma_slot(names, found as int);
                }
                if all[found].resolved_value.is_none() {
                    assert(context@.pending(names[found as int]));
                    let mark = walk.marks[found];
                    if mark == 1 {
                        proof {
                            lemma_trail_closes(context@, walk@, root, k as int, found as int);
                        }
                        return false;
                    } else if mark == 0 {
                        proof {
                            assert(depends.contains(names[found as int]));
                            lemma_enter(context@, walk@, found as int, root);
                        }
                        if !walk_below(context, found, walk, Ghost(root)) {
                            return false;
                        }
                    } else {
                        proof {
                            reveal(WalkView::consistent);
                        }
                    }
                    assert(walk@.marks[found as int] == 2);
                }
            },
        }
        assert(walk@.grown_from(before));
        assert(walk@.settled(context@, place as int, k + 1)) by {
            assert forall|j: int|
                0 <= j < k + 1 && j < depends.len() && context@.pending(
                    #[trigger] depends[j],
                ) implies ({
                let d = slot(names, depends[j]);
                &&& 0 <= d < walk@.marks.len()
                &&& walk@.marks[d] == 2
                &&& (walk@.marks[place as int] == 2 ==> walk@.finish[d] < walk@.finish[place as int])
            }) by {
                if j < k {
                    let d = slot(names, depends[j]);
                    assert(before.marks[d] == 2);
                }
            }
        }
        k += 1;
    }
    let ghost through = walk@;
    proof {
        lemma_leave(context@, through, place as int, root);
    }
    walk.marks[place] = 2;
    proof {
        walk.trail = Ghost(walk.trail@.drop_last());
        walk.finish = Ghost(walk.finish@.update(place as int, walk.clock@));
        walk.clock = Ghost(walk.clock@ + 1);
    }
    assert(walk@ == through.leave(place as int));
    assert(walk@.trail =~= entered.trail);
    assert(walk@.grown_from(entered));
    true
}

impl EnvironmentContext {
    /// Whether resolving `target` never comes back to a target that it is
    /// in the middle of resolving. Where it does, there is a cycle among the
    /// pending targets that it asks for.
    pub fn is_acyclic_from(&self, target: &str) -> (free: bool)
        requires
            self.wf(),
        ensures
            free == acyclic_from(self@, target@),
            !free ==> cyclic_from(self@, target@),
    {
        proof {
            self.lemma_view_well_formed();
        }
        let place = match self.index_of(target) {
            Some(place) => place,
            None => {
                assert(ranked(self@, Map::<Seq<char>, nat>::empty()));
                return true;
            },
        };
        let all = self.targets();
        if all[place].resolved_value.is_some() {
            assert(ranked(self@, Map::<Seq<char>, nat>::empty()));
            return true;
        }
        let count = all.len();
        let mut walk = Walk {
            marks: vec![0u8; count],
            trail: Ghost(Seq::empty()),
            finish: Ghost(Seq::new(count as nat, |i: int| 0nat)),
            clock: Ghost(0),
        };
        proof {
            lemma_fresh(self@, place as int);
            assert(walk@.marks =~= WalkView::fresh(count as nat).marks);
            assert(walk@ == WalkView::fresh(count as nat));
        }
        let clear = walk_below(self, place, &mut walk, Ghost(place as int));
        proof {
            if clear {
                lemma_walk_ranks(self@, walk@, place as int);
            }
        }
        clear
    }
}

/// Resolves `target` where that is free of cycles, and does nothing where
/// it is not.
pub fn resolve_target_checked(
    context: &mut EnvironmentContext,
    type_values: &TypeValues,
    call_stack: &mut CallStack,
    target: String,
) -> (result: Option<Result<Value, ResolveError>>)
    requires
        old(context).wf(),
    ensures
        final(context).wf(),
        match result {
            Some(outcome) => acyclic_from(old(context)@, target@) && resolve_post(
                old(context)@,
                target@,
                outcome_view(outcome),
                final(context)@,
            ),
            None => !acyclic_from(old(context)@, target@) && final(context)@ == old(context)@,
        },
{
    if context.is_acyclic_from(target.as_str()) {
        Some(starlark_resolve_target(context, type_values, call_stack, target))
    } else {
        None
    }
}

/// Resolves the targets that `targets_to_resolve` gives where each of them
/// is free of cycles, and does nothing where one is not.
pub fn resolve_targets_checked(
    context: &mut EnvironmentContext,
    type_values: &TypeValues,
    call_stack: &mut CallStack,
) -> (result: Option<Result<(), ResolveError>>)
    requires
        old(context).wf(),
    ensures
        final(context).wf(),
        match result {
            Some(outcome) => resolve_each_post(
                old(context)@,
                old(context)@.targets_to_resolve(),
                outcome_view(outcome),
                final(context)@,
            ) && forall|i: int|
                0 <= i < old(context)@.targets_to_resolve().len() ==> acyclic_from(
                    old(context)@,
                    #[trigger] old(context)@.targets_to_resolve()[i],
                ),
            None => final(context)@ == old(context)@ && exists|i: int|
                0 <= i < old(context)@.targets_to_resolve().len() && !acyclic_from(
                    old(context)@,
                    #[trigger] old(context)@.targets_to_resolve()[i],
                ),
        },
{
    let targets = context.targets_to_resolve();
    let ghost names = context@.targets_to_resolve();
    let mut i: usize = 0;
    while i < targets.len()
        invariant
            context.wf(),
            *context == *old(context),
            i <= targets.len(),
            names == names_of(targets@),
            names == context@.targets_to_resolve(),
            forall|j: int| 0 <= j < i ==> acyclic_from(context@, #[trigger] names[j]),
        decreases targets.len() - i,
    {
        assert(targets@[i as int]@ == names[i as int]);
        if !context.is_acyclic_from(targets[i].as_str()) {
            return None;
        }
        i += 1;
    }
    Some(starlark_resolve_targets(context, type_values, call_stack))
}

} // verus!
