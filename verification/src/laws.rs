//! What holds of every plan: each task has its place in exactly one level,
//! a task comes after everything it waits for, the tasks of one level do not
//! conflict, there are no more levels than the longest chain of predecessors
//! demands, and the plan depends on nothing but the declarations.

use vstd::prelude::*;
use crate::analyze::{conflict_sets, depends_on, is_dependency_table, kinds_conflict,
    tasks_conflict, usages_conflict};
use crate::depth::{chain_depth_below, depth, execution_plan, height, lemma_chain_depth_witness,
    lemma_depth_below_height, lemma_depth_inhabited, lemma_height_witness,
    lemma_predecessor_is_shallower, lemma_tasks_at_depth_contains, tasks_at_depth};
use crate::schedule::{precedes_earlier, predecessor_sets};
use crate::usage::{ParamUsageView, PurtelParamUsageKind};

verus! {

/// The tasks of given depth below `n` are listed in strictly ascending order,
/// and each of them is a task below `n`.
pub proof fn lemma_tasks_at_depth_ascending(preds: Seq<Set<int>>, level: nat, n: int)
    ensures
        forall|k: int|
            0 <= k < tasks_at_depth(preds, level, n).len() ==> 0 <= #[trigger] tasks_at_depth(
                preds,
                level,
                n,
            )[k] < n,
        forall|a: int, b: int|
            0 <= a < b < tasks_at_depth(preds, level, n).len() ==> tasks_at_depth(
                preds,
                level,
                n,
            )[a] < tasks_at_depth(preds, level, n)[b],
        tasks_at_depth(preds, level, n).len() <= if n < 0 {
            0
        } else {
            n
        },
    decreases n,
{
    if n > 0 {
        lemma_tasks_at_depth_ascending(preds, level, n - 1);
    }
}

/// Coverage: every task stands in the level of its depth, and nowhere else in
/// the plan; so it appears in exactly one level, and there exactly once.
pub proof fn law_coverage(preds: Seq<Set<int>>, i: int)
    requires
        0 <= i < preds.len(),
    ensures
        depth(preds, i) < execution_plan(preds).len(),
        execution_plan(preds)[depth(preds, i) as int].contains(i),
        forall|l: int, k: int|
            0 <= l < execution_plan(preds).len() && 0 <= k < execution_plan(preds)[l].len()
                && #[trigger] execution_plan(preds)[l][k] == i ==> l == depth(preds, i),
        forall|l: int, a: int, b: int|
            0 <= l < execution_plan(preds).len() && 0 <= a < execution_plan(preds)[l].len() && 0
                <= b < execution_plan(preds)[l].len() && #[trigger] execution_plan(preds)[l][a] == i
                && #[trigger] execution_plan(preds)[l][b] == i ==> a == b,
{
    let n = preds.len() as int;
    let plan = execution_plan(preds);
    lemma_depth_below_height(preds, n, i);
    lemma_tasks_at_depth_contains(preds, depth(preds, i), n, i);
    assert forall|l: int, k: int|
        0 <= l < plan.len() && 0 <= k < plan[l].len() && #[trigger] plan[l][k] == i implies l
        == depth(preds, i) by {
        assert(plan[l].contains(i));
        lemma_tasks_at_depth_contains(preds, l as nat, n, i);
    }
    assert forall|l: int, a: int, b: int|
        0 <= l < plan.len() && 0 <= a < plan[l].len() && 0 <= b < plan[l].len()
            && #[trigger] plan[l][a] == i && #[trigger] plan[l][b] == i implies a == b by {
        lemma_tasks_at_depth_ascending(preds, l as nat, n);
    }
}

/// The plan holds nothing but tasks of the batch, each in the level of its
/// depth.
pub proof fn law_plan_holds_tasks(preds: Seq<Set<int>>, l: int, k: int)
    requires
        0 <= l < execution_plan(preds).len(),
        0 <= k < execution_plan(preds)[l].len(),
    ensures
        0 <= execution_plan(preds)[l][k] < preds.len(),
        depth(preds, execution_plan(preds)[l][k]) == l,
{
    let plan = execution_plan(preds);
    assert(plan[l].contains(plan[l][k]));
    lemma_tasks_at_depth_contains(preds, l as nat, preds.len() as int, plan[l][k]);
}

/// No level is empty, and there are at most as many levels as tasks.
pub proof fn law_levels_inhabited(preds: Seq<Set<int>>, l: int)
    requires
        0 <= l < execution_plan(preds).len(),
    ensures
        execution_plan(preds)[l].len() > 0,
        execution_plan(preds).len() <= preds.len(),
{
    let n = preds.len() as int;
    let top = lemma_height_witness(preds, n);
    let t = lemma_depth_inhabited(preds, top, l as nat);
    lemma_tasks_at_depth_contains(preds, l as nat, n, t);
    lemma_height_at_most(preds, n);
}

/// No task is deeper than the number of tasks before it, so the height does
/// not go beyond the number of tasks.
pub proof fn lemma_height_at_most(preds: Seq<Set<int>>, n: int)
    requires
        0 <= n <= preds.len(),
    ensures
        height(preds, n) <= n,
        forall|t: int| 0 <= t < n ==> #[trigger] depth(preds, t) <= t,
    decreases n,
{
    if n > 0 {
        lemma_height_at_most(preds, n - 1);
        if depth(preds, n - 1) > 0 {
            let p = lemma_chain_depth_witness(preds, n - 1, n - 1);
            assert(depth(preds, p) <= p);
        }
    }
}

/// Within a level the tasks stand in ascending order.
pub proof fn law_level_ascending(preds: Seq<Set<int>>, l: int, a: int, b: int)
    requires
        0 <= l < execution_plan(preds).len(),
        0 <= a < b < execution_plan(preds)[l].len(),
    ensures
        execution_plan(preds)[l][a] < execution_plan(preds)[l][b],
{
    lemma_tasks_at_depth_ascending(preds, l as nat, preds.len() as int);
}

/// Respect: a task stands in a later level than each task it waits for.
pub proof fn law_respect(preds: Seq<Set<int>>, i: int, j: int, level_i: int, level_j: int)
    requires
        precedes_earlier(preds),
        0 <= i < preds.len(),
        preds[i].contains(j),
        0 <= level_i < execution_plan(preds).len(),
        0 <= level_j < execution_plan(preds).len(),
        execution_plan(preds)[level_i].contains(i),
        execution_plan(preds)[level_j].contains(j),
    ensures
        level_j < level_i,
{
    let n = preds.len() as int;
    lemma_tasks_at_depth_contains(preds, level_i as nat, n, i);
    lemma_tasks_at_depth_contains(preds, level_j as nat, n, j);
    lemma_predecessor_is_shallower(preds, i, j);
}

/// Independence within a level: of two tasks of one level neither waits for
/// the other.
pub proof fn law_level_independent(preds: Seq<Set<int>>, level: int, a: int, b: int)
    requires
        precedes_earlier(preds),
        0 <= level < execution_plan(preds).len(),
        execution_plan(preds)[level].contains(a),
        execution_plan(preds)[level].contains(b),
    ensures
        !preds[a].contains(b),
        !preds[b].contains(a),
{
    let n = preds.len() as int;
    lemma_tasks_at_depth_contains(preds, level as nat, n, a);
    lemma_tasks_at_depth_contains(preds, level as nat, n, b);
    if preds[a].contains(b) {
        lemma_predecessor_is_shallower(preds, a, b);
    }
    if preds[b].contains(a) {
        lemma_predecessor_is_shallower(preds, b, a);
    }
}

/// A chain of predecessors: a non-empty sequence of tasks in which every
/// task but the first waits for the one before it.
pub open spec fn is_chain(preds: Seq<Set<int>>, chain: Seq<int>) -> bool {
    &&& chain.len() > 0
    &&& forall|k: int| 0 <= k < chain.len() ==> 0 <= #[trigger] chain[k] < preds.len()
    &&& forall|k: int| 0 < k < chain.len() ==> preds[#[trigger] chain[k]].contains(chain[k - 1])
}

/// A chain that ends in a task has at most as many steps as the task is deep.
pub proof fn lemma_chain_bounded(preds: Seq<Set<int>>, chain: Seq<int>)
    requires
        precedes_earlier(preds),
        is_chain(preds, chain),
    ensures
        chain.len() - 1 <= depth(preds, chain.last()),
    decreases chain.len(),
{
    if chain.len() > 1 {
        let shorter = chain.drop_last();
        let end = chain.len() - 1;
        assert(preds[chain[end]].contains(chain[end - 1]));
        assert(is_chain(preds, shorter)) by {
            assert forall|k: int| 0 < k < shorter.len() implies preds[#[trigger] shorter[k]].contains(
                shorter[k - 1],
            ) by {
                assert(preds[chain[k]].contains(chain[k - 1]));
            }
        }
        lemma_chain_bounded(preds, shorter);
        lemma_predecessor_is_shallower(preds, chain[end], chain[end - 1]);
    }
}

/// Some chain that ends in task `i` has as many steps as `i` is deep.
pub proof fn lemma_longest_chain(preds: Seq<Set<int>>, i: int) -> (chain: Seq<int>)
    requires
        0 <= i < preds.len(),
    ensures
        is_chain(preds, chain),
        chain.last() == i,
        chain.len() - 1 == depth(preds, i),
    decreases i,
{
    if depth(preds, i) == 0 {
        seq![i]
    } else {
        let p = lemma_chain_depth_witness(preds, i, i);
        let shorter = lemma_longest_chain(preds, p);
        let chain = shorter.push(i);
        assert forall|k: int| 0 < k < chain.len() implies preds[#[trigger] chain[k]].contains(
            chain[k - 1],
        ) by {
            if k < shorter.len() {
                assert(preds[shorter[k]].contains(shorter[k - 1]));
            }
        }
        chain
    }
}

/// Depth optimality: no chain of predecessors holds more tasks than the plan
/// has levels, and unless the batch is empty some chain holds exactly as many.
/// A task stands in the level whose index is the number of steps of the
/// longest chain that ends in it.
pub proof fn law_depth_optimal(preds: Seq<Set<int>>)
    requires
        precedes_earlier(preds),
    ensures
        forall|chain: Seq<int>| #[trigger]
            is_chain(preds, chain) ==> chain.len() <= execution_plan(preds).len(),
        preds.len() > 0 ==> exists|chain: Seq<int>| #[trigger]
            is_chain(preds, chain) && chain.len() == execution_plan(preds).len(),
        preds.len() == 0 ==> execution_plan(preds).len() == 0,
{
    let n = preds.len() as int;
    assert forall|chain: Seq<int>| #[trigger] is_chain(preds, chain) implies chain.len()
        <= execution_plan(preds).len() by {
        lemma_chain_bounded(preds, chain);
        lemma_depth_below_height(preds, n, chain.last());
    }
    if n > 0 {
        lemma_depth_below_height(preds, n, 0);
        let top = lemma_height_witness(preds, n);
        let chain = lemma_longest_chain(preds, top);
        assert(is_chain(preds, chain) && chain.len() == execution_plan(preds).len());
    }
}

/// What the analyzer finds for a task stands before that task.
pub proof fn lemma_conflict_sets_precede(decls: Seq<Seq<ParamUsageView>>)
    ensures
        precedes_earlier(conflict_sets(decls)),
        conflict_sets(decls).len() == decls.len(),
{
}

/// Whether two tasks conflict does not depend on which of them is asked
/// first.
pub proof fn lemma_conflict_symmetric(one: Seq<ParamUsageView>, other: Seq<ParamUsageView>)
    requires
        tasks_conflict(one, other),
    ensures
        tasks_conflict(other, one),
{
    let (a, b) = choose|a: int, b: int|
        0 <= a < one.len() && 0 <= b < other.len() && usages_conflict(
            #[trigger] one[a],
            #[trigger] other[b],
        );
    assert(usages_conflict(other[b], one[a]));
}

/// Independence within a level, in terms of the declarations: two different
/// tasks of one level of the plan do not conflict. No name that one of them
/// writes is read or written by the other.
pub proof fn law_level_free_of_conflicts(
    decls: Seq<Seq<ParamUsageView>>,
    level: int,
    a: int,
    b: int,
)
    requires
        0 <= level < execution_plan(conflict_sets(decls)).len(),
        execution_plan(conflict_sets(decls))[level].contains(a),
        execution_plan(conflict_sets(decls))[level].contains(b),
        a != b,
    ensures
        !depends_on(decls, a, b),
        !depends_on(decls, b, a),
        !tasks_conflict(decls[a], decls[b]),
{
    let preds = conflict_sets(decls);
    lemma_conflict_sets_precede(decls);
    law_level_independent(preds, level, a, b);
    lemma_tasks_at_depth_contains(preds, level as nat, preds.len() as int, a);
    lemma_tasks_at_depth_contains(preds, level as nat, preds.len() as int, b);
    assert(!preds[a].contains(b));
    assert(!preds[b].contains(a));
    if tasks_conflict(decls[a], decls[b]) {
        lemma_conflict_symmetric(decls[a], decls[b]);
        if b < a {
            assert(depends_on(decls, a, b));
        } else {
            assert(depends_on(decls, b, a));
        }
    }
}

/// Every declaration of every task is a read.
pub open spec fn reads_only(decls: Seq<Seq<ParamUsageView>>) -> bool {
    forall|t: int, a: int|
        0 <= t < decls.len() && 0 <= a < decls[t].len() ==> (#[trigger] decls[t][a]).kind
            == PurtelParamUsageKind::READ
}

/// A task without predecessors has depth 0.
pub proof fn lemma_root_depth(preds: Seq<Set<int>>, i: int, j: int)
    requires
        forall|p: int| !preds[i].contains(p),
    ensures
        chain_depth_below(preds, i, j) == 0,
    decreases j,
{
    if 0 < j <= i && i < preds.len() {
        lemma_root_depth(preds, i, j - 1);
    }
}

/// The tasks below `n` all being of depth 0, level 0 lists them all.
pub proof fn lemma_flat_level(preds: Seq<Set<int>>, n: int)
    requires
        0 <= n,
        forall|t: int| 0 <= t < n ==> #[trigger] depth(preds, t) == 0,
    ensures
        tasks_at_depth(preds, 0, n) == Seq::new(n as nat, |t: int| t),
        n > 0 ==> height(preds, n) == 1,
    decreases n,
{
    if n > 0 {
        lemma_flat_level(preds, n - 1);
        assert(depth(preds, n - 1) == 0);
        assert(height(preds, n - 1) <= 1) by {
            if n == 1 {
                assert(height(preds, 0) == 0);
            }
        }
        assert(tasks_at_depth(preds, 0, n) =~= Seq::new(n as nat, |t: int| t));
    }
}

/// Readers run together: where every task only reads, the plan of a batch
/// that is not empty is one level, which holds all the tasks in order.
pub proof fn law_readers_share_a_level(decls: Seq<Seq<ParamUsageView>>)
    requires
        reads_only(decls),
        decls.len() > 0,
    ensures
        execution_plan(conflict_sets(decls)) == seq![Seq::new(decls.len(), |t: int| t)],
{
    let preds = conflict_sets(decls);
    let n = decls.len() as int;
    assert forall|t: int| 0 <= t < n implies #[trigger] depth(preds, t) == 0 by {
        assert forall|p: int| !preds[t].contains(p) by {
            if depends_on(decls, t, p) {
                let (a, b) = choose|a: int, b: int|
                    0 <= a < decls[t].len() && 0 <= b < decls[p].len() && usages_conflict(
                        #[trigger] decls[t][a],
                        #[trigger] decls[p][b],
                    );
                assert(kinds_conflict(decls[t][a].kind, decls[p][b].kind));
            }
        }
        lemma_root_depth(preds, t, t);
    }
    lemma_flat_level(preds, n);
    assert(execution_plan(preds) =~= seq![Seq::new(decls.len(), |t: int| t)]);
}

/// A task that declares nothing stands in level 0.
pub proof fn law_silent_task_is_root(decls: Seq<Seq<ParamUsageView>>, i: int)
    requires
        0 <= i < decls.len(),
        decls[i].len() == 0,
    ensures
        depth(conflict_sets(decls), i) == 0,
        execution_plan(conflict_sets(decls))[0].contains(i),
{
    let preds = conflict_sets(decls);
    lemma_root_depth(preds, i, i);
    law_coverage(preds, i);
}

/// Determinism: the plan depends on the declarations alone. Two dependency
/// tables of the same declarations, in whatever order they list the
/// predecessors of a task, lead to the same plan.
pub proof fn law_plan_determined(
    decls: Seq<Seq<ParamUsageView>>,
    table: Seq<Seq<int>>,
    other: Seq<Seq<int>>,
)
    requires
        is_dependency_table(decls, table),
        is_dependency_table(decls, other),
    ensures
        execution_plan(predecessor_sets(table)) == execution_plan(predecessor_sets(other)),
        execution_plan(predecessor_sets(table)) == execution_plan(conflict_sets(decls)),
{
}

} // verus!
