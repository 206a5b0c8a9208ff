//! The depth of a task and the plan it leads to.
//!
//! Where every task waits only for tasks that stand before it, the length of
//! the longest chain of predecessors that ends in a task is well defined. It
//! is the depth of the task, and the plan puts every task in the level of its
//! depth.

use vstd::prelude::*;
use crate::schedule::{assigned_after, complete_after, is_round_plan, precedes_earlier, ready,
    round_members, schedulable};

verus! {

/// The length of the longest predecessor chain that ends in task `i` and whose
/// last step comes from a task below `j`. Only predecessors that stand before
/// `i` count.
pub open spec fn chain_depth_below(preds: Seq<Set<int>>, i: int, j: int) -> nat
    decreases i, j,
{
    if 0 < j <= i && i < preds.len() {
        let rest = chain_depth_below(preds, i, j - 1);
        if preds[i].contains(j - 1) {
            let via = chain_depth_below(preds, j - 1, j - 1) + 1;
            if via > rest {
                via
            } else {
                rest
            }
        } else {
            rest
        }
    } else {
        0
    }
}

/// The depth of task `i`: 0 for a task that waits for nothing, otherwise one
/// more than the greatest depth among its predecessors.
pub open spec fn depth(preds: Seq<Set<int>>, i: int) -> nat {
    chain_depth_below(preds, i, i)
}

/// The tasks below `n` whose depth is `level`, in ascending order.
pub open spec fn tasks_at_depth(preds: Seq<Set<int>>, level: nat, n: int) -> Seq<int>
    decreases n,
{
    if n <= 0 {
        Seq::empty()
    } else {
        let earlier = tasks_at_depth(preds, level, n - 1);
        if depth(preds, n - 1) == level {
            earlier.push(n - 1)
        } else {
            earlier
        }
    }
}

/// One more than the greatest depth among the tasks below `n`; 0 if there is
/// none.
pub open spec fn height(preds: Seq<Set<int>>, n: int) -> nat
    decreases n,
{
    if n <= 0 {
        0
    } else {
        let rest = height(preds, n - 1);
        let here = depth(preds, n - 1) + 1;
        if here > rest {
            here
        } else {
            rest
        }
    }
}

/// The plan: level `l` holds exactly the tasks of depth `l`, in ascending
/// order, and there are as many levels as there are depths in use.
pub open spec fn execution_plan(preds: Seq<Set<int>>) -> Seq<Seq<int>> {
    Seq::new(
        height(preds, preds.len() as int),
        |l: int| tasks_at_depth(preds, l as nat, preds.len() as int),
    )
}

/// The more predecessors are taken into account, the longer the longest
/// chain.
pub proof fn lemma_chain_depth_monotone(preds: Seq<Set<int>>, i: int, j1: int, j2: int)
    requires
        0 <= j1 <= j2 <= i,
    ensures
        chain_depth_below(preds, i, j1) <= chain_depth_below(preds, i, j2),
    decreases j2,
{
    if j1 < j2 {
        lemma_chain_depth_monotone(preds, i, j1, j2 - 1);
    }
}

/// A task is strictly deeper than each of its predecessors.
pub proof fn lemma_predecessor_is_shallower(preds: Seq<Set<int>>, i: int, j: int)
    requires
        0 <= j < i < preds.len(),
        preds[i].contains(j),
    ensures
        depth(preds, j) < depth(preds, i),
{
    lemma_chain_depth_monotone(preds, i, j + 1, i);
}

/// A positive chain depth is reached through some predecessor.
pub proof fn lemma_chain_depth_witness(preds: Seq<Set<int>>, i: int, j: int) -> (p: int)
    requires
        0 <= j <= i < preds.len(),
        chain_depth_below(preds, i, j) > 0,
    ensures
        0 <= p < j,
        preds[i].contains(p),
        depth(preds, p) + 1 == chain_depth_below(preds, i, j),
    decreases j,
{
    let rest = chain_depth_below(preds, i, j - 1);
    if preds[i].contains(j - 1) && depth(preds, j - 1) + 1 > rest {
        j - 1
    } else {
        lemma_chain_depth_witness(preds, i, j - 1)
    }
}

/// A task has depth at most `r` exactly if all its predecessors have depth
/// below `r`.
pub proof fn lemma_depth_bound(preds: Seq<Set<int>>, i: int, r: nat)
    requires
        0 <= i < preds.len(),
    ensures
        depth(preds, i) <= r <==> (forall|p: int|
            0 <= p < i && #[trigger] preds[i].contains(p) ==> depth(preds, p) < r),
{
    if depth(preds, i) <= r {
        assert forall|p: int| 0 <= p < i && #[trigger] preds[i].contains(p) implies depth(
            preds,
            p,
        ) < r by {
            lemma_predecessor_is_shallower(preds, i, p);
        }
    } else {
        let p = lemma_chain_depth_witness(preds, i, i);
        assert(preds[i].contains(p) && depth(preds, p) >= r);
    }
}

/// Below a task of depth `d`, every depth up to `d` is in use.
pub proof fn lemma_depth_inhabited(preds: Seq<Set<int>>, i: int, l: nat) -> (t: int)
    requires
        0 <= i < preds.len(),
        l <= depth(preds, i),
    ensures
        0 <= t <= i,
        depth(preds, t) == l,
    decreases i,
{
    if l == depth(preds, i) {
        i
    } else {
        let p = lemma_chain_depth_witness(preds, i, i);
        lemma_depth_inhabited(preds, p, l)
    }
}

/// What `tasks_at_depth` holds.
pub proof fn lemma_tasks_at_depth_contains(preds: Seq<Set<int>>, level: nat, n: int, t: int)
    ensures
        tasks_at_depth(preds, level, n).contains(t) <==> 0 <= t < n && depth(preds, t) == level,
    decreases n,
{
    if n > 0 {
        lemma_tasks_at_depth_contains(preds, level, n - 1, t);
        let earlier = tasks_at_depth(preds, level, n - 1);
        if depth(preds, n - 1) == level {
            let now = earlier.push(n - 1);
            assert(now.last() == n - 1);
            if earlier.contains(t) {
                let k = choose|k: int| 0 <= k < earlier.len() && earlier[k] == t;
                assert(now[k] == t);
            }
            if now.contains(t) {
                let k = choose|k: int| 0 <= k < now.len() && now[k] == t;
                if k < earlier.len() {
                    assert(earlier[k] == t);
                }
            }
        }
    }
}

/// Every task below `n` is less deep than `height(preds, n)`.
pub proof fn lemma_depth_below_height(preds: Seq<Set<int>>, n: int, t: int)
    requires
        0 <= t < n,
    ensures
        depth(preds, t) < height(preds, n),
    decreases n,
{
    if t < n - 1 {
        lemma_depth_below_height(preds, n - 1, t);
    }
}

/// A positive height is one more than the depth of some task.
pub proof fn lemma_height_witness(preds: Seq<Set<int>>, n: int) -> (t: int)
    requires
        height(preds, n) > 0,
    ensures
        0 <= t < n,
        depth(preds, t) + 1 == height(preds, n),
    decreases n,
{
    if depth(preds, n - 1) + 1 > height(preds, n - 1) {
        n - 1
    } else {
        lemma_height_witness(preds, n - 1)
    }
}

/// Where every task waits only for tasks before it, the rounds take the
/// tasks in the order of their depth: a task has its level after `rounds`
/// rounds exactly if its depth is below `rounds`.
pub proof fn lemma_assigned_iff_shallow(preds: Seq<Set<int>>, rounds: nat, i: int)
    requires
        precedes_earlier(preds),
    ensures
        assigned_after(preds, rounds).contains(i) <==> 0 <= i < preds.len() && depth(preds, i)
            < rounds,
    decreases rounds,
{
    if rounds > 0 && 0 <= i < preds.len() {
        let fewer = (rounds - 1) as nat;
        let before = assigned_after(preds, fewer);
        lemma_assigned_iff_shallow(preds, fewer, i);
        lemma_depth_bound(preds, i, fewer);
        if ready(preds, before, i) {
            assert forall|p: int| 0 <= p < i && #[trigger] preds[i].contains(p) implies depth(
                preds,
                p,
            ) < fewer by {
                lemma_assigned_iff_shallow(preds, fewer, p);
            }
        }
        if depth(preds, i) <= fewer {
            assert forall|j: int| #[trigger] preds[i].contains(j) implies before.contains(j) by {
                lemma_assigned_iff_shallow(preds, fewer, j);
            }
        }
    }
}

/// Where every task waits only for tasks before it, a round takes the tasks
/// of one depth.
pub proof fn lemma_round_members_at_depth(preds: Seq<Set<int>>, round: nat, n: int)
    requires
        precedes_earlier(preds),
        n <= preds.len(),
    ensures
        round_members(preds, round, n) == tasks_at_depth(preds, round, n),
    decreases n,
{
    if n > 0 {
        lemma_round_members_at_depth(preds, round, n - 1);
        lemma_assigned_iff_shallow(preds, round, n - 1);
        lemma_assigned_iff_shallow(preds, round + 1, n - 1);
    }
}

/// Where every task waits only for tasks before it, the scheduler does not
/// run into a deadlock, and what the rounds make is the plan by depth.
pub proof fn lemma_execution_plan_is_round_plan(preds: Seq<Set<int>>)
    requires
        precedes_earlier(preds),
    ensures
        is_round_plan(preds, execution_plan(preds)),
        schedulable(preds),
{
    let n = preds.len() as int;
    let plan = execution_plan(preds);
    assert forall|i: int| 0 <= i < preds.len() implies #[trigger] assigned_after(
        preds,
        plan.len(),
    ).contains(i) by {
        lemma_depth_below_height(preds, n, i);
        lemma_assigned_iff_shallow(preds, plan.len(), i);
    }
    if plan.len() > 0 {
        let top = lemma_height_witness(preds, n);
        lemma_assigned_iff_shallow(preds, (plan.len() - 1) as nat, top);
    }
    assert forall|r: int| 0 <= r < plan.len() implies #[trigger] plan[r] == round_members(
        preds,
        r as nat,
        n,
    ) by {
        lemma_round_members_at_depth(preds, r as nat, n);
    }
    assert(complete_after(preds, plan.len()));
}

} // verus!
