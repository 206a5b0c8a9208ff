//! Index types shared by the analyzer, the scheduler and the executor, and
//! their mathematical reading.

use vstd::prelude::*;

verus! {

/// A task is named by its position in the batch it was handed over in.
pub type TaskId = usize;

/// The tasks one task has to wait for. Each of them stands earlier in the
/// batch than the task itself, and none is listed twice.
pub type TaskDependencies = Vec<TaskId>;

/// The tasks of one execution level, in ascending order. They are pairwise
/// independent, and everything they wait for belongs to an earlier level.
pub type TaskExecutionLevel = Vec<TaskId>;

/// A list of task ids as a sequence of mathematical integers.
pub open spec fn id_seq(ids: Seq<TaskId>) -> Seq<int> {
    Seq::new(ids.len(), |k: int| ids[k] as int)
}

/// A list of lists of task ids (a dependency table, or a plan) as a sequence of
/// integer sequences.
pub open spec fn id_table(table: Seq<Vec<TaskId>>) -> Seq<Seq<int>> {
    Seq::new(table.len(), |i: int| id_seq(table[i]@))
}

/// Membership in a list of ids does not depend on the reading.
pub proof fn lemma_id_seq_contains(ids: Seq<TaskId>, id: TaskId)
    ensures
        id_seq(ids).contains(id as int) == ids.contains(id),
{
    if ids.contains(id) {
        let k = choose|k: int| 0 <= k < ids.len() && ids[k] == id;
        assert(id_seq(ids)[k] == id as int);
    }
    if id_seq(ids).contains(id as int) {
        let k = choose|k: int| 0 <= k < id_seq(ids).len() && id_seq(ids)[k] == id as int;
        assert(ids[k] == id);
    }
}

/// Whether `id` occurs in `ids`.
pub fn contains_task(ids: &Vec<TaskId>, id: TaskId) -> (found: bool)
    ensures
        found == ids@.contains(id),
{
    let mut k: usize = 0;
    while k < ids.len()
        invariant
            k <= ids.len(),
            forall|m: int| 0 <= m < k ==> ids[m] != id,
        decreases ids.len() - k,
    {
        if ids[k] == id {
            return true;
        }
        k += 1;
    }
    false
}

} // verus!
