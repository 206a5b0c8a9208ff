//! The dependency analyzer: which earlier tasks a task has to wait for.
//!
//! Two declarations of the same name conflict unless both only read it. A
//! task depends on an earlier one exactly if some declaration of the one
//! conflicts with some declaration of the other.

use vstd::prelude::*;
use crate::executor::PurtelExecutor;
use crate::schedule::{dependencies_well_formed, predecessor_sets};
use crate::types::{contains_task, id_seq, id_table, lemma_id_seq_contains, TaskDependencies,
    TaskId};
use crate::usage::{ParamUsageView, PurtelParamUsage, PurtelParamUsageKind};
use crate::validate::declarations_valid;

verus! {

/// Whether a later use of a name has to wait for an earlier use of it: a write
/// after a write, a write after a read and a read after a write do; a read
/// after a read does not.
pub open spec fn kinds_conflict(later: PurtelParamUsageKind, earlier: PurtelParamUsageKind) -> bool {
    match (later, earlier) {
        (PurtelParamUsageKind::WRITE, PurtelParamUsageKind::WRITE) => true,
        (PurtelParamUsageKind::WRITE, PurtelParamUsageKind::READ) => true,
        (PurtelParamUsageKind::READ, PurtelParamUsageKind::WRITE) => true,
        (PurtelParamUsageKind::READ, PurtelParamUsageKind::READ) => false,
    }
}

/// Two declarations conflict: they name the same datum and their kinds do.
pub open spec fn usages_conflict(later: ParamUsageView, earlier: ParamUsageView) -> bool {
    later.identifier == earlier.identifier && kinds_conflict(later.kind, earlier.kind)
}

/// Some declaration of `later` conflicts with some declaration of `earlier`.
pub open spec fn tasks_conflict(later: Seq<ParamUsageView>, earlier: Seq<ParamUsageView>) -> bool {
    exists|a: int, b: int|
        0 <= a < later.len() && 0 <= b < earlier.len() && usages_conflict(
            #[trigger] later[a],
            #[trigger] earlier[b],
        )
}

/// Task `i` has to wait for task `j`: `j` stands before `i`, and the two
/// conflict.
pub open spec fn depends_on(decls: Seq<Seq<ParamUsageView>>, i: int, j: int) -> bool {
    0 <= j < i < decls.len() && tasks_conflict(decls[i], decls[j])
}

/// For every task, the set of the tasks it has to wait for.
pub open spec fn conflict_sets(decls: Seq<Seq<ParamUsageView>>) -> Seq<Set<int>> {
    Seq::new(decls.len(), |i: int| Set::new(|j: int| depends_on(decls, i, j)))
}

/// `table` is a dependency table of `decls`: it lists, for every task, each
/// task that one has to wait for, once, and no other.
pub open spec fn is_dependency_table(
    decls: Seq<Seq<ParamUsageView>>,
    table: Seq<Seq<int>>,
) -> bool {
    &&& table.len() == decls.len()
    &&& forall|i: int| 0 <= i < table.len() ==> (#[trigger] table[i]).no_duplicates()
    &&& predecessor_sets(table) == conflict_sets(decls)
}

/// A dependency table is well formed: what it lists stands before the owner.
pub proof fn lemma_dependency_table_well_formed(
    decls: Seq<Seq<ParamUsageView>>,
    table: Seq<Seq<int>>,
)
    requires
        is_dependency_table(decls, table),
    ensures
        dependencies_well_formed(table),
{
    assert forall|i: int, k: int| 0 <= i < table.len() && 0 <= k < table[i].len() implies 0
        <= #[trigger] table[i][k] < i by {
        assert(table[i].contains(table[i][k]));
        assert(predecessor_sets(table)[i].contains(table[i][k]));
        assert(conflict_sets(decls)[i].contains(table[i][k]));
    }
}

/// Declaration `usage` conflicts with one of the first `upto` declarations of
/// `earlier`.
pub open spec fn usage_conflicts_upto(
    usage: ParamUsageView,
    earlier: Seq<ParamUsageView>,
    upto: int,
) -> bool {
    exists|b: int| 0 <= b < upto && b < earlier.len() && usages_conflict(usage, #[trigger] earlier[b])
}

/// One of the first `upto` declarations of `later` conflicts with some
/// declaration of `earlier`.
pub open spec fn conflict_upto(
    later: Seq<ParamUsageView>,
    earlier: Seq<ParamUsageView>,
    upto: int,
) -> bool {
    exists|a: int|
        0 <= a < upto && a < later.len() && usage_conflicts_upto(
            #[trigger] later[a],
            earlier,
            earlier.len() as int,
        )
}

/// To have gone through all declarations of `later` is to know whether the
/// two tasks conflict.
pub proof fn lemma_conflict_upto_all(later: Seq<ParamUsageView>, earlier: Seq<ParamUsageView>)
    ensures
        conflict_upto(later, earlier, later.len() as int) <==> tasks_conflict(later, earlier),
{
    if conflict_upto(later, earlier, later.len() as int) {
        let a = choose|a: int|
            0 <= a < later.len() && usage_conflicts_upto(
                #[trigger] later[a],
                earlier,
                earlier.len() as int,
            );
        let b = choose|b: int|
            0 <= b < earlier.len() && usages_conflict(later[a], #[trigger] earlier[b]);
        assert(usages_conflict(later[a], earlier[b]));
    }
    if tasks_conflict(later, earlier) {
        let (a, b) = choose|a: int, b: int|
            0 <= a < later.len() && 0 <= b < earlier.len() && usages_conflict(
                #[trigger] later[a],
                #[trigger] earlier[b],
            );
        assert(usage_conflicts_upto(later[a], earlier, earlier.len() as int));
    }
}

/// Whether a later use of kind `later` has to wait for an earlier use of kind
/// `earlier` of the same name.
pub fn conflicting_kinds(later: PurtelParamUsageKind, earlier: PurtelParamUsageKind) -> (conflict:
    bool)
    ensures
        conflict == kinds_conflict(later, earlier),
{
    let write_after_write = later == PurtelParamUsageKind::WRITE && earlier
        == PurtelParamUsageKind::WRITE;
    let write_after_read = later == PurtelParamUsageKind::WRITE && earlier
        == PurtelParamUsageKind::READ;
    let read_after_write = later == PurtelParamUsageKind::READ && earlier
        == PurtelParamUsageKind::WRITE;
    write_after_read || write_after_write || read_after_write
}

impl<F> PurtelExecutor<F> {
    /// Works out, for every task, the earlier tasks it has to wait for. Task
    /// `i` waits for task `j` exactly if `j` stands before `i` and some
    /// declaration of `i` conflicts with some declaration of `j`. No task is
    /// listed twice; dependencies that follow from others are listed all the
    /// same.
    pub fn calc_task_dependencies(param_usages: &Vec<Vec<PurtelParamUsage>>) -> (all_dependencies:
        Vec<TaskDependencies>)
        requires
            declarations_valid(param_usages.deep_view()),
        ensures
            is_dependency_table(param_usages.deep_view(), id_table(all_dependencies@)),
            dependencies_well_formed(id_table(all_dependencies@)),
    {
        let ghost decls = param_usages.deep_view();
        let mut all_dependencies: Vec<TaskDependencies> = Vec::new();
        let mut task_i: usize = 0;
        while task_i < param_usages.len()
            invariant
                decls == param_usages.deep_view(),
                task_i <= param_usages.len(),
                all_dependencies.len() == task_i,
                forall|i: int|
                    0 <= i < task_i ==> (#[trigger] all_dependencies[i])@.no_duplicates(),
                forall|i: int, j: TaskId|
                    0 <= i < task_i ==> (#[trigger] all_dependencies[i]@.contains(j)
                        <==> depends_on(decls, i, j as int)),
            decreases param_usages.len() - task_i,
        {
            let task_dependencies = Self::task_dependencies(param_usages, task_i);
            all_dependencies.push(task_dependencies);
            task_i += 1;
        }
        proof {
            let table = id_table(all_dependencies@);
            assert forall|i: int| 0 <= i < table.len() implies (#[trigger] table[i]).no_duplicates() by {
                let ids = all_dependencies[i]@;
                assert forall|a: int, b: int|
                    0 <= a < table[i].len() && 0 <= b < table[i].len() && a != b implies table[i][a]
                    != table[i][b] by {
                    assert(ids[a] != ids[b]);
                }
            }
            assert forall|i: int| 0 <= i < table.len() implies #[trigger] predecessor_sets(
                table,
            )[i] =~= conflict_sets(decls)[i] by {
                assert forall|j: int| table[i].contains(j) <==> depends_on(decls, i, j) by {
                    if table[i].contains(j) {
                        let k = choose|k: int| 0 <= k < table[i].len() && table[i][k] == j;
                        assert(all_dependencies[i]@.contains(all_dependencies[i]@[k]));
                    }
                    if depends_on(decls, i, j) {
                        assert(all_dependencies[i]@.contains(j as TaskId));
                        lemma_id_seq_contains(all_dependencies[i]@, j as TaskId);
                    }
                }
            }
            assert(predecessor_sets(table) =~= conflict_sets(decls));
            lemma_dependency_table_well_formed(decls, table);
        }
        all_dependencies
    }

    /// The tasks that task `task_i` has to wait for. The declarations of the
    /// task are gone through in order, and for each of them the earlier tasks
    /// in order; a task enters the list when the first conflict with it shows.
    fn task_dependencies(param_usages: &Vec<Vec<PurtelParamUsage>>, task_i: TaskId) -> (
        task_dependencies: TaskDependencies)
        requires
            task_i < param_usages.len(),
        ensures
            task_dependencies@.no_duplicates(),
            forall|j: TaskId|
                task_dependencies@.contains(j) <==> depends_on(
                    param_usages.deep_view(),
                    task_i as int,
                    j as int,
                ),
    {
        let ghost decls = param_usages.deep_view();
        let ghost later = decls[task_i as int];
        let mut task_dependencies: TaskDependencies = Vec::new();
        let mut task_i_param_i: usize = 0;
        while task_i_param_i < param_usages[task_i].len()
            invariant
                decls == param_usages.deep_view(),
                task_i < param_usages.len(),
                later == decls[task_i as int],
                later.len() == param_usages[task_i as int].len(),
                task_i_param_i <= later.len(),
                task_dependencies@.no_duplicates(),
                forall|j: TaskId|
                    task_dependencies@.contains(j) <==> j < task_i && conflict_upto(
                        later,
                        decls[j as int],
                        task_i_param_i as int,
                    ),
            decreases later.len() - task_i_param_i,
        {
            let param = &param_usages[task_i][task_i_param_i];
            let mut prev_task_i: usize = 0;
            while prev_task_i < task_i
                invariant
                    decls == param_usages.deep_view(),
                    task_i < param_usages.len(),
                    later == decls[task_i as int],
                    later.len() == param_usages[task_i as int].len(),
                    task_i_param_i < later.len(),
                    *param == param_usages[task_i as int][task_i_param_i as int],
                    param@ == later[task_i_param_i as int],
                    prev_task_i <= task_i,
                    task_dependencies@.no_duplicates(),
                    forall|j: TaskId|
                        task_dependencies@.contains(j) <==> j < task_i && (conflict_upto(
                            later,
                            decls[j as int],
                            task_i_param_i as int,
                        ) || (j < prev_task_i && usage_conflicts_upto(
                            param@,
                            decls[j as int],
                            decls[j as int].len() as int,
                        ))),
                decreases task_i - prev_task_i,
            {
                let ghost earlier = decls[prev_task_i as int];
                let ghost before = task_dependencies@;
                let mut prev_task_i_param_i: usize = 0;
                while prev_task_i_param_i < param_usages[prev_task_i].len()
                    invariant
                        decls == param_usages.deep_view(),
                        task_i < param_usages.len(),
                        prev_task_i < task_i,
                        later == decls[task_i as int],
                        earlier == decls[prev_task_i as int],
                        earlier.len() == param_usages[prev_task_i as int].len(),
                        task_i_param_i < later.len(),
                        *param == param_usages[task_i as int][task_i_param_i as int],
                        param@ == later[task_i_param_i as int],
                        prev_task_i_param_i <= earlier.len(),
                        task_dependencies@.no_duplicates(),
                        forall|j: TaskId|
                            before.contains(j) <==> j < task_i && (conflict_upto(
                                later,
                                decls[j as int],
                                task_i_param_i as int,
                            ) || (j < prev_task_i && usage_conflicts_upto(
                                param@,
                                decls[j as int],
                                decls[j as int].len() as int,
                            ))),
                        forall|j: TaskId|
                            j != prev_task_i ==> (task_dependencies@.contains(j)
                                <==> before.contains(j)),
                        task_dependencies@.contains(prev_task_i) <==> before.contains(prev_task_i)
                            || usage_conflicts_upto(param@, earlier, prev_task_i_param_i as int),
                    decreases earlier.len() - prev_task_i_param_i,
                {
                    let prev_param = &param_usages[prev_task_i][prev_task_i_param_i];
                    assert(prev_param@ == earlier[prev_task_i_param_i as int]);
                    let already_in_deps = contains_task(&task_dependencies, prev_task_i);
                    if param.same_identifier(prev_param) && !already_in_deps {
                        if conflicting_kinds(param.kind(), prev_param.kind()) {
                            proof {
                                lemma_push_keeps_distinct(task_dependencies@, prev_task_i);
                            }
                            task_dependencies.push(prev_task_i);
                        }
                    }
                    prev_task_i_param_i += 1;
                }
                proof {
                    assert(prev_task_i_param_i == earlier.len());
                    assert forall|j: TaskId|
                        task_dependencies@.contains(j) <==> j < task_i && (conflict_upto(
                            later,
                            decls[j as int],
                            task_i_param_i as int,
                        ) || (j < prev_task_i + 1 && usage_conflicts_upto(
                            param@,
                            decls[j as int],
                            decls[j as int].len() as int,
                        ))) by {
                        if j != prev_task_i {
                            assert(task_dependencies@.contains(j) <==> before.contains(j));
                        }
                    }
                }
                prev_task_i += 1;
            }
            task_i_param_i += 1;
        }
        proof {
            assert forall|j: TaskId|
                task_dependencies@.contains(j) <==> depends_on(decls, task_i as int, j as int) by {
                if j < task_i {
                    lemma_conflict_upto_all(later, decls[j as int]);
                }
            }
        }
        task_dependencies
    }
}

/// Appending an id that a list does not hold keeps the list free of
/// repetitions, and adds that id and no other to what it holds.
pub proof fn lemma_push_keeps_distinct(ids: Seq<TaskId>, id: TaskId)
    requires
        ids.no_duplicates(),
        !ids.contains(id),
    ensures
        ids.push(id).no_duplicates(),
        forall|j: TaskId| ids.push(id).contains(j) <==> ids.contains(j) || j == id,
{
    let grown = ids.push(id);
    assert forall|a: int, b: int| 0 <= a < grown.len() && 0 <= b < grown.len() && a != b implies grown[a]
        != grown[b] by {
        if a < ids.len() {
            assert(ids.contains(ids[a]));
        }
        if b < ids.len() {
            assert(ids.contains(ids[b]));
        }
    }
    assert forall|j: TaskId| grown.contains(j) <==> ids.contains(j) || j == id by {
        if ids.contains(j) {
            let k = choose|k: int| 0 <= k < ids.len() && ids[k] == j;
            assert(grown[k] == j);
        }
        if j == id {
            assert(grown[ids.len() as int] == j);
        }
        if grown.contains(j) {
            let k = choose|k: int| 0 <= k < grown.len() && grown[k] == j;
            if k < ids.len() {
                assert(ids[k] == j);
            }
        }
    }
}

} // verus!
