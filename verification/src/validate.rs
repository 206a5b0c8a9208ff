//! The declaration validator: within one task no name is declared twice.

use vstd::prelude::*;
use crate::error::PurtelError;
use crate::executor::PurtelExecutor;
use crate::usage::{ParamUsageView, PurtelParamUsage};

verus! {

/// The entry at position `a` names something that a later entry of the same
/// task names again, whatever the kinds of the two.
pub open spec fn repeats_later(usages: Seq<ParamUsageView>, a: int) -> bool {
    exists|b: int| a < b < usages.len() && usages[a].identifier == (#[trigger] usages[b]).identifier
}

/// Some name is declared twice in `usages`.
pub open spec fn has_duplicate(usages: Seq<ParamUsageView>) -> bool {
    exists|a: int| 0 <= a < usages.len() && #[trigger] repeats_later(usages, a)
}

/// No task declares a name twice.
pub open spec fn declarations_valid(decls: Seq<Seq<ParamUsageView>>) -> bool {
    forall|t: int| 0 <= t < decls.len() ==> !has_duplicate(#[trigger] decls[t])
}

/// Position `a` is the first in `usages` whose name comes again later.
pub open spec fn is_first_repeat(usages: Seq<ParamUsageView>, a: int) -> bool {
    &&& 0 <= a < usages.len()
    &&& repeats_later(usages, a)
    &&& forall|e: int| 0 <= e < a ==> !#[trigger] repeats_later(usages, e)
}

/// `error` reports the first offence in `decls`: the first task that declares
/// a name twice, and of that task the first entry whose name comes again.
pub open spec fn reports_first_duplicate(
    decls: Seq<Seq<ParamUsageView>>,
    error: PurtelError,
) -> bool {
    &&& error is DuplicateIdentifier
    &&& error->DuplicateIdentifier_task < decls.len()
    &&& forall|t: int|
        0 <= t < error->DuplicateIdentifier_task ==> !has_duplicate(#[trigger] decls[t])
    &&& exists|a: int|
        #[trigger] is_first_repeat(decls[error->DuplicateIdentifier_task as int], a)
            && error->identifier@ == decls[error->DuplicateIdentifier_task as int][a].identifier
}

impl<F> PurtelExecutor<F> {
    /// Checks that no task declares a name twice, be it as read and write or
    /// twice alike. The error names the first task that does and the first
    /// name it repeats.
    pub fn assert_no_duplicates(param_usages: &Vec<Vec<PurtelParamUsage>>) -> (checked: Result<
        (),
        PurtelError,
    >)
        ensures
            match checked {
                Ok(_) => declarations_valid(param_usages.deep_view()),
                Err(error) => reports_first_duplicate(param_usages.deep_view(), error),
            },
    {
        let ghost decls = param_usages.deep_view();
        let mut task_i: usize = 0;
        while task_i < param_usages.len()
            invariant
                decls == param_usages.deep_view(),
                task_i <= param_usages.len(),
                forall|t: int| 0 <= t < task_i ==> !has_duplicate(#[trigger] decls[t]),
            decreases param_usages.len() - task_i,
        {
            let param_usage = &param_usages[task_i];
            let ghost usages = decls[task_i as int];
            assert(usages =~= param_usage.deep_view());
            let mut p_i: usize = 0;
            while p_i < param_usage.len()
                invariant
                    decls == param_usages.deep_view(),
                    task_i < param_usages.len(),
                    *param_usage == param_usages[task_i as int],
                    usages == decls[task_i as int],
                    usages == param_usage.deep_view(),
                    p_i <= param_usage.len(),
                    forall|t: int| 0 <= t < task_i ==> !has_duplicate(#[trigger] decls[t]),
                    forall|e: int| 0 <= e < p_i ==> !#[trigger] repeats_later(usages, e),
                decreases param_usage.len() - p_i,
            {
                let p_desc = &param_usage[p_i];
                let mut p_j: usize = p_i + 1;
                while p_j < param_usage.len()
                    invariant
                        decls == param_usages.deep_view(),
                        task_i < param_usages.len(),
                        *param_usage == param_usages[task_i as int],
                        usages == decls[task_i as int],
                        usages == param_usage.deep_view(),
                        p_i < param_usage.len(),
                        *p_desc == param_usage[p_i as int],
                        p_i < p_j <= param_usage.len(),
                        forall|t: int| 0 <= t < task_i ==> !has_duplicate(#[trigger] decls[t]),
                        forall|e: int| 0 <= e < p_i ==> !#[trigger] repeats_later(usages, e),
                        forall|b: int|
                            p_i < b < p_j ==> usages[p_i as int].identifier != (
                            #[trigger] usages[b]).identifier,
                    decreases param_usage.len() - p_j,
                {
                    if p_desc.same_identifier(&param_usage[p_j]) {
                        assert(usages[p_i as int].identifier == usages[p_j as int].identifier);
                        assert(is_first_repeat(usages, p_i as int));
                        return Err(
                            PurtelError::DuplicateIdentifier {
                                task: task_i,
                                identifier: p_desc.identifier_owned(),
                            },
                        );
                    }
                    p_j += 1;
                }
                p_i += 1;
            }
            task_i += 1;
        }
        Ok(())
    }
}

} // verus!
