use vstd::prelude::*;
use crate::context::make_group_key;
use crate::context::make_target_key;
use crate::context::target_key;
use crate::context::group_key;
use crate::context::PrefixInfo;
use crate::context::UpdateContext;
use crate::errors::UpdateError;
use crate::kvmap::Key;
use crate::model::Platform;
use crate::records::RecordsByName;

verus! {

/// What one completed task reports back to the coordinator: its target's
/// identity and its payload, plus the elapsed time for solve tasks.
pub enum TaskResult {
    /// A group's system-level solve finished.
    CondaGroupSolved { group: usize, platform: Platform, records: RecordsByName, duration_ms: u64 },
    /// A member environment's system-level extraction finished.
    CondaSolved { environment: usize, platform: Platform, records: RecordsByName },
    /// A group's execution environment was materialized.
    CondaPrefixUpdated { group: usize, prefix: PrefixInfo, duration_ms: u64 },
    /// A group's language-level solve finished.
    PypiGroupSolved { group: usize, platform: Platform, records: RecordsByName, duration_ms: u64 },
    /// A member environment's language-level extraction finished.
    PypiSolved { environment: usize, platform: Platform, records: RecordsByName },
}

/// Assigns one task's result into the cell registered for it before the
/// task was spawned.  This is the single point of assignment: a result for
/// an unregistered target, or for a cell that already holds a value, is an
/// internal-consistency violation and aborts the run; the cell is left as
/// it was.
pub fn apply_task_result(context: &mut UpdateContext, result: TaskResult) -> (r: Result<
    (),
    UpdateError,
>)
    requires
        old(context).wf(),
        match result {
            TaskResult::CondaGroupSolved { records, .. } => records.wf(),
            TaskResult::CondaSolved { records, .. } => records.wf(),
            TaskResult::CondaPrefixUpdated { .. } => true,
            TaskResult::PypiGroupSolved { records, .. } => records.wf(),
            TaskResult::PypiSolved { records, .. } => records.wf(),
        },
    ensures
        final(context).wf(),
        match result {
            TaskResult::CondaGroupSolved { group, platform, records, .. } => {
                &&& (match old(context).conda_group_cell(group as int, platform) {
                    Some(cell) => {
                        &&& (!cell.is_set() ==> r is Ok && (final(context).conda_group_cell(
                            group as int,
                            platform,
                        ) matches Some(c2) && c2.value_of() == Some(records)))
                        &&& (cell.is_set() ==> (r matches Err(UpdateError::CellAlreadySet))
                            && final(context).conda_group_cell(group as int, platform) == Some(
                            cell,
                        ))
                    },
                    None => (r matches Err(UpdateError::UnknownTaskTarget)) && *final(context)
                        == *old(context),
                })
                &&& (forall|k: Key|
                    k != target_key(group as int, platform) ==> #[trigger] final(context).grouped_solved_repodata_records.spec_get(k) == old(context).grouped_solved_repodata_records.spec_get(k))
                &&& final(context).solved_repodata_records == old(context).solved_repodata_records
                &&& final(context).solved_pypi_records == old(context).solved_pypi_records
                &&& final(context).grouped_solved_pypi_records == old(context).grouped_solved_pypi_records
                &&& final(context).instantiated_conda_prefixes == old(context).instantiated_conda_prefixes
            },
            TaskResult::CondaSolved { environment, platform, records } => {
                &&& (match old(context).conda_env_cell(environment as int, platform) {
                    Some(cell) => {
                        &&& (!cell.is_set() ==> r is Ok && (final(context).conda_env_cell(
                            environment as int,
                            platform,
                        ) matches Some(c2) && c2.value_of() == Some(records)))
                        &&& (cell.is_set() ==> (r matches Err(UpdateError::CellAlreadySet))
                            && final(context).conda_env_cell(environment as int, platform) == Some(
                            cell,
                        ))
                    },
                    None => (r matches Err(UpdateError::UnknownTaskTarget)) && *final(context)
                        == *old(context),
                })
                &&& (forall|k: Key|
                    k != target_key(environment as int, platform) ==> #[trigger] final(context).solved_repodata_records.spec_get(k) == old(context).solved_repodata_records.spec_get(k))
                &&& final(context).grouped_solved_repodata_records == old(context).grouped_solved_repodata_records
                &&& final(context).solved_pypi_records == old(context).solved_pypi_records
                &&& final(context).grouped_solved_pypi_records == old(context).grouped_solved_pypi_records
                &&& final(context).instantiated_conda_prefixes == old(context).instantiated_conda_prefixes
            },
            TaskResult::CondaPrefixUpdated { group, prefix, .. } => {
                &&& (match old(context).prefix_cell(group as int) {
                    Some(cell) => {
                        &&& (!cell.is_set() ==> r is Ok && (final(context).prefix_cell(
                            group as int,
                        ) matches Some(c2) && c2.value_of() == Some(prefix)))
                        &&& (cell.is_set() ==> (r matches Err(UpdateError::CellAlreadySet))
                            && final(context).prefix_cell(group as int) == Some(cell))
                    },
                    None => (r matches Err(UpdateError::UnknownTaskTarget)) && *final(context)
                        == *old(context),
                })
                &&& (forall|k: Key|
                    k != group_key(group as int) ==> #[trigger] final(context).instantiated_conda_prefixes.spec_get(k) == old(context).instantiated_conda_prefixes.spec_get(k))
                &&& final(context).solved_repodata_records == old(context).solved_repodata_records
                &&& final(context).grouped_solved_repodata_records == old(context).grouped_solved_repodata_records
                &&& final(context).solved_pypi_records == old(context).solved_pypi_records
                &&& final(context).grouped_solved_pypi_records == old(context).grouped_solved_pypi_records
            },
            TaskResult::PypiGroupSolved { group, platform, records, .. } => {
                &&& (match old(context).pypi_group_cell(group as int, platform) {
                    Some(cell) => {
                        &&& (!cell.is_set() ==> r is Ok && (final(context).pypi_group_cell(
                            group as int,
                            platform,
                        ) matches Some(c2) && c2.value_of() == Some(records)))
                        &&& (cell.is_set() ==> (r matches Err(UpdateError::CellAlreadySet))
                            && final(context).pypi_group_cell(group as int, platform) == Some(
                            cell,
                        ))
                    },
                    None => (r matches Err(UpdateError::UnknownTaskTarget)) && *final(context)
                        == *old(context),
                })
                &&& (forall|k: Key|
                    k != target_key(group as int, platform) ==> #[trigger] final(context).grouped_solved_pypi_records.spec_get(k) == old(context).grouped_solved_pypi_records.spec_get(k))
                &&& final(context).solved_repodata_records == old(context).solved_repodata_records
                &&& final(context).grouped_solved_repodata_records == old(context).grouped_solved_repodata_records
                &&& final(context).solved_pypi_records == old(context).solved_pypi_records
                &&& final(context).instantiated_conda_prefixes == old(context).instantiated_conda_prefixes
            },
            TaskResult::PypiSolved { environment, platform, records } => {
                &&& (match old(context).pypi_env_cell(environment as int, platform) {
                    Some(cell) => {
                        &&& (!cell.is_set() ==> r is Ok && (final(context).pypi_env_cell(
                            environment as int,
                            platform,
                        ) matches Some(c2) && c2.value_of() == Some(records)))
                        &&& (cell.is_set() ==> (r matches Err(UpdateError::CellAlreadySet))
                            && final(context).pypi_env_cell(environment as int, platform) == Some(
                            cell,
                        ))
                    },
                    None => (r matches Err(UpdateError::UnknownTaskTarget)) && *final(context)
                        == *old(context),
                })
                &&& (forall|k: Key|
                    k != target_key(environment as int, platform) ==> #[trigger] final(context).solved_pypi_records.spec_get(k) == old(context).solved_pypi_records.spec_get(
                        k,
                    ))
                &&& final(context).solved_repodata_records == old(context).solved_repodata_records
                &&& final(context).grouped_solved_repodata_records == old(context).grouped_solved_repodata_records
                &&& final(context).grouped_solved_pypi_records == old(context).grouped_solved_pypi_records
                &&& final(context).instantiated_conda_prefixes == old(context).instantiated_conda_prefixes
            },
        },
        final(context).locked_repodata_records == old(context).locked_repodata_records,
        final(context).locked_grouped_repodata_records == old(context).locked_grouped_repodata_records,
        final(context).locked_pypi_records == old(context).locked_pypi_records,
{
    match result {
        TaskResult::CondaGroupSolved { group, platform, records, .. } => {
            let k = make_target_key(group, platform);
            match context.grouped_solved_repodata_records.remove(k) {
                Some(mut cell) => match cell.set(records) {
                    Ok(()) => {
                        context.grouped_solved_repodata_records.insert(k, cell);
                        Ok(())
                    },
                    Err(_) => {
                        context.grouped_solved_repodata_records.insert(k, cell);
                        Err(UpdateError::CellAlreadySet)
                    },
                },
                None => Err(UpdateError::UnknownTaskTarget),
            }
        },
        TaskResult::CondaSolved { environment, platform, records } => {
            let k = make_target_key(environment, platform);
            match context.solved_repodata_records.remove(k) {
                Some(mut cell) => match cell.set(records) {
                    Ok(()) => {
                        context.solved_repodata_records.insert(k, cell);
                        Ok(())
                    },
                    Err(_) => {
                        context.solved_repodata_records.insert(k, cell);
                        Err(UpdateError::CellAlreadySet)
                    },
                },
                None => Err(UpdateError::UnknownTaskTarget),
            }
        },
        TaskResult::CondaPrefixUpdated { group, prefix, .. } => {
            let k = make_group_key(group);
            match context.instantiated_conda_prefixes.remove(k) {
                Some(mut cell) => match cell.set(prefix) {
                    Ok(()) => {
                        context.instantiated_conda_prefixes.insert(k, cell);
                        Ok(())
                    },
                    Err(_) => {
                        context.instantiated_conda_prefixes.insert(k, cell);
                        Err(UpdateError::CellAlreadySet)
                    },
                },
                None => Err(UpdateError::UnknownTaskTarget),
            }
        },
        TaskResult::PypiGroupSolved { group, platform, records, .. } => {
            let k = make_target_key(group, platform);
            match context.grouped_solved_pypi_records.remove(k) {
                Some(mut cell) => match cell.set(records) {
                    Ok(()) => {
                        context.grouped_solved_pypi_records.insert(k, cell);
                        Ok(())
                    },
                    Err(_) => {
                        context.grouped_solved_pypi_records.insert(k, cell);
                        Err(UpdateError::CellAlreadySet)
                    },
                },
                None => Err(UpdateError::UnknownTaskTarget),
            }
        },
        TaskResult::PypiSolved { environment, platform, records } => {
            let k = make_target_key(environment, platform);
            match context.solved_pypi_records.remove(k) {
                Some(mut cell) => match cell.set(records) {
                    Ok(()) => {
                        context.solved_pypi_records.insert(k, cell);
                        Ok(())
                    },
                    Err(_) => {
                        context.solved_pypi_records.insert(k, cell);
                        Err(UpdateError::CellAlreadySet)
                    },
                },
                None => Err(UpdateError::UnknownTaskTarget),
            }
        },
    }
}

/// Publishes the ready empty result of a short-circuited language-level
/// target: an environment with no language-level dependencies for the
/// platform is fed an empty record set through the same single assignment
/// point as every other task result.
pub fn apply_pypi_short_circuit(
    context: &mut UpdateContext,
    environment: usize,
    platform: Platform,
) -> (r: Result<(), UpdateError>)
    requires
        old(context).wf(),
    ensures
        final(context).wf(),
        match old(context).pypi_env_cell(environment as int, platform) {
            Some(cell) => {
                &&& (!cell.is_set() ==> r is Ok && (final(context).pypi_env_cell(
                    environment as int,
                    platform,
                ) matches Some(c2) && (c2.value_of() matches Some(v) && v@
                    == Seq::<crate::records::RecView>::empty())))
                &&& (cell.is_set() ==> (r matches Err(UpdateError::CellAlreadySet)) && final(context).pypi_env_cell(environment as int, platform) == Some(cell))
            },
            None => (r matches Err(UpdateError::UnknownTaskTarget)) && *final(context) == *old(context),
        },
        forall|k: Key|
            k != target_key(environment as int, platform) ==> #[trigger] final(context).solved_pypi_records.spec_get(k) == old(context).solved_pypi_records.spec_get(k),
        final(context).locked_repodata_records == old(context).locked_repodata_records,
        final(context).locked_grouped_repodata_records == old(context).locked_grouped_repodata_records,
        final(context).locked_pypi_records == old(context).locked_pypi_records,
        final(context).solved_repodata_records == old(context).solved_repodata_records,
        final(context).grouped_solved_repodata_records == old(context).grouped_solved_repodata_records,
        final(context).grouped_solved_pypi_records == old(context).grouped_solved_pypi_records,
        final(context).instantiated_conda_prefixes == old(context).instantiated_conda_prefixes,
{
    let records = RecordsByName::new();
    apply_task_result(
        context,
        TaskResult::PypiSolved { environment, platform, records },
    )
}

} // verus!
