use vstd::prelude::*;
use crate::model::Platform;

verus! {

/// The conditions that abort a whole update run.  Any one of them discards
/// the in-progress update context; no partial lock file is ever produced.
#[derive(Debug)]
pub enum UpdateError {
    /// The lock file is out of date but the caller's usage policy forbids
    /// updating it.
    StalenessPolicy,
    /// An environment declares language-level dependencies, but the run is
    /// not allowed to install a disk environment to resolve them with.
    NoInstallConflict { environment: usize },
    /// A task needed the group's system-level records for a platform, but
    /// no solve was scheduled and nothing is locked for that target.
    MissingGroupRecords { group: usize, platform: Platform },
    /// A task needed an environment's system-level records for a platform,
    /// but no solve was scheduled and nothing is locked for that target.
    MissingEnvironmentRecords { environment: usize, platform: Platform },
    /// Records were taken for assembly while their solve was still pending.
    RecordsStillPending { environment: usize, platform: Platform },
    /// A materialized environment was taken while still pending.
    PrefixStillPending { group: usize },
    /// A task result arrived for a target no cell was registered for.
    UnknownTaskTarget,
    /// A task result arrived for a cell that already holds a value.
    CellAlreadySet,
    /// A collaborator task (resolver, index fetch, materialization) failed
    /// or was cancelled; the message carries the underlying cause.
    TaskFailed { message: String },
}

} // verus!
