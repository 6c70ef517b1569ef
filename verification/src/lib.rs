//! Coordination layer for keeping a multi-environment, multi-platform lock
//! file up to date.
//!
//! The library decides which (environment, platform) resolution targets must
//! be re-solved, builds a task plan that shares one solve per solve group
//! and platform, records task results in single-assignment cells, and
//! assembles the new lock file once every task has completed.  The actual
//! resolvers, index fetching, disk installation and progress reporting are
//! collaborators that a caller drives around this core.

mod assemble;
mod cell;
mod context;
mod coordinate;
mod errors;
mod kvmap;
mod model;
mod outdated;
mod plan;
mod records;
mod solve;
mod update;

pub use assemble::finish_lock_file;
pub use assemble::LockFileModel;
pub use assemble::LockedEnvironment;
pub use assemble::LockedTarget;
pub use assemble::lemma_fallback_correctness;
pub use assemble::lemma_short_circuit_empty;
pub use cell::AlreadySetError;
pub use cell::BarrierCell;
pub use context::Latest;
pub use context::PrefixInfo;
pub use context::UpdateContext;
pub use coordinate::apply_pypi_short_circuit;
pub use coordinate::apply_task_result;
pub use coordinate::TaskResult;
pub use errors::UpdateError;
pub use model::Dep;
pub use model::Environment;
pub use model::Platform;
pub use model::Project;
pub use model::SolveGroup;
pub use outdated::OutdatedEnvironments;
pub use plan::plan_conda;
pub use plan::plan_prefixes;
pub use plan::plan_pypi;
pub use plan::TaskSpec;
pub use records::Record;
pub use records::RecordsByName;
pub use solve::extract_conda_records;
pub use solve::extract_pypi_records;
pub use solve::order_platforms;
pub use solve::repodata_query_targets;
pub use update::compute_fetch_targets;
pub use update::default_max_concurrent_solves;
pub use update::start_update;
pub use update::LockFileDerivedData;
pub use update::LockFileUsage;
pub use update::RunPlan;
pub use update::UpdateLockFileOptions;
pub use update::UpdateOutcome;
