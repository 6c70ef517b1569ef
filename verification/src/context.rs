use vstd::prelude::*;
use crate::cell::BarrierCell;
use crate::errors::UpdateError;
use crate::kvmap::Key;
use crate::kvmap::KeyMap;
use crate::model::Platform;
use crate::model::Project;
use crate::model::SolveGroup;
use crate::records::RecordsByName;

verus! {

/// A materialized execution environment: its on-disk location and, when an
/// interpreter is present after the update, the interpreter's path inside.
#[derive(Debug)]
pub struct PrefixInfo {
    pub path: String,
    pub python: Option<String>,
}

/// Map key of an (environment or group, platform) resolution target.
pub open spec fn target_key(owner: int, platform: Platform) -> Key {
    Key { owner: owner as usize, platform: platform.spec_tag() }
}

/// Map key of a per-group entry that is not platform-specific.
pub open spec fn group_key(g: int) -> Key {
    Key { owner: g as usize, platform: 0 }
}

/// Executable counterpart of [`target_key`].
pub fn make_target_key(owner: usize, platform: Platform) -> (r: Key)
    ensures
        r == target_key(owner as int, platform),
{
    Key { owner, platform: platform.tag() }
}

/// Executable counterpart of [`group_key`].
pub fn make_group_key(g: usize) -> (r: Key)
    ensures
        r == group_key(g as int),
{
    Key { owner: g, platform: 0 }
}

/// Where the latest available value for a resolution target comes from.
pub enum Latest<'a, T> {
    /// A solve was scheduled this run and its result is in.
    Solved(&'a T),
    /// A solve was scheduled this run and is still running; the caller must
    /// wait for the producing task before reading.
    Pending,
    /// No solve was scheduled; the locked baseline is the latest value.
    Locked(&'a T),
    /// No solve was scheduled and nothing is locked for this target.
    Absent,
}

/// The entry was handed out rightly: it names the environment of a
/// single-environment group whose materialization cell holds its value.
pub open spec fn drained_entry_ok(
    project: Project,
    pre: UpdateContext,
    entry: (usize, PrefixInfo),
) -> bool {
    exists|g: int|
        0 <= g < project.group_count() && #[trigger] project.groups@[g] == (SolveGroup::Single {
            environment: entry.0,
        }) && (pre.prefix_cell(g) matches Some(cell) && cell.value_of() == Some(entry.1))
}

/// What draining the materialized environments yields: every handed-out
/// entry comes from a filled cell of a single-environment group, and every
/// single-environment group that had a cell is handed out.
pub open spec fn prefixes_drained(
    project: Project,
    pre: UpdateContext,
    v: Seq<(usize, PrefixInfo)>,
) -> bool {
    &&& forall|q: int| 0 <= q < v.len() ==> drained_entry_ok(project, pre, #[trigger] v[q])
    &&& forall|g: int|
        0 <= g < project.group_count() && pre.prefix_cell(g) is Some ==> ((
        #[trigger] project.groups@[g]) matches SolveGroup::Single { environment } ==> exists|q: int|
            0 <= q < v.len() && (#[trigger] v[q]).0 == environment)
}

/// The per-run bookkeeping state: locked baseline records read from the
/// prior lock file, and the single-assignment cells the running tasks'
/// results are drained into, keyed by (environment, platform), by
/// (group, platform) and by group.
pub struct UpdateContext {
    /// Locked system-level records per (environment, platform).
    pub locked_repodata_records: KeyMap<RecordsByName>,
    /// Locked system-level records merged per (group, platform).
    pub locked_grouped_repodata_records: KeyMap<RecordsByName>,
    /// Locked language-level records per (environment, platform).
    pub locked_pypi_records: KeyMap<RecordsByName>,
    /// Cells for this run's per-environment system-level results.
    pub solved_repodata_records: KeyMap<BarrierCell<RecordsByName>>,
    /// Cells for this run's per-(group, platform) system-level solves.
    pub grouped_solved_repodata_records: KeyMap<BarrierCell<RecordsByName>>,
    /// Cells for this run's materialized execution environments, per group.
    pub instantiated_conda_prefixes: KeyMap<BarrierCell<PrefixInfo>>,
    /// Cells for this run's per-environment language-level results.
    pub solved_pypi_records: KeyMap<BarrierCell<RecordsByName>>,
    /// Cells for this run's per-(group, platform) language-level solves.
    pub grouped_solved_pypi_records: KeyMap<BarrierCell<RecordsByName>>,
}

impl UpdateContext {
    /// All bookkeeping maps are well-formed.
    pub open spec fn wf(self) -> bool {
        &&& self.locked_repodata_records.wf()
        &&& self.locked_grouped_repodata_records.wf()
        &&& self.locked_pypi_records.wf()
        &&& self.solved_repodata_records.wf()
        &&& self.grouped_solved_repodata_records.wf()
        &&& self.instantiated_conda_prefixes.wf()
        &&& self.solved_pypi_records.wf()
        &&& self.grouped_solved_pypi_records.wf()
    }

    /// The cell of environment `e`'s system-level result for `platform`.
    pub open spec fn conda_env_cell(self, e: int, platform: Platform) -> Option<
        BarrierCell<RecordsByName>,
    > {
        self.solved_repodata_records.spec_get(target_key(e, platform))
    }

    /// The cell of group `g`'s system-level solve for `platform`.
    pub open spec fn conda_group_cell(self, g: int, platform: Platform) -> Option<
        BarrierCell<RecordsByName>,
    > {
        self.grouped_solved_repodata_records.spec_get(target_key(g, platform))
    }

    /// The cell of environment `e`'s language-level result for `platform`.
    pub open spec fn pypi_env_cell(self, e: int, platform: Platform) -> Option<
        BarrierCell<RecordsByName>,
    > {
        self.solved_pypi_records.spec_get(target_key(e, platform))
    }

    /// The cell of group `g`'s language-level solve for `platform`.
    pub open spec fn pypi_group_cell(self, g: int, platform: Platform) -> Option<
        BarrierCell<RecordsByName>,
    > {
        self.grouped_solved_pypi_records.spec_get(target_key(g, platform))
    }

    /// The cell of group `g`'s materialized execution environment.
    pub open spec fn prefix_cell(self, g: int) -> Option<BarrierCell<PrefixInfo>> {
        self.instantiated_conda_prefixes.spec_get(group_key(g))
    }

    /// The locked baseline records of (environment, platform).
    pub open spec fn locked_conda(self, e: int, platform: Platform) -> Option<RecordsByName> {
        self.locked_repodata_records.spec_get(target_key(e, platform))
    }

    /// The locked baseline records merged over (group, platform).
    pub open spec fn locked_grouped_conda(self, g: int, platform: Platform) -> Option<
        RecordsByName,
    > {
        self.locked_grouped_repodata_records.spec_get(target_key(g, platform))
    }

    /// The locked language-level baseline of (environment, platform).
    pub open spec fn locked_pypi(self, e: int, platform: Platform) -> Option<RecordsByName> {
        self.locked_pypi_records.spec_get(target_key(e, platform))
    }

    /// A fresh, empty context.
    pub fn new() -> (r: UpdateContext)
        ensures
            r.wf(),
            forall|k: Key| #[trigger] r.locked_repodata_records.spec_get(k) is None,
            forall|k: Key| #[trigger] r.locked_grouped_repodata_records.spec_get(k) is None,
            forall|k: Key| #[trigger] r.locked_pypi_records.spec_get(k) is None,
            forall|k: Key| #[trigger] r.solved_repodata_records.spec_get(k) is None,
            forall|k: Key| #[trigger] r.grouped_solved_repodata_records.spec_get(k) is None,
            forall|k: Key| #[trigger] r.instantiated_conda_prefixes.spec_get(k) is None,
            forall|k: Key| #[trigger] r.solved_pypi_records.spec_get(k) is None,
            forall|k: Key| #[trigger] r.grouped_solved_pypi_records.spec_get(k) is None,
    {
        UpdateContext {
            locked_repodata_records: KeyMap::new(),
            locked_grouped_repodata_records: KeyMap::new(),
            locked_pypi_records: KeyMap::new(),
            solved_repodata_records: KeyMap::new(),
            grouped_solved_repodata_records: KeyMap::new(),
            instantiated_conda_prefixes: KeyMap::new(),
            solved_pypi_records: KeyMap::new(),
            grouped_solved_pypi_records: KeyMap::new(),
        }
    }

    /// The latest available system-level records for an (environment,
    /// platform) target: the result of this run's solve when one was
    /// scheduled, else the locked baseline, else nothing.
    pub fn get_latest_repodata_records(&self, environment: usize, platform: Platform) -> (r:
        Latest<RecordsByName>)
        requires
            self.wf(),
        ensures
            match r {
                Latest::Solved(v) => self.conda_env_cell(environment as int, platform) matches
                    Some(cell) && cell.value_of() == Some(*v),
                Latest::Pending => self.conda_env_cell(environment as int, platform) matches Some(
                    cell,
                ) && !cell.is_set(),
                Latest::Locked(v) => self.conda_env_cell(environment as int, platform) is None
                    && self.locked_conda(environment as int, platform) == Some(*v),
                Latest::Absent => self.conda_env_cell(environment as int, platform) is None
                    && self.locked_conda(environment as int, platform) is None,
            },
    {
        let k = make_target_key(environment, platform);
        match self.solved_repodata_records.get(k) {
            Some(cell) => match cell.get() {
                Some(v) => Latest::Solved(v),
                None => Latest::Pending,
            },
            None => match self.locked_repodata_records.get(k) {
                Some(v) => Latest::Locked(v),
                None => Latest::Absent,
            },
        }
    }

    /// The latest available system-level records for a (group, platform)
    /// target, preferring this run's group solve over the merged baseline.
    pub fn get_latest_group_repodata_records(&self, group: usize, platform: Platform) -> (r: Latest<
        RecordsByName,
    >)
        requires
            self.wf(),
        ensures
            match r {
                Latest::Solved(v) => self.conda_group_cell(group as int, platform) matches Some(
                    cell,
                ) && cell.value_of() == Some(*v),
                Latest::Pending => self.conda_group_cell(group as int, platform) matches Some(cell)
                    && !cell.is_set(),
                Latest::Locked(v) => self.conda_group_cell(group as int, platform) is None
                    && self.locked_grouped_conda(group as int, platform) == Some(*v),
                Latest::Absent => self.conda_group_cell(group as int, platform) is None
                    && self.locked_grouped_conda(group as int, platform) is None,
            },
    {
        let k = make_target_key(group, platform);
        match self.grouped_solved_repodata_records.get(k) {
            Some(cell) => match cell.get() {
                Some(v) => Latest::Solved(v),
                None => Latest::Pending,
            },
            None => match self.locked_grouped_repodata_records.get(k) {
                Some(v) => Latest::Locked(v),
                None => Latest::Absent,
            },
        }
    }

    /// The latest language-level records of a (group, platform) target:
    /// only this run's solve can supply them, since the baseline is not
    /// grouped for language-level records.
    pub fn get_latest_group_pypi_records(&self, group: usize, platform: Platform) -> (r: Latest<
        RecordsByName,
    >)
        requires
            self.wf(),
        ensures
            match r {
                Latest::Solved(v) => self.pypi_group_cell(group as int, platform) matches Some(
                    cell,
                ) && cell.value_of() == Some(*v),
                Latest::Pending => self.pypi_group_cell(group as int, platform) matches Some(cell)
                    && !cell.is_set(),
                Latest::Locked(v) => false,
                Latest::Absent => self.pypi_group_cell(group as int, platform) is None,
            },
    {
        let k = make_target_key(group, platform);
        match self.grouped_solved_pypi_records.get(k) {
            Some(cell) => match cell.get() {
                Some(v) => Latest::Solved(v),
                None => Latest::Pending,
            },
            None => Latest::Absent,
        }
    }

    /// The materialized execution environment of a group, if a
    /// materialization task was scheduled for it.
    pub fn get_conda_prefix(&self, group: usize) -> (r: Latest<PrefixInfo>)
        requires
            self.wf(),
        ensures
            match r {
                Latest::Solved(v) => self.prefix_cell(group as int) matches Some(cell)
                    && cell.value_of() == Some(*v),
                Latest::Pending => self.prefix_cell(group as int) matches Some(cell)
                    && !cell.is_set(),
                Latest::Locked(v) => false,
                Latest::Absent => self.prefix_cell(group as int) is None,
            },
    {
        let k = make_group_key(group);
        match self.instantiated_conda_prefixes.get(k) {
            Some(cell) => match cell.get() {
                Some(v) => Latest::Solved(v),
                None => Latest::Pending,
            },
            None => Latest::Absent,
        }
    }

    /// Takes ownership of the latest system-level records of an
    /// (environment, platform) target at assembly time: this run's solved
    /// records when a solve was scheduled (an error if still pending), else
    /// the locked baseline, else nothing.
    pub fn take_latest_repodata_records(&mut self, environment: usize, platform: Platform) -> (r:
        Result<Option<RecordsByName>, UpdateError>)
        requires
            old(self).wf(),
        ensures
            final(self).wf(),
            ({
                let k = target_key(environment as int, platform);
                match old(self).conda_env_cell(environment as int, platform) {
                    Some(cell) => {
                        &&& (cell.is_set() ==> r == Ok::<_, UpdateError>(cell.value_of())
                            && final(self).solved_repodata_records.spec_get(k) is None
                            && final(self).locked_repodata_records == old(self).locked_repodata_records)
                        &&& (!cell.is_set() ==> (r matches Err(
                            UpdateError::RecordsStillPending { .. },
                        )) && *final(self) == *old(self))
                    },
                    None => {
                        &&& r == Ok::<_, UpdateError>(old(self).locked_conda(
                            environment as int,
                            platform,
                        ))
                        &&& final(self).locked_repodata_records.spec_get(k) is None
                        &&& final(self).solved_repodata_records == old(self).solved_repodata_records
                    },
                }
            }),
            forall|k2: Key|
                k2 != target_key(environment as int, platform) ==> #[trigger] final(self).solved_repodata_records.spec_get(k2)
                    == old(self).solved_repodata_records.spec_get(k2)
                    && final(self).locked_repodata_records.spec_get(k2)
                    == old(self).locked_repodata_records.spec_get(k2),
            final(self).locked_grouped_repodata_records == old(self).locked_grouped_repodata_records,
            final(self).locked_pypi_records == old(self).locked_pypi_records,
            final(self).grouped_solved_repodata_records == old(self).grouped_solved_repodata_records,
            final(self).instantiated_conda_prefixes == old(self).instantiated_conda_prefixes,
            final(self).solved_pypi_records == old(self).solved_pypi_records,
            final(self).grouped_solved_pypi_records == old(self).grouped_solved_pypi_records,
    {
        let k = make_target_key(environment, platform);
        let pending = match self.solved_repodata_records.get(k) {
            Some(cell) => match cell.get() {
                Some(_) => false,
                None => true,
            },
            None => false,
        };
        if pending {
            return Err(UpdateError::RecordsStillPending { environment, platform });
        }
        match self.solved_repodata_records.remove(k) {
            Some(cell) => Ok(cell.into_inner()),
            None => Ok(self.locked_repodata_records.remove(k)),
        }
    }

    /// Takes ownership of the latest language-level records of an
    /// (environment, platform) target at assembly time.
    pub fn take_latest_pypi_records(&mut self, environment: usize, platform: Platform) -> (r:
        Result<Option<RecordsByName>, UpdateError>)
        requires
            old(self).wf(),
        ensures
            final(self).wf(),
            ({
                let k = target_key(environment as int, platform);
                match old(self).pypi_env_cell(environment as int, platform) {
                    Some(cell) => {
                        &&& (cell.is_set() ==> r == Ok::<_, UpdateError>(cell.value_of())
                            && final(self).solved_pypi_records.spec_get(k) is None
                            && final(self).locked_pypi_records == old(self).locked_pypi_records)
                        &&& (!cell.is_set() ==> (r matches Err(
                            UpdateError::RecordsStillPending { .. },
                        )) && *final(self) == *old(self))
                    },
                    None => {
                        &&& r == Ok::<_, UpdateError>(old(self).locked_pypi(
                            environment as int,
                            platform,
                        ))
                        &&& final(self).locked_pypi_records.spec_get(k) is None
                        &&& final(self).solved_pypi_records == old(self).solved_pypi_records
                    },
                }
            }),
            forall|k2: Key|
                k2 != target_key(environment as int, platform) ==> #[trigger] final(self).solved_pypi_records.spec_get(k2)
                    == old(self).solved_pypi_records.spec_get(k2)
                    && final(self).locked_pypi_records.spec_get(k2)
                    == old(self).locked_pypi_records.spec_get(k2),
            final(self).locked_repodata_records == old(self).locked_repodata_records,
            final(self).locked_grouped_repodata_records == old(self).locked_grouped_repodata_records,
            final(self).solved_repodata_records == old(self).solved_repodata_records,
            final(self).grouped_solved_repodata_records == old(self).grouped_solved_repodata_records,
            final(self).instantiated_conda_prefixes == old(self).instantiated_conda_prefixes,
            final(self).grouped_solved_pypi_records == old(self).grouped_solved_pypi_records,
    {
        let k = make_target_key(environment, platform);
        let pending = match self.solved_pypi_records.get(k) {
            Some(cell) => match cell.get() {
                Some(_) => false,
                None => true,
            },
            None => false,
        };
        if pending {
            return Err(UpdateError::RecordsStillPending { environment, platform });
        }
        match self.solved_pypi_records.remove(k) {
            Some(cell) => Ok(cell.into_inner()),
            None => Ok(self.locked_pypi_records.remove(k)),
        }
    }

    /// Drains the materialized execution environments: one per
    /// single-environment group, keyed by that environment.  Environments
    /// materialized for a named group are not handed out, as they cannot be
    /// attributed to one environment.
    pub fn take_instantiated_conda_prefixes(&mut self, project: &Project) -> (r: Result<
        Vec<(usize, PrefixInfo)>,
        UpdateError,
    >)
        requires
            old(self).wf(),
        ensures
            final(self).wf(),
            forall|k: Key| #[trigger] final(self).instantiated_conda_prefixes.spec_get(k) is None,
            match r {
                Ok(v) => prefixes_drained(*project, *old(self), v@),
                Err(e) => {
                    &&& (e matches UpdateError::PrefixStillPending { group } ==> (old(
                        self,
                    ).prefix_cell(group as int) matches Some(c) && !c.is_set()))
                    &&& (e matches UpdateError::UnknownTaskTarget ==> exists|k: Key| #[trigger] old(
                        self,
                    ).instantiated_conda_prefixes.spec_get(k) is Some && (k.platform != 0 || (
                    k.owner as int) >= project.group_count()))
                    &&& (e matches UpdateError::PrefixStillPending { .. } || e matches
                    UpdateError::UnknownTaskTarget)
                },
            },
            (forall|k: Key| #[trigger]
                old(self).instantiated_conda_prefixes.spec_get(k) is Some ==> k.platform == 0 && (
                k.owner as int) < project.group_count() && (project.groups@[k.owner as int] matches
                SolveGroup::Single { .. } ==> old(self).instantiated_conda_prefixes.spec_get(
                    k,
                ).unwrap().is_set())) ==> r is Ok,
            final(self).locked_repodata_records == old(self).locked_repodata_records,
            final(self).locked_grouped_repodata_records == old(self).locked_grouped_repodata_records,
            final(self).locked_pypi_records == old(self).locked_pypi_records,
            final(self).solved_repodata_records == old(self).solved_repodata_records,
            final(self).grouped_solved_repodata_records == old(self).grouped_solved_repodata_records,
            final(self).solved_pypi_records == old(self).solved_pypi_records,
            final(self).grouped_solved_pypi_records == old(self).grouped_solved_pypi_records,
    {
        let group_count = project.groups.len();
        assert(project.group_count() == group_count);
        let mut entries = self.instantiated_conda_prefixes.take_all();
        let ghost orig = entries@;
        let mut out: Vec<(usize, PrefixInfo)> = Vec::new();
        let ghost mut j: int = 0;
        while entries.len() > 0
            invariant
                0 <= j <= orig.len(),
                entries@ == orig.skip(j),
                group_count == project.group_count(),
                self.wf(),
                forall|k: Key| #[trigger] self.instantiated_conda_prefixes.spec_get(k) is None,
                self.locked_repodata_records == old(self).locked_repodata_records,
                self.locked_grouped_repodata_records == old(self).locked_grouped_repodata_records,
                self.locked_pypi_records == old(self).locked_pypi_records,
                self.solved_repodata_records == old(self).solved_repodata_records,
                self.grouped_solved_repodata_records == old(self).grouped_solved_repodata_records,
                self.solved_pypi_records == old(self).solved_pypi_records,
                self.grouped_solved_pypi_records == old(self).grouped_solved_pypi_records,
                forall|w: int|
                    0 <= w < orig.len() ==> old(self).instantiated_conda_prefixes.spec_get(
                        (#[trigger] orig[w]).0,
                    ) == Some(orig[w].1),
                forall|q: int|
                    0 <= q < out@.len() ==> drained_entry_ok(
                        *project,
                        *old(self),
                        #[trigger] out@[q],
                    ),
                forall|w: int|
                    0 <= w < j && (#[trigger] orig[w]).0.platform == 0 && orig[w].0.owner
                        < project.group_count() ==> (project.groups@[orig[w].0.owner as int] matches
                    SolveGroup::Single { environment } ==> exists|q: int|
                        0 <= q < out@.len() && (#[trigger] out@[q]).0 == environment),
            decreases entries@.len(),
        {
            let ghost entries_pre = entries@;
            let (key, cell) = entries.remove(0);
            proof {
                assert(entries@ =~= entries_pre.drop_first());
                assert(entries@ =~= orig.skip(j + 1));
                assert(orig[j] == entries_pre[0]);
            }
            if key.platform != 0 {
                return Err(UpdateError::UnknownTaskTarget);
            }
            let g = key.owner;
            if g >= project.groups.len() {
                return Err(UpdateError::UnknownTaskTarget);
            }
            match project.group_is_single(g) {
                Some(environment) => {
                    match cell.into_inner() {
                        Some(info) => {
                            let ghost out_pre = out@;
                            out.push((environment, info));
                            proof {
                                assert(out@[out_pre.len() as int] == (environment, info));
                                assert(forall|q: int|
                                    0 <= q < out_pre.len() ==> out@[q] == #[trigger] out_pre[q]);
                                assert(key == group_key(g as int));
                                assert(drained_entry_ok(
                                    *project,
                                    *old(self),
                                    (environment, info),
                                )) by {
                                    assert(0 <= (g as int) && (g as int)
                                        < project.group_count() && project.groups@[g as int] == (
                                    SolveGroup::Single { environment }) && (old(self).prefix_cell(
                                        g as int,
                                    ) matches Some(cell) && cell.value_of() == Some(info)));
                                }
                            }
                        },
                        None => {
                            return Err(UpdateError::PrefixStillPending { group: g });
                        },
                    }
                },
                None => {},
            }
            proof {
                j = j + 1;
            }
        }
        proof {
            assert(j == orig.len());
            assert forall|g: int|
                0 <= g < project.group_count() && old(self).prefix_cell(g) is Some implies ((
            #[trigger] project.groups@[g]) matches SolveGroup::Single { environment } ==> exists|q: int|
                0 <= q < out@.len() && (#[trigger] out@[q]).0 == environment) by {
                let w = choose|w: int| 0 <= w < orig.len() && (#[trigger] orig[w].0) == group_key(g);
                assert(orig[w].0.platform == 0);
                assert(orig[w].0.owner as int == g);
            }
            assert(prefixes_drained(*project, *old(self), out@));
        }
        Ok(out)
    }
}

} // verus!
