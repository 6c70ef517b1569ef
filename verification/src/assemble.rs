use vstd::prelude::*;
use crate::context::target_key;
use crate::context::UpdateContext;
use crate::errors::UpdateError;
use crate::model::Platform;
use crate::model::Project;
use crate::records::RecView;
use crate::records::Record;

verus! {

/// The records locked for one (environment, platform) pair: the ordered
/// system-level list and the ordered language-level list.
pub struct LockedTarget {
    pub platform: Platform,
    pub conda: Vec<Record>,
    pub pypi: Vec<Record>,
}

/// One environment's slice of the lock file: its channels and its
/// per-platform record lists.
pub struct LockedEnvironment {
    pub name: String,
    pub channels: Vec<String>,
    pub targets: Vec<LockedTarget>,
}

/// The persisted artifact: per environment, per platform, the resolved
/// record lists.  Read whole at run start as the baseline, rebuilt whole
/// at run end; never partially overwritten.
pub struct LockFileModel {
    pub environments: Vec<LockedEnvironment>,
}

/// The record views an (environment, platform) pair ends up with: the
/// records solved this run when a solve was scheduled, else the locked
/// baseline, else nothing.
pub open spec fn latest_conda_view(ctx: UpdateContext, e: int, p: Platform) -> Seq<RecView> {
    match ctx.conda_env_cell(e, p) {
        Some(cell) => match cell.value_of() {
            Some(v) => v@,
            None => Seq::empty(),
        },
        None => match ctx.locked_conda(e, p) {
            Some(v) => v@,
            None => Seq::empty(),
        },
    }
}

/// The language-level analogue of [`latest_conda_view`].
pub open spec fn latest_pypi_view(ctx: UpdateContext, e: int, p: Platform) -> Seq<RecView> {
    match ctx.pypi_env_cell(e, p) {
        Some(cell) => match cell.value_of() {
            Some(v) => v@,
            None => Seq::empty(),
        },
        None => match ctx.locked_pypi(e, p) {
            Some(v) => v@,
            None => Seq::empty(),
        },
    }
}

/// The pair (e2, p2) is one of the targets already drained: it belongs to
/// an earlier environment, or to the current one at an earlier platform.
spec fn drained(project: Project, e: int, pi: int, e2: int, p2: Platform) -> bool {
    e2 < e || (e2 == e && exists|pj: int|
        0 <= pj < pi && (#[trigger] project.environments@[e2].platforms@[pj]) == p2)
}

fn clone_strings(v: &Vec<String>) -> (r: Vec<String>)
    ensures
        r.deep_view() == v.deep_view(),
{
    let mut r: Vec<String> = Vec::new();
    let mut i: usize = 0;
    while i < v.len()
        invariant
            i <= v.len(),
            r@.len() == i,
            forall|j: int| 0 <= j < i ==> (#[trigger] r@[j])@ == v@[j]@,
        decreases v.len() - i,
    {
        r.push(v[i].clone());
        i += 1;
    }
    assert(r.deep_view() =~= v.deep_view());
    r
}

/// Whether no two records in the list share a name.
fn records_names_unique(v: &Vec<Record>) -> (r: bool)
    ensures
        r ==> crate::records::unique_names(v.deep_view()),
{
    let n = v.len();
    let mut i: usize = 0;
    while i < n
        invariant
            i <= n,
            n == v@.len(),
            v.deep_view().len() == n,
            forall|a: int, b: int|
                0 <= a < b < n && a < i ==> (#[trigger] v.deep_view()[a].name) != (
                #[trigger] v.deep_view()[b].name),
        decreases n - i,
    {
        let mut j: usize = i + 1;
        while j < n
            invariant
                i < j <= n,
                i < n,
                n == v@.len(),
                v.deep_view().len() == n,
                forall|b: int|
                    i < b < j ==> (#[trigger] v.deep_view()[b].name) != v.deep_view()[i as int].name,
            decreases n - j,
        {
            proof {
                assert(v.deep_view()[i as int] == v@[i as int].deep_view());
                assert(v.deep_view()[j as int] == v@[j as int].deep_view());
            }
            if v[i].name == v[j].name {
                return false;
            }
            j += 1;
        }
        i += 1;
    }
    true
}

/// A solve for the (environment, platform) pair was scheduled this run
/// but its result has not been assigned yet.
pub open spec fn target_pending(ctx: UpdateContext, e: int, p: Platform) -> bool {
    (ctx.conda_env_cell(e, p) matches Some(c) && !c.is_set()) || (ctx.pypi_env_cell(e, p) matches
    Some(c) && !c.is_set())
}

/// Law: an (environment, platform) pair that is not stale in either list
/// has no result cell, so assembly carries its locked baseline records
/// over unchanged — the prior lock file's lists where it held the target,
/// and empty lists where it did not.
pub proof fn lemma_fallback_correctness(
    ctx: UpdateContext,
    lock_file: LockFileModel,
    project: Project,
    outdated: crate::outdated::OutdatedEnvironments,
    e: int,
    p: Platform,
)
    requires
        0 <= e < project.env_count(),
        !outdated.conda_stale(e, p),
        !outdated.pypi_stale(e, p),
        (ctx.conda_env_cell(e, p) is Some) == outdated.conda_stale(e, p),
        (ctx.pypi_env_cell(e, p) is Some) == outdated.pypi_stale(e, p),
        (ctx.locked_conda(e, p) is Some) == lock_file.has_target(
            project.environments@[e].name@,
            p,
        ),
        ctx.locked_conda(e, p) matches Some(v) ==> v@ == lock_file.target_conda(
            project.environments@[e].name@,
            p,
        ),
        (ctx.locked_pypi(e, p) is Some) == lock_file.has_target(
            project.environments@[e].name@,
            p,
        ),
        ctx.locked_pypi(e, p) matches Some(v) ==> v@ == lock_file.target_pypi(
            project.environments@[e].name@,
            p,
        ),
    ensures
        lock_file.has_target(project.environments@[e].name@, p) ==> latest_conda_view(ctx, e, p)
            == lock_file.target_conda(project.environments@[e].name@, p) && latest_pypi_view(
            ctx,
            e,
            p,
        ) == lock_file.target_pypi(project.environments@[e].name@, p),
        !lock_file.has_target(project.environments@[e].name@, p) ==> latest_conda_view(ctx, e, p)
            == Seq::<RecView>::empty() && latest_pypi_view(ctx, e, p) == Seq::<RecView>::empty(),
{
}

/// Law: a target whose language-level result was short-circuited to the
/// empty set assembles an empty language-level list.
pub proof fn lemma_short_circuit_empty(ctx: UpdateContext, e: int, p: Platform)
    requires
        ctx.pypi_env_cell(e, p) matches Some(c) && (c.value_of() matches Some(v) && v@
            == Seq::<RecView>::empty()),
    ensures
        latest_pypi_view(ctx, e, p) == Seq::<RecView>::empty(),
{
}

/// Builds the new lock file once every task has completed: for every
/// declared environment and platform, the latest available records —
/// solved this run, else carried over from the baseline — and the
/// environment's channel list.  Fails, leaving no artifact, if any drained
/// target's solve is still pending.
pub fn finish_lock_file(project: &Project, context: &mut UpdateContext) -> (r: Result<
    LockFileModel,
    UpdateError,
>)
    requires
        project.wf(),
        old(context).wf(),
    ensures
        final(context).wf(),
        match r {
            Ok(lf) => {
                &&& lf.environments@.len() == project.env_count()
                &&& forall|e: int|
                    0 <= e < project.env_count() ==> {
                        let le = #[trigger] lf.environments@[e];
                        let env = project.environments@[e];
                        &&& le.name@ == env.name@
                        &&& le.channels.deep_view() == env.channels.deep_view()
                        &&& le.targets@.len() == env.platforms@.len()
                        &&& forall|pi: int|
                            0 <= pi < env.platforms@.len() ==> {
                                let t = #[trigger] le.targets@[pi];
                                &&& t.platform == env.platforms@[pi]
                                &&& t.conda.deep_view() == latest_conda_view(
                                    *old(context),
                                    e,
                                    env.platforms@[pi],
                                )
                                &&& t.pypi.deep_view() == latest_pypi_view(
                                    *old(context),
                                    e,
                                    env.platforms@[pi],
                                )
                            }
                    }
            },
            Err(err) => err matches UpdateError::RecordsStillPending { .. },
        },
        r is Ok ==> forall|e: int, pi: int|
            0 <= e < project.env_count() && 0 <= pi < project.environments@[e].platforms@.len()
                ==> !target_pending(
                *old(context),
                e,
                (#[trigger] project.environments@[e].platforms@[pi]),
            ),
        r is Err ==> exists|e: int, pi: int|
            0 <= e < project.env_count() && 0 <= pi < project.environments@[e].platforms@.len()
                && target_pending(
                *old(context),
                e,
                (#[trigger] project.environments@[e].platforms@[pi]),
            ),
{
    let env_count = project.environments.len();
    let mut environments: Vec<LockedEnvironment> = Vec::new();
    let mut e: usize = 0;
    while e < project.environments.len()
        invariant
            e <= project.environments@.len(),
            env_count == project.env_count(),
            project.wf(),
            context.wf(),
            environments@.len() == e,
            forall|e2: int, p2: Platform|
                0 <= e2 < project.env_count() && !drained(*project, e as int, 0, e2, p2) ==> {
                    &&& #[trigger] context.conda_env_cell(e2, p2) == old(context).conda_env_cell(
                        e2,
                        p2,
                    )
                    &&& context.locked_conda(e2, p2) == old(context).locked_conda(e2, p2)
                    &&& context.pypi_env_cell(e2, p2) == old(context).pypi_env_cell(e2, p2)
                    &&& context.locked_pypi(e2, p2) == old(context).locked_pypi(e2, p2)
                },
            forall|e2: int, pj: int|
                0 <= e2 < e && 0 <= pj < project.environments@[e2].platforms@.len()
                    ==> !target_pending(
                    *old(context),
                    e2,
                    (#[trigger] project.environments@[e2].platforms@[pj]),
                ),
            forall|e2: int|
                0 <= e2 < e ==> {
                    let le = #[trigger] environments@[e2];
                    let env = project.environments@[e2];
                    &&& le.name@ == env.name@
                    &&& le.channels.deep_view() == env.channels.deep_view()
                    &&& le.targets@.len() == env.platforms@.len()
                    &&& forall|pi: int|
                        0 <= pi < env.platforms@.len() ==> {
                            let t = #[trigger] le.targets@[pi];
                            &&& t.platform == env.platforms@[pi]
                            &&& t.conda.deep_view() == latest_conda_view(
                                *old(context),
                                e2,
                                env.platforms@[pi],
                            )
                            &&& t.pypi.deep_view() == latest_pypi_view(
                                *old(context),
                                e2,
                                env.platforms@[pi],
                            )
                        }
                },
        decreases project.environments@.len() - e,
    {
        let name = project.environments[e].name.clone();
        let channels = clone_strings(&project.environments[e].channels);
        let mut targets: Vec<LockedTarget> = Vec::new();
        let platform_count = project.environments[e].platforms.len();
        let mut pi: usize = 0;
        while pi < platform_count
            invariant
                pi <= platform_count,
                e < project.environments@.len(),
                env_count == project.env_count(),
                platform_count == project.environments@[e as int].platforms@.len(),
                project.wf(),
                context.wf(),
                targets@.len() == pi,
                forall|e2: int, p2: Platform|
                    0 <= e2 < project.env_count() && !drained(*project, e as int, pi as int, e2, p2)
                        ==> {
                        &&& #[trigger] context.conda_env_cell(e2, p2) == old(
                            context,
                        ).conda_env_cell(e2, p2)
                        &&& context.locked_conda(e2, p2) == old(context).locked_conda(e2, p2)
                        &&& context.pypi_env_cell(e2, p2) == old(context).pypi_env_cell(e2, p2)
                        &&& context.locked_pypi(e2, p2) == old(context).locked_pypi(e2, p2)
                    },
                forall|e2: int, pj: int|
                    0 <= e2 < e && 0 <= pj < project.environments@[e2].platforms@.len()
                        ==> !target_pending(
                        *old(context),
                        e2,
                        (#[trigger] project.environments@[e2].platforms@[pj]),
                    ),
                forall|pj: int|
                    0 <= pj < pi ==> !target_pending(
                        *old(context),
                        e as int,
                        (#[trigger] project.environments@[e as int].platforms@[pj]),
                    ),
                forall|pj: int|
                    0 <= pj < pi ==> {
                        let t = #[trigger] targets@[pj];
                        let env = project.environments@[e as int];
                        &&& t.platform == env.platforms@[pj]
                        &&& t.conda.deep_view() == latest_conda_view(
                            *old(context),
                            e as int,
                            env.platforms@[pj],
                        )
                        &&& t.pypi.deep_view() == latest_pypi_view(
                            *old(context),
                            e as int,
                            env.platforms@[pj],
                        )
                    },
            decreases platform_count - pi,
        {
            let platform = project.environments[e].platforms[pi];
            let ghost ctx0 = *context;
            proof {
                assert(!drained(*project, e as int, pi as int, e as int, platform)) by {
                    if exists|pj: int|
                        0 <= pj < pi && (#[trigger] project.environments@[e as int].platforms@[pj])
                            == platform {
                        let pj = choose|pj: int|
                            0 <= pj < pi && (
                            #[trigger] project.environments@[e as int].platforms@[pj]) == platform;
                        assert(project.environments@[e as int].platforms@[pj]
                            == project.environments@[e as int].platforms@[pi as int]);
                        assert(false);
                    }
                }
            }
            let conda = match context.take_latest_repodata_records(e, platform) {
                Ok(Some(records)) => records.into_inner(),
                Ok(None) => Vec::new(),
                Err(err) => {
                    proof {
                        assert(ctx0.conda_env_cell(e as int, platform) == old(
                            context,
                        ).conda_env_cell(e as int, platform));
                        assert(target_pending(*old(context), e as int, platform));
                        assert(project.environments@[e as int].platforms@[pi as int] == platform);
                    }
                    return Err(err);
                },
            };
            let pypi = match context.take_latest_pypi_records(e, platform) {
                Ok(Some(records)) => records.into_inner(),
                Ok(None) => Vec::new(),
                Err(err) => {
                    proof {
                        assert(context.pypi_env_cell(e as int, platform) == ctx0.pypi_env_cell(
                            e as int,
                            platform,
                        ));
                        assert(ctx0.pypi_env_cell(e as int, platform) == old(
                            context,
                        ).pypi_env_cell(e as int, platform));
                        assert(target_pending(*old(context), e as int, platform));
                        assert(project.environments@[e as int].platforms@[pi as int] == platform);
                    }
                    return Err(err);
                },
            };
            proof {
                assert(conda.deep_view() == latest_conda_view(*old(context), e as int, platform));
                assert(pypi.deep_view() == latest_pypi_view(*old(context), e as int, platform));
                // Both takes succeeded, so neither cell was registered and
                // unset when the run reached assembly.
                assert(!target_pending(*old(context), e as int, platform)) by {
                    assert(ctx0.conda_env_cell(e as int, platform) == old(context).conda_env_cell(
                        e as int,
                        platform,
                    ));
                    assert(ctx0.pypi_env_cell(e as int, platform) == old(context).pypi_env_cell(
                        e as int,
                        platform,
                    ));
                }
            }
            targets.push(LockedTarget { platform, conda, pypi });
            proof {
                assert forall|e2: int, p2: Platform|
                    0 <= e2 < project.env_count() && !drained(
                        *project,
                        e as int,
                        pi as int + 1,
                        e2,
                        p2,
                    ) implies {
                    &&& #[trigger] context.conda_env_cell(e2, p2) == old(context).conda_env_cell(
                        e2,
                        p2,
                    )
                    &&& context.locked_conda(e2, p2) == old(context).locked_conda(e2, p2)
                    &&& context.pypi_env_cell(e2, p2) == old(context).pypi_env_cell(e2, p2)
                    &&& context.locked_pypi(e2, p2) == old(context).locked_pypi(e2, p2)
                } by {
                    assert(!drained(*project, e as int, pi as int, e2, p2)) by {
                        if drained(*project, e as int, pi as int, e2, p2) {
                            let pj = choose|pj: int|
                                0 <= pj < pi && (
                                #[trigger] project.environments@[e2].platforms@[pj]) == p2;
                            assert(project.environments@[e2].platforms@[pj] == p2);
                        }
                    }
                    assert(target_key(e2, p2) != target_key(e as int, platform)) by {
                        crate::model::lemma_platform_tag_injective(p2, platform);
                        if e2 == e as int && p2 == platform {
                            assert(project.environments@[e as int].platforms@[pi as int]
                                == platform);
                            assert(drained(*project, e as int, pi as int + 1, e2, p2));
                        }
                    }
                    assert(ctx0.conda_env_cell(e2, p2) == old(context).conda_env_cell(e2, p2));
                    assert(ctx0.locked_conda(e2, p2) == old(context).locked_conda(e2, p2));
                    assert(ctx0.pypi_env_cell(e2, p2) == old(context).pypi_env_cell(e2, p2));
                    assert(ctx0.locked_pypi(e2, p2) == old(context).locked_pypi(e2, p2));
                    assert(context.conda_env_cell(e2, p2) == ctx0.conda_env_cell(e2, p2));
                    assert(context.locked_conda(e2, p2) == ctx0.locked_conda(e2, p2));
                    assert(context.pypi_env_cell(e2, p2) == ctx0.pypi_env_cell(e2, p2));
                    assert(context.locked_pypi(e2, p2) == ctx0.locked_pypi(e2, p2));
                }
            }
            pi += 1;
        }
        environments.push(LockedEnvironment { name, channels, targets });
        proof {
            assert forall|e2: int, p2: Platform|
                0 <= e2 < project.env_count() && !drained(
                    *project,
                    e as int + 1,
                    0,
                    e2,
                    p2,
                ) implies {
                &&& #[trigger] context.conda_env_cell(e2, p2) == old(context).conda_env_cell(
                    e2,
                    p2,
                )
                &&& context.locked_conda(e2, p2) == old(context).locked_conda(e2, p2)
                &&& context.pypi_env_cell(e2, p2) == old(context).pypi_env_cell(e2, p2)
                &&& context.locked_pypi(e2, p2) == old(context).locked_pypi(e2, p2)
            } by {
                assert(!drained(*project, e as int, pi as int, e2, p2));
            }
        }
        e += 1;
    }
    Ok(LockFileModel { environments })
}

impl LockFileModel {
    /// Well-formed: environment names are unique, each environment's
    /// target platforms are unique, and each record list is deduplicated
    /// by name.
    pub open spec fn wf(self) -> bool {
        &&& forall|i: int, j: int|
            0 <= i < j < self.environments@.len() ==> (#[trigger] self.environments@[i].name@)
                != (#[trigger] self.environments@[j].name@)
        &&& forall|i: int, a: int, b: int|
            0 <= i < self.environments@.len() && 0 <= a < b
                < self.environments@[i].targets@.len() ==> (
            #[trigger] self.environments@[i].targets@[a].platform)
                != (#[trigger] self.environments@[i].targets@[b].platform)
        &&& forall|i: int, j: int|
            0 <= i < self.environments@.len() && 0 <= j < self.environments@[i].targets@.len()
                ==> crate::records::unique_names(
                (#[trigger] self.environments@[i].targets@[j]).conda.deep_view(),
            ) && crate::records::unique_names(self.environments@[i].targets@[j].pypi.deep_view())
    }

    /// Checks the lock file for well-formedness; a passing check
    /// establishes [`LockFileModel::wf`].
    pub fn check_wf(&self) -> (r: bool)
        ensures
            r ==> self.wf(),
    {
        let n = self.environments.len();
        let mut i: usize = 0;
        while i < n
            invariant
                i <= n,
                n == self.environments@.len(),
                forall|a: int, b: int|
                    0 <= a < b < n && a < i ==> (#[trigger] self.environments@[a].name@) != (
                    #[trigger] self.environments@[b].name@),
            decreases n - i,
        {
            let mut j: usize = i + 1;
            while j < n
                invariant
                    i < j <= n,
                    i < n,
                    n == self.environments@.len(),
                    forall|b: int|
                        i < b < j ==> (#[trigger] self.environments@[b].name@)
                            != self.environments@[i as int].name@,
                decreases n - j,
            {
                if self.environments[i].name == self.environments[j].name {
                    return false;
                }
                j += 1;
            }
            i += 1;
        }
        let mut e: usize = 0;
        while e < n
            invariant
                e <= n,
                n == self.environments@.len(),
                forall|e2: int, a: int, b: int|
                    0 <= e2 < e && 0 <= a < b < self.environments@[e2].targets@.len() ==> (
                    #[trigger] self.environments@[e2].targets@[a].platform) != (
                    #[trigger] self.environments@[e2].targets@[b].platform),
                forall|e2: int, t: int|
                    0 <= e2 < e && 0 <= t < self.environments@[e2].targets@.len()
                        ==> crate::records::unique_names(
                        (#[trigger] self.environments@[e2].targets@[t]).conda.deep_view(),
                    ) && crate::records::unique_names(
                        self.environments@[e2].targets@[t].pypi.deep_view(),
                    ),
            decreases n - e,
        {
            let tc = self.environments[e].targets.len();
            let mut a: usize = 0;
            while a < tc
                invariant
                    a <= tc,
                    e < n,
                    n == self.environments@.len(),
                    tc == self.environments@[e as int].targets@.len(),
                    forall|a2: int, b2: int|
                        0 <= a2 < b2 < tc && a2 < a ==> (
                        #[trigger] self.environments@[e as int].targets@[a2].platform) != (
                        #[trigger] self.environments@[e as int].targets@[b2].platform),
                    forall|t: int|
                        0 <= t < a ==> crate::records::unique_names(
                            (#[trigger] self.environments@[e as int].targets@[t]).conda.deep_view(),
                        ) && crate::records::unique_names(
                            self.environments@[e as int].targets@[t].pypi.deep_view(),
                        ),
                decreases tc - a,
            {
                let mut b: usize = a + 1;
                while b < tc
                    invariant
                        a < b <= tc,
                        a < tc,
                        e < n,
                        n == self.environments@.len(),
                        tc == self.environments@[e as int].targets@.len(),
                        forall|b2: int|
                            a < b2 < b ==> (
                            #[trigger] self.environments@[e as int].targets@[b2].platform)
                                != self.environments@[e as int].targets@[a as int].platform,
                    decreases tc - b,
                {
                    if self.environments[e].targets[a].platform
                        == self.environments[e].targets[b].platform {
                        return false;
                    }
                    b += 1;
                }
                if !records_names_unique(&self.environments[e].targets[a].conda) {
                    return false;
                }
                if !records_names_unique(&self.environments[e].targets[a].pypi) {
                    return false;
                }
                a += 1;
            }
            e += 1;
        }
        true
    }

    /// The lock file holds a target for (environment name, platform).
    pub open spec fn has_target(self, name: Seq<char>, p: Platform) -> bool {
        exists|i: int, j: int|
            0 <= i < self.environments@.len() && (#[trigger] self.environments@[i]).name@ == name
                && 0 <= j < self.environments@[i].targets@.len() && (
            #[trigger] self.environments@[i].targets@[j]).platform == p
    }

    /// The system-level record views locked for (environment name,
    /// platform); meaningful under [`LockFileModel::wf`].
    pub open spec fn target_conda(self, name: Seq<char>, p: Platform) -> Seq<RecView> {
        let (i, j) = choose|i: int, j: int|
            0 <= i < self.environments@.len() && (#[trigger] self.environments@[i]).name@ == name
                && 0 <= j < self.environments@[i].targets@.len() && (
            #[trigger] self.environments@[i].targets@[j]).platform == p;
        self.environments@[i].targets@[j].conda.deep_view()
    }

    /// The language-level analogue of [`LockFileModel::target_conda`].
    pub open spec fn target_pypi(self, name: Seq<char>, p: Platform) -> Seq<RecView> {
        let (i, j) = choose|i: int, j: int|
            0 <= i < self.environments@.len() && (#[trigger] self.environments@[i]).name@ == name
                && 0 <= j < self.environments@[i].targets@.len() && (
            #[trigger] self.environments@[i].targets@[j]).platform == p;
        self.environments@[i].targets@[j].pypi.deep_view()
    }

    /// Index of the environment named `name`, if one is locked.
    pub fn environment_index(&self, name: &String) -> (r: Option<usize>)
        ensures
            match r {
                Some(i) => i < self.environments@.len() && self.environments@[i as int].name@
                    == name@,
                None => forall|i: int|
                    0 <= i < self.environments@.len() ==> (
                    #[trigger] self.environments@[i].name@) != name@,
            },
    {
        let mut i: usize = 0;
        while i < self.environments.len()
            invariant
                i <= self.environments@.len(),
                forall|j: int|
                    0 <= j < i ==> (#[trigger] self.environments@[j].name@) != name@,
            decreases self.environments@.len() - i,
        {
            if self.environments[i].name == *name {
                return Some(i);
            }
            i += 1;
        }
        None
    }

    /// The locked system-level records of (environment, platform), if the
    /// lock file holds that target.
    pub fn repodata_records(&self, name: &String, platform: Platform) -> (r: Option<&Vec<Record>>)
        ensures
            match r {
                Some(v) => exists|i: int, j: int|
                    0 <= i < self.environments@.len() && (#[trigger] self.environments@[i]).name@
                        == name@ && 0 <= j < self.environments@[i].targets@.len() && (
                    #[trigger] self.environments@[i].targets@[j]).platform == platform
                        && v.deep_view() == self.environments@[i].targets@[j].conda.deep_view(),
                None => self.wf() ==> !self.has_target(name@, platform),
            },
    {
        match self.environment_index(name) {
            Some(i) => {
                let targets = &self.environments[i].targets;
                let mut j: usize = 0;
                while j < targets.len()
                    invariant
                        i < self.environments@.len(),
                        j <= targets@.len(),
                        targets == &self.environments@[i as int].targets,
                        self.environments@[i as int].name@ == name@,
                        forall|j2: int|
                            0 <= j2 < j ==> (#[trigger] targets@[j2].platform) != platform,
                    decreases targets@.len() - j,
                {
                    if targets[j].platform == platform {
                        return Some(&targets[j].conda);
                    }
                    j += 1;
                }
                proof {
                    if self.wf() && self.has_target(name@, platform) {
                        let (i2, j2) = choose|i2: int, j2: int|
                            0 <= i2 < self.environments@.len() && (
                            #[trigger] self.environments@[i2]).name@ == name@ && 0 <= j2
                                < self.environments@[i2].targets@.len() && (
                            #[trigger] self.environments@[i2].targets@[j2]).platform == platform;
                        assert(i2 == i as int);
                        assert(targets@[j2].platform != platform);
                        assert(false);
                    }
                }
                None
            },
            None => {
                proof {
                    if self.has_target(name@, platform) {
                        let (i2, j2) = choose|i2: int, j2: int|
                            0 <= i2 < self.environments@.len() && (
                            #[trigger] self.environments@[i2]).name@ == name@ && 0 <= j2
                                < self.environments@[i2].targets@.len() && (
                            #[trigger] self.environments@[i2].targets@[j2]).platform == platform;
                        assert(self.environments@[i2].name@ != name@);
                        assert(false);
                    }
                }
                None
            },
        }
    }

    /// The locked language-level records of (environment, platform).
    pub fn pypi_records(&self, name: &String, platform: Platform) -> (r: Option<&Vec<Record>>)
        ensures
            match r {
                Some(v) => exists|i: int, j: int|
                    0 <= i < self.environments@.len() && (#[trigger] self.environments@[i]).name@
                        == name@ && 0 <= j < self.environments@[i].targets@.len() && (
                    #[trigger] self.environments@[i].targets@[j]).platform == platform
                        && v.deep_view() == self.environments@[i].targets@[j].pypi.deep_view(),
                None => self.wf() ==> !self.has_target(name@, platform),
            },
    {
        match self.environment_index(name) {
            Some(i) => {
                let targets = &self.environments[i].targets;
                let mut j: usize = 0;
                while j < targets.len()
                    invariant
                        i < self.environments@.len(),
                        j <= targets@.len(),
                        targets == &self.environments@[i as int].targets,
                        self.environments@[i as int].name@ == name@,
                        forall|j2: int|
                            0 <= j2 < j ==> (#[trigger] targets@[j2].platform) != platform,
                    decreases targets@.len() - j,
                {
                    if targets[j].platform == platform {
                        return Some(&targets[j].pypi);
                    }
                    j += 1;
                }
                proof {
                    if self.wf() && self.has_target(name@, platform) {
                        let (i2, j2) = choose|i2: int, j2: int|
                            0 <= i2 < self.environments@.len() && (
                            #[trigger] self.environments@[i2]).name@ == name@ && 0 <= j2
                                < self.environments@[i2].targets@.len() && (
                            #[trigger] self.environments@[i2].targets@[j2]).platform == platform;
                        assert(i2 == i as int);
                        assert(targets@[j2].platform != platform);
                        assert(false);
                    }
                }
                None
            },
            None => {
                proof {
                    if self.has_target(name@, platform) {
                        let (i2, j2) = choose|i2: int, j2: int|
                            0 <= i2 < self.environments@.len() && (
                            #[trigger] self.environments@[i2]).name@ == name@ && 0 <= j2
                                < self.environments@[i2].targets@.len() && (
                            #[trigger] self.environments@[i2].targets@[j2]).platform == platform;
                        assert(self.environments@[i2].name@ != name@);
                        assert(false);
                    }
                }
                None
            },
        }
    }
}

} // verus!
