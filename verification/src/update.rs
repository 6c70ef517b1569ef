use vstd::prelude::*;
use crate::assemble::LockFileModel;
use crate::context::make_target_key;
use crate::context::target_key;
use crate::context::PrefixInfo;
use crate::context::UpdateContext;
use crate::errors::UpdateError;
use crate::kvmap::Key;
use crate::model::Platform;
use crate::model::Project;
use crate::outdated::OutdatedEnvironments;
use crate::plan::any_pypi_work;
use crate::plan::conda_group_requested;
use crate::plan::env_conda_source_ok;
use crate::plan::group_conda_source_ok;
use crate::plan::count_task;
use crate::plan::plan_conda;
use crate::plan::plan_prefixes;
use crate::plan::plan_pypi;
use crate::plan::prefix_needed;
use crate::plan::pypi_group_requested;
use crate::plan::TaskSpec;
use crate::records::contains_name;
use crate::records::spec_find;
use crate::records::RecordsByName;

verus! {

/// What the caller allows this run to do with the lock file.
#[derive(Clone, Copy, PartialEq, Eq, Structural, Debug)]
pub enum LockFileUsage {
    /// Use the lock file as it is, without checking it.
    NeverCheck,
    /// Check whether the lock file is up to date, but fail rather than
    /// update it.
    CheckOnly,
    /// Check, and update the lock file where it is stale.
    AllowUpdate,
}

impl LockFileUsage {
    /// Whether staleness should be computed at all.
    pub fn should_check_if_out_of_date(self) -> (r: bool)
        ensures
            r == (self != LockFileUsage::NeverCheck),
    {
        match self {
            LockFileUsage::NeverCheck => false,
            _ => true,
        }
    }

    /// Whether a stale lock file may be rewritten.
    pub fn allows_lock_file_updates(self) -> (r: bool)
        ensures
            r == (self == LockFileUsage::AllowUpdate),
    {
        match self {
            LockFileUsage::AllowUpdate => true,
            _ => false,
        }
    }
}

/// Options of one update run.
pub struct UpdateLockFileOptions {
    /// What to do when the lock file is out of date.
    pub lock_file_usage: LockFileUsage,
    /// Never install anything to disk during this run.
    pub no_install: bool,
    /// Index keys (channel, platform) already fetched by the caller, which
    /// need not be fetched again.
    pub existing_repo_data: Vec<(String, Platform)>,
    /// Cap on concurrently running system-level solves; a machine-derived
    /// default applies when absent.
    pub max_concurrent_solves: Option<usize>,
}

/// The lock file together with what else the run derived.
pub struct LockFileDerivedData {
    /// The up-to-date lock file.
    pub lock_file: LockFileModel,
    /// Execution environments materialized during the run, keyed by
    /// environment index.
    pub updated_conda_prefixes: Vec<(usize, PrefixInfo)>,
}

/// The work an update run must perform, handed to the driver: the
/// bookkeeping context with every result cell pre-registered, the task
/// plan, the index slices to fetch, and the solve-concurrency bound.
pub struct RunPlan {
    pub context: UpdateContext,
    pub tasks: Vec<TaskSpec>,
    pub fetch_targets: Vec<(String, Platform)>,
    pub max_concurrent_solves: usize,
}

/// How an update run starts: the lock file is already up to date, or a
/// plan of tasks must be driven to completion.
pub enum UpdateOutcome {
    /// Nothing is stale (or checking was disabled): the lock file stands.
    UpToDate(LockFileModel),
    /// Work to do: drive the plan, then assemble.
    Run(RunPlan),
}

/// The default cap on concurrent system-level solves: the machine's
/// parallelism less two, clamped to between one and four.
pub fn default_max_concurrent_solves(available_parallelism: usize) -> (r: usize)
    ensures
        r == if available_parallelism <= 3 {
            1usize
        } else if available_parallelism <= 6 {
            (available_parallelism - 2) as usize
        } else {
            4usize
        },
{
    let reduced = if available_parallelism >= 2 {
        available_parallelism - 2
    } else {
        0
    };
    let capped = if reduced > 4 {
        4
    } else {
        reduced
    };
    if capped < 1 {
        1
    } else {
        capped
    }
}

/// A channel of a system-level-stale environment, paired with one of its
/// stale platforms or with the universal no-arch platform.
pub open spec fn fetch_wanted(
    project: Project,
    outdated: OutdatedEnvironments,
    c: Seq<char>,
    p: Platform,
) -> bool {
    exists|ii: int, ci: int|
        0 <= ii < outdated.conda_entries().len() && 0 <= ci
            < project.environments@[(#[trigger] outdated.conda_entries()[ii]).0 as int].channels.deep_view().len()
            && (#[trigger] project.environments@[outdated.conda_entries()[ii].0 as int].channels.deep_view()[ci])
            == c && (outdated.conda_entries()[ii].1.contains(p) || p == Platform::NoArch)
}

fn pair_in(list: &Vec<(String, Platform)>, c: &String, p: Platform) -> (r: bool)
    ensures
        r == exists|i: int|
            0 <= i < list@.len() && (#[trigger] list@[i]).0@ == c@ && list@[i].1 == p,
{
    let mut i: usize = 0;
    while i < list.len()
        invariant
            i <= list@.len(),
            forall|j: int| 0 <= j < i ==> !((#[trigger] list@[j]).0@ == c@ && list@[j].1 == p),
        decreases list@.len() - i,
    {
        if list[i].0 == *c && list[i].1 == p {
            return true;
        }
        i += 1;
    }
    false
}

/// No (channel, platform) pair occurs twice.
pub open spec fn targets_unique(s: Seq<(String, Platform)>) -> bool {
    forall|i: int, j: int|
        0 <= i < j < s.len() ==> !((#[trigger] s[i]).0@ == (#[trigger] s[j]).0@ && s[i].1
            == s[j].1)
}

/// Every listed pair is wanted and was not already fetched.
pub open spec fn targets_sound(
    project: Project,
    outdated: OutdatedEnvironments,
    existing: Seq<(String, Platform)>,
    s: Seq<(String, Platform)>,
) -> bool {
    forall|i: int|
        0 <= i < s.len() ==> fetch_wanted(project, outdated, (#[trigger] s[i]).0@, s[i].1) && !(
        exists|w: int|
            0 <= w < existing.len() && (#[trigger] existing[w]).0@ == s[i].0@ && existing[w].1
                == s[i].1)
}

/// The pair (c, p) is already fetched or already listed.
pub open spec fn pair_covered(
    existing: Seq<(String, Platform)>,
    r: Seq<(String, Platform)>,
    c: Seq<char>,
    p: Platform,
) -> bool {
    (exists|w: int| 0 <= w < existing.len() && (#[trigger] existing[w]).0@ == c && existing[w].1
        == p) || (exists|i: int| 0 <= i < r.len() && (#[trigger] r[i]).0@ == c && r[i].1 == p)
}

fn add_target(
    r: &mut Vec<(String, Platform)>,
    existing: &Vec<(String, Platform)>,
    c: &String,
    p: Platform,
    project: &Project,
    outdated: &OutdatedEnvironments,
)
    requires
        fetch_wanted(*project, *outdated, c@, p),
        targets_unique(old(r)@),
        targets_sound(*project, *outdated, existing@, old(r)@),
    ensures
        targets_unique(final(r)@),
        targets_sound(*project, *outdated, existing@, final(r)@),
        pair_covered(existing@, final(r)@, c@, p),
        forall|c2: Seq<char>, p2: Platform|
            pair_covered(existing@, old(r)@, c2, p2) ==> #[trigger] pair_covered(
                existing@,
                final(r)@,
                c2,
                p2,
            ),
{
    if !pair_in(existing, c, p) && !pair_in(r, c, p) {
        let ghost pre = r@;
        r.push((c.clone(), p));
        proof {
            assert(forall|i: int| 0 <= i < pre.len() ==> r@[i] == #[trigger] pre[i]);
            assert(r@[pre.len() as int].0@ == c@ && r@[pre.len() as int].1 == p);
            assert forall|c2: Seq<char>, p2: Platform| pair_covered(
                existing@,
                pre,
                c2,
                p2,
            ) implies #[trigger] pair_covered(existing@, r@, c2, p2) by {
                if exists|i: int| 0 <= i < pre.len() && (#[trigger] pre[i]).0@ == c2 && pre[i].1
                    == p2 {
                    let i = choose|i: int|
                        0 <= i < pre.len() && (#[trigger] pre[i]).0@ == c2 && pre[i].1 == p2;
                    assert(r@[i].0@ == c2 && r@[i].1 == p2);
                }
            }
        }
    }
}

/// The `ci`-th channel of the `ii`-th stale entry's environment.
pub open spec fn stale_channel(
    project: Project,
    outdated: OutdatedEnvironments,
    ii: int,
    ci: int,
) -> Seq<char> {
    project.environments@[outdated.conda_entries()[ii].0 as int].channels.deep_view()[ci]
}

/// How many channels the `ii`-th stale entry's environment declares.
pub open spec fn stale_channel_count(
    project: Project,
    outdated: OutdatedEnvironments,
    ii: int,
) -> int {
    project.environments@[outdated.conda_entries()[ii].0 as int].channels.deep_view().len() as int
}

/// The index slices the run must fetch: for every stale environment, its
/// channels crossed with its stale platforms and with the no-arch
/// platform, deduplicated, minus what the caller already fetched.
pub fn compute_fetch_targets(
    project: &Project,
    outdated: &OutdatedEnvironments,
    existing: &Vec<(String, Platform)>,
) -> (r: Vec<(String, Platform)>)
    requires
        project.wf(),
        outdated.wf(*project),
    ensures
        targets_unique(r@),
        targets_sound(*project, *outdated, existing@, r@),
        forall|ii: int, ci: int, pj: int|
            #![trigger stale_channel(*project, *outdated, ii, ci), outdated.conda_entries()[ii].1[pj]]
            0 <= ii < outdated.conda_entries().len() && 0 <= ci < stale_channel_count(
                *project,
                *outdated,
                ii,
            ) && 0 <= pj < outdated.conda_entries()[ii].1.len() ==> pair_covered(
                existing@,
                r@,
                stale_channel(*project, *outdated, ii, ci),
                outdated.conda_entries()[ii].1[pj],
            ),
        forall|ii: int, ci: int|
            #![trigger stale_channel(*project, *outdated, ii, ci)]
            0 <= ii < outdated.conda_entries().len() && 0 <= ci < stale_channel_count(
                *project,
                *outdated,
                ii,
            ) ==> pair_covered(
                existing@,
                r@,
                stale_channel(*project, *outdated, ii, ci),
                Platform::NoArch,
            ),
{
    let mut r: Vec<(String, Platform)> = Vec::new();
    let ghost l = outdated.conda_entries();
    let mut ii: usize = 0;
    while ii < outdated.conda.len()
        invariant
            ii <= l.len(),
            l == outdated.conda_entries(),
            l.len() == outdated.conda@.len(),
            project.wf(),
            outdated.wf(*project),
            targets_unique(r@),
            targets_sound(*project, *outdated, existing@, r@),
            forall|ii2: int, ci2: int, pj2: int|
                #![trigger stale_channel(*project, *outdated, ii2, ci2), l[ii2].1[pj2]]
                0 <= ii2 < ii && 0 <= ci2 < stale_channel_count(*project, *outdated, ii2) && 0
                    <= pj2 < l[ii2].1.len() ==> pair_covered(
                    existing@,
                    r@,
                    stale_channel(*project, *outdated, ii2, ci2),
                    l[ii2].1[pj2],
                ),
            forall|ii2: int, ci2: int|
                #![trigger stale_channel(*project, *outdated, ii2, ci2)]
                0 <= ii2 < ii && 0 <= ci2 < stale_channel_count(*project, *outdated, ii2)
                    ==> pair_covered(
                    existing@,
                    r@,
                    stale_channel(*project, *outdated, ii2, ci2),
                    Platform::NoArch,
                ),
        decreases l.len() - ii,
    {
        let environment = outdated.conda[ii].0;
        proof {
            assert(l[ii as int] == outdated.conda@[ii as int].deep_view());
            assert((environment as int) == l[ii as int].0 as int);
            assert((environment as int) < project.env_count());
        }
        let channels_len = project.environments[environment].channels.len();
        let mut ci: usize = 0;
        while ci < channels_len
            invariant
                ci <= channels_len,
                ii < l.len(),
                l == outdated.conda_entries(),
                l.len() == outdated.conda@.len(),
                project.wf(),
                outdated.wf(*project),
                (environment as int) == l[ii as int].0 as int,
                (environment as int) < project.env_count(),
                channels_len == project.environments@[environment as int].channels@.len(),
                channels_len == stale_channel_count(*project, *outdated, ii as int),
                targets_unique(r@),
                targets_sound(*project, *outdated, existing@, r@),
                forall|ii2: int, ci2: int, pj2: int|
                    #![trigger stale_channel(*project, *outdated, ii2, ci2), l[ii2].1[pj2]]
                    0 <= ii2 < ii && 0 <= ci2 < stale_channel_count(*project, *outdated, ii2) && 0
                        <= pj2 < l[ii2].1.len() ==> pair_covered(
                        existing@,
                        r@,
                        stale_channel(*project, *outdated, ii2, ci2),
                        l[ii2].1[pj2],
                    ),
                forall|ii2: int, ci2: int|
                    #![trigger stale_channel(*project, *outdated, ii2, ci2)]
                    0 <= ii2 < ii && 0 <= ci2 < stale_channel_count(*project, *outdated, ii2)
                        ==> pair_covered(
                        existing@,
                        r@,
                        stale_channel(*project, *outdated, ii2, ci2),
                        Platform::NoArch,
                    ),
                forall|ci2: int, pj2: int|
                    #![trigger stale_channel(*project, *outdated, ii as int, ci2), l[ii as int].1[pj2]]
                    0 <= ci2 < ci && 0 <= pj2 < l[ii as int].1.len() ==> pair_covered(
                        existing@,
                        r@,
                        stale_channel(*project, *outdated, ii as int, ci2),
                        l[ii as int].1[pj2],
                    ),
                forall|ci2: int|
                    #![trigger stale_channel(*project, *outdated, ii as int, ci2)]
                    0 <= ci2 < ci ==> pair_covered(
                        existing@,
                        r@,
                        stale_channel(*project, *outdated, ii as int, ci2),
                        Platform::NoArch,
                    ),
            decreases channels_len - ci,
        {
            let ghost ps = l[ii as int].1;
            proof {
                assert(ps =~= outdated.conda@[ii as int].1@);
            }
            let platforms_len = outdated.conda[ii].1.len();
            let mut pj: usize = 0;
            while pj < platforms_len
                invariant
                    pj <= platforms_len,
                    ii < l.len(),
                    ci < channels_len,
                    l == outdated.conda_entries(),
                    l.len() == outdated.conda@.len(),
                    project.wf(),
                    outdated.wf(*project),
                    (environment as int) == l[ii as int].0 as int,
                    (environment as int) < project.env_count(),
                    channels_len == project.environments@[environment as int].channels@.len(),
                    ps == l[ii as int].1,
                    platforms_len == ps.len(),
                    channels_len == stale_channel_count(*project, *outdated, ii as int),
                    targets_unique(r@),
                    targets_sound(*project, *outdated, existing@, r@),
                    forall|ii2: int, ci2: int, pj2: int|
                        #![trigger stale_channel(*project, *outdated, ii2, ci2), l[ii2].1[pj2]]
                        0 <= ii2 < ii && 0 <= ci2 < stale_channel_count(*project, *outdated, ii2) && 0
                            <= pj2 < l[ii2].1.len() ==> pair_covered(
                            existing@,
                            r@,
                            stale_channel(*project, *outdated, ii2, ci2),
                            l[ii2].1[pj2],
                        ),
                    forall|ii2: int, ci2: int|
                        #![trigger stale_channel(*project, *outdated, ii2, ci2)]
                        0 <= ii2 < ii && 0 <= ci2 < stale_channel_count(*project, *outdated, ii2)
                            ==> pair_covered(
                            existing@,
                            r@,
                            stale_channel(*project, *outdated, ii2, ci2),
                            Platform::NoArch,
                        ),
                    forall|ci2: int, pj2: int|
                        #![trigger stale_channel(*project, *outdated, ii as int, ci2), l[ii as int].1[pj2]]
                        0 <= ci2 < ci && 0 <= pj2 < l[ii as int].1.len() ==> pair_covered(
                            existing@,
                            r@,
                            stale_channel(*project, *outdated, ii as int, ci2),
                            l[ii as int].1[pj2],
                        ),
                    forall|ci2: int|
                        #![trigger stale_channel(*project, *outdated, ii as int, ci2)]
                        0 <= ci2 < ci ==> pair_covered(
                            existing@,
                            r@,
                            stale_channel(*project, *outdated, ii as int, ci2),
                            Platform::NoArch,
                        ),
                    forall|pj2: int|
                        0 <= pj2 < pj ==> pair_covered(
                            existing@,
                            r@,
                            stale_channel(*project, *outdated, ii as int, ci as int),
                            #[trigger] l[ii as int].1[pj2],
                        ),
                decreases platforms_len - pj,
            {
                let p = outdated.conda[ii].1[pj];
                let c = &project.environments[environment].channels[ci];
                proof {
                    assert(p == ps[pj as int]);
                    assert(c@ == stale_channel(*project, *outdated, ii as int, ci as int));
                    assert(fetch_wanted(*project, *outdated, c@, p)) by {
                        assert(0 <= ii < outdated.conda_entries().len());
                        assert(project.environments@[l[ii as int].0 as int].channels.deep_view()[ci as int]
                            == c@);
                        assert(l[ii as int].1.contains(p));
                    }
                }
                add_target(&mut r, existing, c, p, project, outdated);
                pj += 1;
            }
            let c = &project.environments[environment].channels[ci];
            proof {
                assert(c@ == stale_channel(*project, *outdated, ii as int, ci as int));
                assert(fetch_wanted(*project, *outdated, c@, Platform::NoArch)) by {
                    assert(0 <= ii < outdated.conda_entries().len());
                    assert(project.environments@[l[ii as int].0 as int].channels.deep_view()[ci as int]
                        == c@);
                }
            }
            add_target(&mut r, existing, c, Platform::NoArch, project, outdated);
            ci += 1;
        }
        ii += 1;
    }
    r
}

/// Reads the baseline out of the prior lock file: for every declared
/// environment and locked platform, the deduplicated record collections.
fn load_locked_records(project: &Project, lock_file: &LockFileModel, context: &mut UpdateContext)
    requires
        project.wf(),
        lock_file.wf(),
        old(context).wf(),
        forall|k: Key| #[trigger] old(context).locked_repodata_records.spec_get(k) is None,
        forall|k: Key| #[trigger] old(context).locked_pypi_records.spec_get(k) is None,
    ensures
        final(context).wf(),
        forall|e: int, p: Platform|
            0 <= e < project.env_count() ==> {
                let name = project.environments@[e].name@;
                &&& (#[trigger] final(context).locked_conda(e, p) is Some) == lock_file.has_target(
                    name,
                    p,
                )
                &&& (final(context).locked_conda(e, p) matches Some(v) ==> v.wf() && v@
                    == lock_file.target_conda(name, p))
                &&& (final(context).locked_pypi(e, p) is Some) == lock_file.has_target(name, p)
                &&& (final(context).locked_pypi(e, p) matches Some(v) ==> v.wf() && v@
                    == lock_file.target_pypi(name, p))
            },
        final(context).locked_grouped_repodata_records == old(
            context,
        ).locked_grouped_repodata_records,
        final(context).solved_repodata_records == old(context).solved_repodata_records,
        final(context).grouped_solved_repodata_records == old(
            context,
        ).grouped_solved_repodata_records,
        final(context).instantiated_conda_prefixes == old(context).instantiated_conda_prefixes,
        final(context).solved_pypi_records == old(context).solved_pypi_records,
        final(context).grouped_solved_pypi_records == old(context).grouped_solved_pypi_records,
{
    let env_count = project.environments.len();
    let mut e: usize = 0;
    while e < project.environments.len()
        invariant
            e <= project.environments@.len(),
            env_count == project.env_count(),
            project.wf(),
            lock_file.wf(),
            context.wf(),
            forall|e2: int, p: Platform|
                0 <= e2 < e ==> {
                    let name = project.environments@[e2].name@;
                    &&& (#[trigger] context.locked_conda(e2, p) is Some) == lock_file.has_target(
                        name,
                        p,
                    )
                    &&& (context.locked_conda(e2, p) matches Some(v) ==> v.wf() && v@
                        == lock_file.target_conda(name, p))
                    &&& (context.locked_pypi(e2, p) is Some) == lock_file.has_target(name, p)
                    &&& (context.locked_pypi(e2, p) matches Some(v) ==> v.wf() && v@
                        == lock_file.target_pypi(name, p))
                },
            forall|e2: int, p: Platform|
                e <= e2 < project.env_count() ==> (#[trigger] context.locked_conda(e2, p) is None)
                    && context.locked_pypi(e2, p) is None,
            context.locked_grouped_repodata_records == old(
                context,
            ).locked_grouped_repodata_records,
            context.solved_repodata_records == old(context).solved_repodata_records,
            context.grouped_solved_repodata_records == old(
                context,
            ).grouped_solved_repodata_records,
            context.instantiated_conda_prefixes == old(context).instantiated_conda_prefixes,
            context.solved_pypi_records == old(context).solved_pypi_records,
            context.grouped_solved_pypi_records == old(context).grouped_solved_pypi_records,
        decreases project.environments@.len() - e,
    {
        let ghost name = project.environments@[e as int].name@;
        match lock_file.environment_index(&project.environments[e].name) {
            Some(i) => {
                let target_count = lock_file.environments[i].targets.len();
                let mut j: usize = 0;
                while j < target_count
                    invariant
                        j <= target_count,
                        e < project.environments@.len(),
                        env_count == project.env_count(),
                        project.wf(),
                        lock_file.wf(),
                        context.wf(),
                        i < lock_file.environments@.len(),
                        lock_file.environments@[i as int].name@ == name,
                        name == project.environments@[e as int].name@,
                        target_count == lock_file.environments@[i as int].targets@.len(),
                        forall|e2: int, p: Platform|
                            0 <= e2 < e ==> {
                                let n2 = project.environments@[e2].name@;
                                &&& (#[trigger] context.locked_conda(e2, p) is Some)
                                    == lock_file.has_target(n2, p)
                                &&& (context.locked_conda(e2, p) matches Some(v) ==> v.wf() && v@
                                    == lock_file.target_conda(n2, p))
                                &&& (context.locked_pypi(e2, p) is Some) == lock_file.has_target(
                                    n2,
                                    p,
                                )
                                &&& (context.locked_pypi(e2, p) matches Some(v) ==> v.wf() && v@
                                    == lock_file.target_pypi(n2, p))
                            },
                        forall|e2: int, p: Platform|
                            e < e2 < project.env_count() ==> (#[trigger] context.locked_conda(
                                e2,
                                p,
                            ) is None) && context.locked_pypi(e2, p) is None,
                        forall|p: Platform|
                            (#[trigger] context.locked_conda(e as int, p) is Some) == exists|
                                j2: int,
                            |
                                0 <= j2 < j && (
                                #[trigger] lock_file.environments@[i as int].targets@[j2]).platform
                                    == p,
                        forall|p: Platform|
                            #![trigger context.locked_conda(e as int, p)]
                            {
                                &&& (context.locked_conda(e as int, p) matches Some(v) ==> v.wf()
                                    && v@ == lock_file.target_conda(name, p))
                                &&& (context.locked_pypi(e as int, p) is Some)
                                    == context.locked_conda(e as int, p) is Some
                                &&& (context.locked_pypi(e as int, p) matches Some(v) ==> v.wf()
                                    && v@ == lock_file.target_pypi(name, p))
                            },
                        context.locked_grouped_repodata_records == old(
                            context,
                        ).locked_grouped_repodata_records,
                        context.solved_repodata_records == old(context).solved_repodata_records,
                        context.grouped_solved_repodata_records == old(
                            context,
                        ).grouped_solved_repodata_records,
                        context.instantiated_conda_prefixes == old(
                            context,
                        ).instantiated_conda_prefixes,
                        context.solved_pypi_records == old(context).solved_pypi_records,
                        context.grouped_solved_pypi_records == old(
                            context,
                        ).grouped_solved_pypi_records,
                    decreases target_count - j,
                {
                    let platform = lock_file.environments[i].targets[j].platform;
                    let conda = RecordsByName::from_iter(
                        &lock_file.environments[i].targets[j].conda,
                    );
                    let pypi = RecordsByName::from_iter(&lock_file.environments[i].targets[j].pypi);
                    proof {
                        assert(crate::records::unique_names(
                            lock_file.environments@[i as int].targets@[j as int].conda.deep_view(),
                        ));
                        assert(conda@ == lock_file.environments@[i as int].targets@[
                        j as int].conda.deep_view());
                        assert(pypi@ == lock_file.environments@[i as int].targets@[
                        j as int].pypi.deep_view());
                    }
                    let ghost ctx0 = *context;
                    let k = make_target_key(e, platform);
                    context.locked_repodata_records.insert(k, conda);
                    context.locked_pypi_records.insert(k, pypi);
                    proof {
                        lemma_load_step(
                            *project,
                            *lock_file,
                            e,
                            i as int,
                            j as int,
                            platform,
                            ctx0,
                            *context,
                            *old(context),
                        );
                    }
                    j += 1;
                }
                proof {
                    assert forall|p: Platform| ((#[trigger] context.locked_conda(e as int, p)) is
                    Some) == lock_file.has_target(name, p) by {
                        if lock_file.has_target(name, p) {
                            let (i2, j2) = choose|i2: int, j2: int|
                                0 <= i2 < lock_file.environments@.len() && (
                                #[trigger] lock_file.environments@[i2]).name@ == name && 0 <= j2
                                    < lock_file.environments@[i2].targets@.len() && (
                                #[trigger] lock_file.environments@[i2].targets@[j2]).platform == p;
                            assert(i2 == i as int);
                        }
                    }
                }
            },
            None => {
                proof {
                    assert forall|p: Platform| ((#[trigger] context.locked_conda(e as int, p)) is
                    Some) == lock_file.has_target(name, p) by {
                        if lock_file.has_target(name, p) {
                            let (i2, j2) = choose|i2: int, j2: int|
                                0 <= i2 < lock_file.environments@.len() && (
                                #[trigger] lock_file.environments@[i2]).name@ == name && 0 <= j2
                                    < lock_file.environments@[i2].targets@.len() && (
                                #[trigger] lock_file.environments@[i2].targets@[j2]).platform == p;
                            assert(lock_file.environments@[i2].name@ != name);
                        }
                    }
                }
            },
        }
        proof {
            assert forall|e2: int, p: Platform| e + 1 <= e2 < project.env_count() implies ((
            #[trigger] context.locked_conda(e2, p)) is None) && context.locked_pypi(e2, p) is
                None by {
                assert(target_key(e2, p) != target_key(e as int, p) || e2 == e as int);
            }
        }
        e += 1;
    }
}

/// The merged baseline of (group, platform) dominates every member's
/// baseline: it holds exactly the member record names, at a version at
/// least as high as any member's.
pub open spec fn grouped_baseline_ok(
    project: Project,
    ctx: UpdateContext,
    g: int,
    p: Platform,
    v: RecordsByName,
) -> bool {
    &&& v.wf()
    &&& forall|n: Seq<char>| #[trigger]
        contains_name(v@, n) == exists|e: int|
            project.is_member(e, g) && (#[trigger] ctx.locked_conda(e, p) matches Some(w)
                && contains_name(w@, n))
    &&& forall|e: int, i: int|
        project.is_member(e, g) && ctx.locked_conda(e, p) is Some && 0 <= i < ctx.locked_conda(
            e,
            p,
        ).unwrap()@.len() ==> (spec_find(
            v@,
            (#[trigger] ctx.locked_conda(e, p).unwrap()@[i]).name,
        ) matches Some(rv) && rv.version >= ctx.locked_conda(e, p).unwrap()@[i].version)
    &&& forall|q: int|
        0 <= q < v@.len() ==> exists|e: int|
            project.is_member(e, g) && (#[trigger] ctx.locked_conda(e, p) matches Some(w)
                && w@.contains(#[trigger] v@[q]))
}

/// Merges the members' locked baselines into one per (group, platform):
/// when several members lock the same package name at different versions,
/// the record with the highest version wins.
fn build_grouped_locked(project: &Project, context: &mut UpdateContext)
    requires
        project.wf(),
        old(context).wf(),
        forall|k: Key| #[trigger] old(context).locked_grouped_repodata_records.spec_get(k) is None,
    ensures
        final(context).wf(),
        forall|g: int, p: Platform|
            0 <= g < project.group_count() ==> ((#[trigger] final(context).locked_grouped_conda(
                g,
                p,
            )) is Some) == exists|e: int|
                project.is_member(e, g) && #[trigger] final(context).locked_conda(e, p) is Some,
        forall|g: int, p: Platform|
            0 <= g < project.group_count() ==> (#[trigger] final(context).locked_grouped_conda(
                g,
                p,
            ) matches Some(v) ==> grouped_baseline_ok(*project, *final(context), g, p, v)),
        final(context).locked_repodata_records == old(context).locked_repodata_records,
        final(context).locked_pypi_records == old(context).locked_pypi_records,
        final(context).solved_repodata_records == old(context).solved_repodata_records,
        final(context).grouped_solved_repodata_records == old(
            context,
        ).grouped_solved_repodata_records,
        final(context).instantiated_conda_prefixes == old(context).instantiated_conda_prefixes,
        final(context).solved_pypi_records == old(context).solved_pypi_records,
        final(context).grouped_solved_pypi_records == old(context).grouped_solved_pypi_records,
{
    let group_count = project.groups.len();
    let env_count = project.environments.len();
    let platforms = platform_list();
    let mut g: usize = 0;
    while g < group_count
        invariant
            g <= group_count,
            group_count == project.group_count(),
            env_count == project.env_count(),
            project.wf(),
            context.wf(),
            platforms@.len() == 5,
            forall|p: Platform| #[trigger] platforms@.contains(p),
            forall|a: int, b: int|
                0 <= a < b < platforms@.len() ==> (#[trigger] platforms@[a])
                    != (#[trigger] platforms@[b]),
            forall|g2: int, p: Platform|
                0 <= g2 < g ==> ((#[trigger] context.locked_grouped_conda(g2, p)) is Some)
                    == exists|e: int|
                    project.is_member(e, g2) && #[trigger] context.locked_conda(e, p) is Some,
            forall|g2: int, p: Platform|
                0 <= g2 < g ==> (#[trigger] context.locked_grouped_conda(g2, p) matches Some(v)
                    ==> grouped_baseline_ok(*project, *context, g2, p, v)),
            forall|g2: int, p: Platform|
                g <= g2 < project.group_count() ==> (#[trigger] context.locked_grouped_conda(
                    g2,
                    p,
                )) is None,
            context.locked_repodata_records == old(context).locked_repodata_records,
            context.locked_pypi_records == old(context).locked_pypi_records,
            context.solved_repodata_records == old(context).solved_repodata_records,
            context.grouped_solved_repodata_records == old(
                context,
            ).grouped_solved_repodata_records,
            context.instantiated_conda_prefixes == old(context).instantiated_conda_prefixes,
            context.solved_pypi_records == old(context).solved_pypi_records,
            context.grouped_solved_pypi_records == old(context).grouped_solved_pypi_records,
        decreases group_count - g,
    {
        let mut pi: usize = 0;
        while pi < platforms.len()
            invariant
                pi <= platforms@.len(),
                g < group_count,
                group_count == project.group_count(),
                env_count == project.env_count(),
                project.wf(),
                context.wf(),
                platforms@.len() == 5,
                forall|p: Platform| #[trigger] platforms@.contains(p),
                forall|a: int, b: int|
                    0 <= a < b < platforms@.len() ==> (#[trigger] platforms@[a])
                        != (#[trigger] platforms@[b]),
                forall|g2: int, p: Platform|
                    0 <= g2 < g ==> ((#[trigger] context.locked_grouped_conda(g2, p)) is Some)
                        == exists|e: int|
                        project.is_member(e, g2) && #[trigger] context.locked_conda(e, p) is Some,
                forall|g2: int, p: Platform|
                    0 <= g2 < g ==> (#[trigger] context.locked_grouped_conda(g2, p) matches Some(v)
                        ==> grouped_baseline_ok(*project, *context, g2, p, v)),
                forall|pj: int|
                    0 <= pj < pi ==> {
                        let p = #[trigger] platforms@[pj];
                        &&& ((context.locked_grouped_conda(g as int, p)) is Some) == exists|e: int|
                            project.is_member(e, g as int) && #[trigger] context.locked_conda(
                                e,
                                p,
                            ) is Some
                        &&& (context.locked_grouped_conda(g as int, p) matches Some(v)
                            ==> grouped_baseline_ok(*project, *context, g as int, p, v))
                    },
                forall|g2: int, p: Platform|
                    g < g2 < project.group_count() ==> (#[trigger] context.locked_grouped_conda(
                        g2,
                        p,
                    )) is None,
                forall|p: Platform|
                    !(exists|pj: int| 0 <= pj < pi && (#[trigger] platforms@[pj]) == p)
                        ==> (#[trigger] context.locked_grouped_conda(g as int, p)) is None,
                context.locked_repodata_records == old(context).locked_repodata_records,
                context.locked_pypi_records == old(context).locked_pypi_records,
                context.solved_repodata_records == old(context).solved_repodata_records,
                context.grouped_solved_repodata_records == old(
                    context,
                ).grouped_solved_repodata_records,
                context.instantiated_conda_prefixes == old(context).instantiated_conda_prefixes,
                context.solved_pypi_records == old(context).solved_pypi_records,
                context.grouped_solved_pypi_records == old(context).grouped_solved_pypi_records,
            decreases platforms@.len() - pi,
        {
            let p = platforms[pi];
            let mut acc = RecordsByName::new();
            let mut any = false;
            let mut e: usize = 0;
            while e < env_count
                invariant
                    e <= env_count,
                    g < group_count,
                    group_count == project.group_count(),
                    env_count == project.env_count(),
                    project.wf(),
                    context.wf(),
                    acc.wf(),
                    any == exists|e2: int|
                        0 <= e2 < e && project.is_member(e2, g as int)
                            && #[trigger] context.locked_conda(e2, p) is Some,
                    !any ==> acc@.len() == 0,
                    forall|n: Seq<char>| #[trigger]
                        contains_name(acc@, n) == exists|e2: int|
                            0 <= e2 < e && project.is_member(e2, g as int) && (
                            #[trigger] context.locked_conda(e2, p) matches Some(w)
                                && contains_name(w@, n)),
                    forall|e2: int, i: int|
                        0 <= e2 < e && project.is_member(e2, g as int) && context.locked_conda(
                            e2,
                            p,
                        ) is Some && 0 <= i < context.locked_conda(e2, p).unwrap()@.len()
                            ==> (spec_find(
                            acc@,
                            (#[trigger] context.locked_conda(e2, p).unwrap()@[i]).name,
                        ) matches Some(rv) && rv.version >= context.locked_conda(
                            e2,
                            p,
                        ).unwrap()@[i].version),
                    forall|q: int|
                        0 <= q < acc@.len() ==> exists|e2: int|
                            0 <= e2 < e && project.is_member(e2, g as int) && (
                            #[trigger] context.locked_conda(e2, p) matches Some(w) && w@.contains(
                                #[trigger] acc@[q],
                            )),
                decreases env_count - e,
            {
                if project.environments[e].group == g {
                    let k = make_target_key(e, p);
                    match context.locked_repodata_records.get(k) {
                        Some(w) => {
                            let ghost acc0 = acc@;
                            let merged = acc.merge(w);
                            proof {
                                lemma_grouped_fold_step(
                                    *project,
                                    *context,
                                    g,
                                    p,
                                    e as int,
                                    acc,
                                    *w,
                                    merged,
                                );
                            }
                            acc = merged;
                            any = true;
                        },
                        None => {},
                    }
                } else {
                }
                proof {
                    assert forall|n: Seq<char>| #[trigger] contains_name(acc@, n) == exists|
                        e2: int,
                    |
                        0 <= e2 < e + 1 && project.is_member(e2, g as int) && (
                        #[trigger] context.locked_conda(e2, p) matches Some(w) && contains_name(
                            w@,
                            n,
                        )) by {
                        if contains_name(acc@, n) {
                        } else {
                            if exists|e2: int|
                                0 <= e2 < e + 1 && project.is_member(e2, g as int) && (
                                #[trigger] context.locked_conda(e2, p) matches Some(w)
                                    && contains_name(w@, n)) {
                                let e2 = choose|e2: int|
                                    0 <= e2 < e + 1 && project.is_member(e2, g as int) && (
                                    #[trigger] context.locked_conda(e2, p) matches Some(w)
                                        && contains_name(w@, n));
                                assert(e2 < e);
                            }
                        }
                    }
                }
                e += 1;
            }
            let ghost ctx0 = *context;
            if any {
                let gk = make_target_key(g, p);
                context.locked_grouped_repodata_records.insert(gk, acc);
                proof {
                    assert(context.locked_grouped_conda(g as int, p) == Some(acc));
                }
            } else {
                proof {
                    assert(context.locked_grouped_conda(g as int, p) is None);
                }
            }
            proof {
                assert forall|g2: int, p2: Platform|
                    !(g2 == g as int && p2 == p) && 0 <= g2 < project.group_count() implies (
                #[trigger] context.locked_grouped_conda(g2, p2)) == ctx0.locked_grouped_conda(
                    g2,
                    p2,
                ) by {
                    assert(target_key(g2, p2) != target_key(g as int, p)) by {
                        crate::model::lemma_platform_tag_injective(p2, p);
                    }
                }
                assert(context.locked_repodata_records == ctx0.locked_repodata_records);
                assert forall|g2: int, p2: Platform| 0 <= g2 < g implies ((
                #[trigger] context.locked_grouped_conda(g2, p2)) is Some) == exists|e2: int|
                    project.is_member(e2, g2) && #[trigger] context.locked_conda(e2, p2) is
                        Some by {
                    assert(context.locked_grouped_conda(g2, p2) == ctx0.locked_grouped_conda(
                        g2,
                        p2,
                    ));
                    assert(((ctx0.locked_grouped_conda(g2, p2)) is Some) == exists|e2: int|
                        project.is_member(e2, g2) && #[trigger] ctx0.locked_conda(e2, p2) is Some);
                    if exists|e2: int|
                        project.is_member(e2, g2) && #[trigger] ctx0.locked_conda(e2, p2) is Some {
                        let e2 = choose|e2: int|
                            project.is_member(e2, g2) && #[trigger] ctx0.locked_conda(e2, p2) is
                                Some;
                        assert(context.locked_conda(e2, p2) == ctx0.locked_conda(e2, p2));
                    }
                    if exists|e2: int|
                        project.is_member(e2, g2) && #[trigger] context.locked_conda(e2, p2) is
                            Some {
                        let e2 = choose|e2: int|
                            project.is_member(e2, g2) && #[trigger] context.locked_conda(
                                e2,
                                p2,
                            ) is Some;
                        assert(ctx0.locked_conda(e2, p2) == context.locked_conda(e2, p2));
                    }
                }
                assert forall|g2: int, p2: Platform|
                    0 <= g2 < g && (#[trigger] context.locked_grouped_conda(g2, p2)) is Some
                    implies grouped_baseline_ok(
                    *project,
                    *context,
                    g2,
                    p2,
                    context.locked_grouped_conda(g2, p2).unwrap(),
                ) by {
                    let v = context.locked_grouped_conda(g2, p2).unwrap();
                    assert(context.locked_grouped_conda(g2, p2) == ctx0.locked_grouped_conda(
                        g2,
                        p2,
                    ));
                    assert(grouped_baseline_ok(*project, ctx0, g2, p2, v));
                    lemma_grouped_baseline_same_locked(*project, ctx0, *context, g2, p2, v);
                }
                assert forall|pj: int| 0 <= pj < pi implies {
                    let p2 = #[trigger] platforms@[pj];
                    &&& ((context.locked_grouped_conda(g as int, p2)) is Some) == exists|e2: int|
                        project.is_member(e2, g as int) && #[trigger] context.locked_conda(
                            e2,
                            p2,
                        ) is Some
                    &&& (context.locked_grouped_conda(g as int, p2) matches Some(v)
                        ==> grouped_baseline_ok(*project, *context, g as int, p2, v))
                } by {
                    let p2 = platforms@[pj];
                    assert(p2 != p) by {
                        assert(platforms@[pi as int] == p);
                    }
                    assert(context.locked_grouped_conda(g as int, p2) == ctx0.locked_grouped_conda(
                        g as int,
                        p2,
                    ));
                    assert(((ctx0.locked_grouped_conda(g as int, p2)) is Some) == exists|e2: int|
                        project.is_member(e2, g as int) && #[trigger] ctx0.locked_conda(
                            e2,
                            p2,
                        ) is Some);
                    if exists|e2: int|
                        project.is_member(e2, g as int) && #[trigger] ctx0.locked_conda(
                            e2,
                            p2,
                        ) is Some {
                        let e2 = choose|e2: int|
                            project.is_member(e2, g as int) && #[trigger] ctx0.locked_conda(
                                e2,
                                p2,
                            ) is Some;
                        assert(context.locked_conda(e2, p2) == ctx0.locked_conda(e2, p2));
                    }
                    if exists|e2: int|
                        project.is_member(e2, g as int) && #[trigger] context.locked_conda(
                            e2,
                            p2,
                        ) is Some {
                        let e2 = choose|e2: int|
                            project.is_member(e2, g as int) && #[trigger] context.locked_conda(
                                e2,
                                p2,
                            ) is Some;
                        assert(ctx0.locked_conda(e2, p2) == context.locked_conda(e2, p2));
                    }
                    if ctx0.locked_grouped_conda(g as int, p2) is Some {
                        let v = ctx0.locked_grouped_conda(g as int, p2).unwrap();
                        assert(grouped_baseline_ok(*project, ctx0, g as int, p2, v));
                        lemma_grouped_baseline_same_locked(
                            *project,
                            ctx0,
                            *context,
                            g as int,
                            p2,
                            v,
                        );
                    }
                }
                if any {
                    assert(e == env_count);
                    let e2 = choose|e2: int|
                        0 <= e2 < e && project.is_member(e2, g as int)
                            && #[trigger] ctx0.locked_conda(e2, p) is Some;
                    assert(ctx0.locked_conda(e2, p) is Some);
                    assert(context.locked_conda(e2, p) == ctx0.locked_conda(e2, p));
                    assert(project.is_member(e2, g as int) && context.locked_conda(e2, p) is Some);
                    assert(grouped_baseline_ok(*project, ctx0, g as int, p, acc)) by {
                        assert forall|n: Seq<char>| #[trigger] contains_name(acc@, n) == exists|
                            e3: int,
                        |
                            project.is_member(e3, g as int) && (#[trigger] ctx0.locked_conda(
                                e3,
                                p,
                            ) matches Some(w) && contains_name(w@, n)) by {
                            if contains_name(acc@, n) {
                                let e3 = choose|e3: int|
                                    0 <= e3 < e && project.is_member(e3, g as int) && (
                                    #[trigger] ctx0.locked_conda(e3, p) matches Some(w)
                                        && contains_name(w@, n));
                                assert(project.is_member(e3, g as int));
                            }
                            if exists|e3: int|
                                project.is_member(e3, g as int) && (#[trigger] ctx0.locked_conda(
                                    e3,
                                    p,
                                ) matches Some(w) && contains_name(w@, n)) {
                                let e3 = choose|e3: int|
                                    project.is_member(e3, g as int) && (
                                    #[trigger] ctx0.locked_conda(e3, p) matches Some(w)
                                        && contains_name(w@, n));
                                assert(0 <= e3 < e);
                            }
                        }
                    }
                    lemma_grouped_baseline_same_locked(*project, ctx0, *context, g as int, p, acc);
                    assert(grouped_baseline_ok(*project, *context, g as int, p, acc));
                }
            }
            proof {
                assert(platforms@[pi as int] == p);
                assert forall|p2: Platform|
                    !(exists|pj: int| 0 <= pj < pi + 1 && (#[trigger] platforms@[pj]) == p2)
                    implies (#[trigger] context.locked_grouped_conda(g as int, p2)) is None by {
                    assert(p2 != p) by {
                        if p2 == p {
                            assert(platforms@[pi as int] == p2);
                        }
                    }
                    assert(target_key(g as int, p2) != target_key(g as int, p)) by {
                        crate::model::lemma_platform_tag_injective(p2, p);
                    }
                }
            }
            pi += 1;
        }
        proof {
            assert forall|p: Platform| true implies ((#[trigger] context.locked_grouped_conda(
                g as int,
                p,
            )) is Some) == exists|e: int|
                project.is_member(e, g as int) && #[trigger] context.locked_conda(e, p) is Some by {
                assert(platforms@.contains(p));
                let pj = choose|pj: int|
                    0 <= pj < platforms@.len() && #[trigger] platforms@[pj] == p;
                assert(platforms@[pj] == p);
            }
        }
        g += 1;
    }
}

/// `grouped_baseline_ok` reads only the locked per-environment baseline,
/// so it carries over between context states that agree on it.
proof fn lemma_grouped_baseline_same_locked(
    project: Project,
    a: UpdateContext,
    b: UpdateContext,
    g: int,
    p: Platform,
    v: RecordsByName,
)
    requires
        a.locked_repodata_records == b.locked_repodata_records,
        grouped_baseline_ok(project, a, g, p, v),
    ensures
        grouped_baseline_ok(project, b, g, p, v),
{
    assert forall|e2: int| true implies #[trigger] b.locked_conda(e2, p) == a.locked_conda(
        e2,
        p,
    ) by {}
    assert forall|q: int| 0 <= q < v@.len() implies exists|e: int|
        project.is_member(e, g) && (#[trigger] b.locked_conda(e, p) matches Some(w) && w@.contains(
            #[trigger] v@[q],
        )) by {
        let e = choose|e: int|
            project.is_member(e, g) && (#[trigger] a.locked_conda(e, p) matches Some(w)
                && w@.contains(v@[q]));
        assert(b.locked_conda(e, p) == a.locked_conda(e, p));
    }
    assert forall|n: Seq<char>| #[trigger] contains_name(v@, n) == exists|e: int|
        project.is_member(e, g) && (#[trigger] b.locked_conda(e, p) matches Some(w)
            && contains_name(w@, n)) by {
        if contains_name(v@, n) {
            let e = choose|e: int|
                project.is_member(e, g) && (#[trigger] a.locked_conda(e, p) matches Some(w)
                    && contains_name(w@, n));
            assert(b.locked_conda(e, p) == a.locked_conda(e, p));
        }
        if exists|e: int|
            project.is_member(e, g) && (#[trigger] b.locked_conda(e, p) matches Some(w)
                && contains_name(w@, n)) {
            let e = choose|e: int|
                project.is_member(e, g) && (#[trigger] b.locked_conda(e, p) matches Some(w)
                    && contains_name(w@, n));
            assert(a.locked_conda(e, p) == b.locked_conda(e, p));
        }
    }
}

/// Merging one member's baseline into the accumulator keeps the fold facts.
proof fn lemma_grouped_fold_step(
    project: Project,
    context: UpdateContext,
    g: usize,
    p: Platform,
    e: int,
    acc: RecordsByName,
    w: RecordsByName,
    merged: RecordsByName,
)
    requires
        project.wf(),
        acc.wf(),
        context.locked_conda(e, p) == Some(w),
        project.is_member(e, g as int),
        // merge ensures
        merged.wf(),
        forall|q: int| 0 <= q < merged@.len() ==> crate::records::merged_from(acc@ + w@, #[trigger] merged@[q]),
        forall|n: Seq<char>| #[trigger]
            contains_name(merged@, n) == (contains_name(acc@, n) || contains_name(w@, n)),
        forall|i: int|
            0 <= i < acc@.len() ==> spec_find(merged@, (#[trigger] acc@[i]).name).unwrap().version
                >= acc@[i].version,
        forall|i: int|
            0 <= i < w@.len() ==> spec_find(merged@, (#[trigger] w@[i]).name).unwrap().version
                >= w@[i].version,
        // fold facts so far
        forall|n: Seq<char>| #[trigger]
            contains_name(acc@, n) == exists|e2: int|
                0 <= e2 < e && project.is_member(e2, g as int) && (
                #[trigger] context.locked_conda(e2, p) matches Some(w2) && contains_name(w2@, n)),
        forall|e2: int, i: int|
            0 <= e2 < e && project.is_member(e2, g as int) && context.locked_conda(e2, p) is Some
                && 0 <= i < context.locked_conda(e2, p).unwrap()@.len() ==> (spec_find(
                acc@,
                (#[trigger] context.locked_conda(e2, p).unwrap()@[i]).name,
            ) matches Some(rv) && rv.version >= context.locked_conda(e2, p).unwrap()@[i].version),
        forall|q: int|
            0 <= q < acc@.len() ==> exists|e2: int|
                0 <= e2 < e && project.is_member(e2, g as int) && (
                #[trigger] context.locked_conda(e2, p) matches Some(w2) && w2@.contains(
                    #[trigger] acc@[q],
                )),
    ensures
        forall|n: Seq<char>| #[trigger]
            contains_name(merged@, n) == exists|e2: int|
                0 <= e2 < e + 1 && project.is_member(e2, g as int) && (
                #[trigger] context.locked_conda(e2, p) matches Some(w2) && contains_name(w2@, n)),
        forall|e2: int, i: int|
            0 <= e2 < e + 1 && project.is_member(e2, g as int) && context.locked_conda(e2, p) is
                Some && 0 <= i < context.locked_conda(e2, p).unwrap()@.len() ==> (spec_find(
                merged@,
                (#[trigger] context.locked_conda(e2, p).unwrap()@[i]).name,
            ) matches Some(rv) && rv.version >= context.locked_conda(e2, p).unwrap()@[i].version),
        forall|q: int|
            0 <= q < merged@.len() ==> exists|e2: int|
                0 <= e2 < e + 1 && project.is_member(e2, g as int) && (
                #[trigger] context.locked_conda(e2, p) matches Some(w2) && w2@.contains(
                    #[trigger] merged@[q],
                )),
{
    assert forall|q: int| 0 <= q < merged@.len() implies exists|e2: int|
        0 <= e2 < e + 1 && project.is_member(e2, g as int) && (#[trigger] context.locked_conda(
            e2,
            p,
        ) matches Some(w2) && w2@.contains(#[trigger] merged@[q])) by {
        let rec = merged@[q];
        assert(crate::records::merged_from(acc@ + w@, rec));
        let k = choose|k: int|
            0 <= k < (acc@ + w@).len() && #[trigger] (acc@ + w@)[k] == rec && (forall|j: int|
                0 <= j < (acc@ + w@).len() && (#[trigger] (acc@ + w@)[j].name) == rec.name ==> (
                acc@ + w@)[j].version <= rec.version) && (forall|j: int|
                0 <= j < k && (#[trigger] (acc@ + w@)[j].name) == rec.name ==> (acc@
                    + w@)[j].version < rec.version);
        if k < acc@.len() {
            assert(acc@[k] == rec);
            assert(acc@.contains(rec)) by {
                assert(acc@[k] == rec);
            }
            let e2 = choose|e2: int|
                0 <= e2 < e && project.is_member(e2, g as int) && (
                #[trigger] context.locked_conda(e2, p) matches Some(w2) && w2@.contains(
                    acc@[k],
                ));
            assert(0 <= e2 < e + 1);
        } else {
            assert(w@[k - acc@.len()] == rec);
            assert(w@.contains(rec)) by {
                assert(w@[k - acc@.len()] == rec);
            }
            assert(context.locked_conda(e, p) == Some(w));
        }
    }
    assert forall|n: Seq<char>| #[trigger] contains_name(merged@, n) == exists|e2: int|
        0 <= e2 < e + 1 && project.is_member(e2, g as int) && (#[trigger] context.locked_conda(
            e2,
            p,
        ) matches Some(w2) && contains_name(w2@, n)) by {
        if contains_name(merged@, n) {
            if contains_name(acc@, n) {
                let e2 = choose|e2: int|
                    0 <= e2 < e && project.is_member(e2, g as int) && (
                    #[trigger] context.locked_conda(e2, p) matches Some(w2) && contains_name(
                        w2@,
                        n,
                    ));
                assert(0 <= e2 < e + 1);
            } else {
                assert(contains_name(w@, n));
                assert(context.locked_conda(e, p) == Some(w));
            }
        } else {
            if exists|e2: int|
                0 <= e2 < e + 1 && project.is_member(e2, g as int) && (
                #[trigger] context.locked_conda(e2, p) matches Some(w2) && contains_name(
                    w2@,
                    n,
                )) {
                let e2 = choose|e2: int|
                    0 <= e2 < e + 1 && project.is_member(e2, g as int) && (
                    #[trigger] context.locked_conda(e2, p) matches Some(w2) && contains_name(
                        w2@,
                        n,
                    ));
                if e2 < e {
                    assert(contains_name(acc@, n));
                } else {
                    assert(contains_name(w@, n));
                }
                assert(false);
            }
        }
    }
    assert forall|e2: int, i: int|
        0 <= e2 < e + 1 && project.is_member(e2, g as int) && context.locked_conda(e2, p) is Some
            && 0 <= i < context.locked_conda(e2, p).unwrap()@.len() implies spec_find(
        merged@,
        (#[trigger] context.locked_conda(e2, p).unwrap()@[i]).name,
    ) matches Some(rv) && rv.version >= context.locked_conda(e2, p).unwrap()@[i].version by {
        let w2 = context.locked_conda(e2, p).unwrap();
        let n = w2@[i].name;
        if e2 < e {
            assert(spec_find(acc@, n) matches Some(rv0) && rv0.version >= w2@[i].version);
            crate::records::lemma_first_idx_bounds(acc@, n);
            let fi = crate::records::first_idx(acc@, n);
            assert(acc@[fi].name == n);
            assert(spec_find(merged@, acc@[fi].name).unwrap().version >= acc@[fi].version);
            assert(contains_name(merged@, n)) by {
                assert(contains_name(acc@, n)) by {
                    assert(acc@[fi].name == n);
                }
            }
            crate::records::lemma_first_idx_bounds(merged@, n);
        } else {
            assert(w2 == w);
            assert(spec_find(merged@, w@[i].name).unwrap().version >= w@[i].version);
            assert(contains_name(merged@, n)) by {
                assert(contains_name(w@, n)) by {
                    assert(w@[i].name == n);
                }
            }
            crate::records::lemma_first_idx_bounds(merged@, n);
        }
    }
}

/// The group's system-level records for `p` can be had this run: a group
/// solve is requested, or some member's records are locked for `p`.
pub open spec fn group_conda_obtainable(
    project: Project,
    outdated: OutdatedEnvironments,
    lock_file: LockFileModel,
    g: int,
    p: Platform,
) -> bool {
    conda_group_requested(project, outdated, g, p) || exists|e: int|
        #![trigger project.is_member(e, g)]
        project.is_member(e, g) && lock_file.has_target(project.environments@[e].name@, p)
}

/// The environment's system-level records for `p` can be had this run.
pub open spec fn env_conda_obtainable(
    project: Project,
    outdated: OutdatedEnvironments,
    lock_file: LockFileModel,
    e: int,
    p: Platform,
) -> bool {
    outdated.conda_stale(e, p) || lock_file.has_target(project.environments@[e].name@, p)
}

/// Every language-level target has the system-level sources it depends on:
/// each group to materialize can get its records for the running platform,
/// and each stale pair with language-level dependencies can get both its
/// group's and its own system-level records.
pub open spec fn pypi_sources_ok(
    project: Project,
    outdated: OutdatedEnvironments,
    lock_file: LockFileModel,
    current_platform: Platform,
) -> bool {
    &&& forall|g: int|
        0 <= g < project.group_count() && #[trigger] prefix_needed(project, outdated, g)
            ==> group_conda_obtainable(project, outdated, lock_file, g, current_platform)
    &&& forall|e: int, p: Platform|
        #![trigger project.env_has_pypi_dep(e, p), outdated.pypi_stale(e, p)]
        0 <= e < project.env_count() && outdated.pypi_stale(e, p) && project.env_has_pypi_dep(
            e,
            p,
        ) ==> group_conda_obtainable(project, outdated, lock_file, project.group_of(e), p)
            && env_conda_obtainable(project, outdated, lock_file, e, p)
}

/// Decides what an update run must do.  With checking disabled or nothing
/// stale, the lock file stands as it is.  With staleness present but
/// updates forbidden, the run fails before any task is spawned.  Otherwise
/// the baseline is read, merged per group, and the task plan built: one
/// system-level solve per stale (group, platform), one extraction per
/// stale (environment, platform), at most one materialization per group
/// that needs one, and the language-level counterparts — with environments
/// that declare no language-level dependencies short-circuited.
pub fn start_update(
    project: &Project,
    lock_file: LockFileModel,
    outdated: &OutdatedEnvironments,
    options: &UpdateLockFileOptions,
    current_platform: Platform,
    available_parallelism: usize,
) -> (r: Result<UpdateOutcome, UpdateError>)
    requires
        project.wf(),
        lock_file.wf(),
        outdated.wf(*project),
    ensures
        options.lock_file_usage == LockFileUsage::NeverCheck || (outdated.conda_entries().len()
            == 0 && outdated.pypi_entries().len() == 0) ==> (r matches Ok(
            UpdateOutcome::UpToDate(lf),
        ) && lf == lock_file),
        options.lock_file_usage == LockFileUsage::CheckOnly && !(outdated.conda_entries().len()
            == 0 && outdated.pypi_entries().len() == 0) ==> r matches Err(
            UpdateError::StalenessPolicy,
        ),
        r matches Ok(UpdateOutcome::Run(plan)) ==> {
            &&& options.lock_file_usage == LockFileUsage::AllowUpdate
            &&& plan.context.wf()
            &&& forall|g: int, p: Platform|
                0 <= g < project.group_count() ==> (#[trigger] plan.context.conda_group_cell(
                    g,
                    p,
                ) is Some) == conda_group_requested(*project, *outdated, g, p)
            &&& forall|g: usize, p: Platform|
                (g as int) < project.group_count() ==> #[trigger] count_task(
                    plan.tasks@,
                    TaskSpec::SolveCondaGroup { group: g, platform: p },
                ) == if conda_group_requested(*project, *outdated, g as int, p) {
                    1int
                } else {
                    0int
                }
            &&& forall|e: int, p: Platform|
                0 <= e < project.env_count() ==> (#[trigger] plan.context.conda_env_cell(e, p) is
                Some) == outdated.conda_stale(e, p)
            &&& forall|g: int, p: Platform|
                0 <= g < project.group_count() ==> match #[trigger] plan.context.conda_group_cell(
                    g,
                    p,
                ) {
                    Some(c) => !c.is_set(),
                    None => true,
                }
            &&& forall|e: int, p: Platform|
                0 <= e < project.env_count() ==> match #[trigger] plan.context.conda_env_cell(
                    e,
                    p,
                ) {
                    Some(c) => !c.is_set(),
                    None => true,
                }
            &&& forall|g: int|
                0 <= g < project.group_count() ==> match #[trigger] plan.context.prefix_cell(g) {
                    Some(c) => !c.is_set(),
                    None => true,
                }
            &&& forall|g: int, p: Platform|
                0 <= g < project.group_count() ==> match #[trigger] plan.context.pypi_group_cell(
                    g,
                    p,
                ) {
                    Some(c) => !c.is_set(),
                    None => true,
                }
            &&& forall|e: int, p: Platform|
                0 <= e < project.env_count() ==> match #[trigger] plan.context.pypi_env_cell(
                    e,
                    p,
                ) {
                    Some(c) => !c.is_set(),
                    None => true,
                }
            &&& forall|e: usize, p: Platform|
                (e as int) < project.env_count() ==> #[trigger] count_task(
                    plan.tasks@,
                    TaskSpec::ExtractCondaEnv { environment: e, platform: p },
                ) == if outdated.conda_stale(e as int, p) {
                    1int
                } else {
                    0int
                }
            &&& forall|e: usize, p: Platform|
                (e as int) < project.env_count() ==> #[trigger] count_task(
                    plan.tasks@,
                    TaskSpec::ExtractPypiEnv { environment: e, platform: p },
                ) == if outdated.pypi_stale(e as int, p) && project.env_has_pypi_dep(e as int, p) {
                    1int
                } else {
                    0int
                }
            &&& forall|g: int|
                0 <= g < project.group_count() ==> (#[trigger] plan.context.prefix_cell(g) is Some)
                    == prefix_needed(*project, *outdated, g)
            &&& forall|g: usize|
                (g as int) < project.group_count() ==> #[trigger] count_task(
                    plan.tasks@,
                    TaskSpec::InstantiatePrefix { group: g },
                ) == if prefix_needed(*project, *outdated, g as int) {
                    1int
                } else {
                    0int
                }
            &&& forall|g: int, p: Platform|
                0 <= g < project.group_count() ==> (#[trigger] plan.context.pypi_group_cell(
                    g,
                    p,
                ) is Some) == pypi_group_requested(*project, *outdated, g, p)
            &&& forall|g: usize, p: Platform|
                (g as int) < project.group_count() ==> #[trigger] count_task(
                    plan.tasks@,
                    TaskSpec::SolvePypiGroup { group: g, platform: p },
                ) == if pypi_group_requested(*project, *outdated, g as int, p) {
                    1int
                } else {
                    0int
                }
            &&& forall|e: int, p: Platform|
                0 <= e < project.env_count() ==> (#[trigger] plan.context.pypi_env_cell(e, p) is
                Some) == outdated.pypi_stale(e, p)
            &&& forall|e: usize, p: Platform|
                (e as int) < project.env_count() ==> #[trigger] count_task(
                    plan.tasks@,
                    TaskSpec::PypiShortCircuit { environment: e, platform: p },
                ) == if outdated.pypi_stale(e as int, p) && !project.env_has_pypi_dep(
                    e as int,
                    p,
                ) {
                    1int
                } else {
                    0int
                }
            &&& forall|e: int, p: Platform|
                0 <= e < project.env_count() ==> {
                    let name = project.environments@[e].name@;
                    &&& (#[trigger] plan.context.locked_conda(e, p) is Some)
                        == lock_file.has_target(name, p)
                    &&& (plan.context.locked_conda(e, p) matches Some(v) ==> v.wf() && v@
                        == lock_file.target_conda(name, p))
                    &&& (plan.context.locked_pypi(e, p) is Some) == lock_file.has_target(name, p)
                    &&& (plan.context.locked_pypi(e, p) matches Some(v) ==> v.wf() && v@
                        == lock_file.target_pypi(name, p))
                }
            &&& forall|g: int, p: Platform|
                0 <= g < project.group_count() ==> (#[trigger] plan.context.locked_grouped_conda(
                    g,
                    p,
                ) matches Some(v) ==> grouped_baseline_ok(*project, plan.context, g, p, v))
            &&& targets_unique(plan.fetch_targets@)
            &&& targets_sound(*project, *outdated, options.existing_repo_data@, plan.fetch_targets@)
            &&& plan.max_concurrent_solves == (match options.max_concurrent_solves {
                Some(n) => n,
                None => if available_parallelism <= 3 {
                    1usize
                } else if available_parallelism <= 6 {
                    (available_parallelism - 2) as usize
                } else {
                    4usize
                },
            })
        },
        r matches Err(e) ==> (e matches UpdateError::StalenessPolicy || e matches
            UpdateError::NoInstallConflict { .. } || e matches UpdateError::MissingGroupRecords {
            ..
        } || e matches UpdateError::MissingEnvironmentRecords { .. }),
        // When the run is allowed and needed, every failure has its cause,
        // and absent every cause the plan is owed.
        options.lock_file_usage != LockFileUsage::NeverCheck && !(outdated.conda_entries().len()
            == 0 && outdated.pypi_entries().len() == 0) ==> !(r matches Ok(
            UpdateOutcome::UpToDate(..),
        )),
        (r matches Err(UpdateError::StalenessPolicy)) == (options.lock_file_usage
            == LockFileUsage::CheckOnly && !(outdated.conda_entries().len() == 0
            && outdated.pypi_entries().len() == 0)),
        (r matches Err(UpdateError::NoInstallConflict { .. })) == (options.lock_file_usage
            == LockFileUsage::AllowUpdate && !(outdated.conda_entries().len() == 0
            && outdated.pypi_entries().len() == 0) && options.no_install && any_pypi_work(
            *project,
            *outdated,
        )),
        r matches Err(UpdateError::MissingGroupRecords { group, platform }) ==> {
            &&& options.lock_file_usage == LockFileUsage::AllowUpdate
            &&& 0 <= (group as int) < project.group_count()
            &&& !conda_group_requested(*project, *outdated, group as int, platform)
            &&& forall|e: int|
                #![trigger project.is_member(e, group as int)]
                project.is_member(e, group as int) ==> !lock_file.has_target(
                    project.environments@[e].name@,
                    platform,
                )
        },
        r matches Err(UpdateError::MissingEnvironmentRecords { environment, platform }) ==> {
            &&& options.lock_file_usage == LockFileUsage::AllowUpdate
            &&& 0 <= (environment as int) < project.env_count()
            &&& outdated.pypi_stale(environment as int, platform)
            &&& project.env_has_pypi_dep(environment as int, platform)
            &&& !outdated.conda_stale(environment as int, platform)
            &&& !lock_file.has_target(project.environments@[environment as int].name@, platform)
        },
        options.lock_file_usage == LockFileUsage::AllowUpdate && !(outdated.conda_entries().len()
            == 0 && outdated.pypi_entries().len() == 0) && !(options.no_install && any_pypi_work(
            *project,
            *outdated,
        )) && pypi_sources_ok(*project, *outdated, lock_file, current_platform) ==> r matches Ok(
            UpdateOutcome::Run(..),
        ),
{
    if !options.lock_file_usage.should_check_if_out_of_date() {
        return Ok(UpdateOutcome::UpToDate(lock_file));
    }
    if outdated.is_empty() {
        return Ok(UpdateOutcome::UpToDate(lock_file));
    }
    if !options.lock_file_usage.allows_lock_file_updates() {
        return Err(UpdateError::StalenessPolicy);
    }
    let fetch_targets = compute_fetch_targets(project, outdated, &options.existing_repo_data);
    let mut context = UpdateContext::new();
    load_locked_records(project, &lock_file, &mut context);
    let ghost ctx_loaded = context;
    build_grouped_locked(project, &mut context);
    let ghost ctx_base = context;
    let mut tasks: Vec<TaskSpec> = Vec::new();
    plan_conda(project, outdated, current_platform, &mut context, &mut tasks);
    let ghost ctx_conda = context;
    let ghost tasks_conda = tasks@;
    match plan_prefixes(project, outdated, options.no_install, current_platform, &mut context, &mut tasks) {
        Ok(()) => {},
        Err(e) => {
            match &e {
                UpdateError::MissingGroupRecords { group, platform } => {
                    proof {
                        let g2 = *group as int;
                        let p2 = *platform;
                        assert(!group_conda_source_ok(ctx_conda, g2, p2));
                        assert(ctx_conda.conda_group_cell(g2, p2) is None);
                        assert(!conda_group_requested(*project, *outdated, g2, p2));
                        assert(ctx_conda.locked_grouped_repodata_records
                            == ctx_base.locked_grouped_repodata_records);
                        assert(ctx_base.locked_grouped_conda(g2, p2) is None);
                        assert forall|e2: int| #[trigger]
                            project.is_member(e2, g2) implies !lock_file.has_target(
                            project.environments@[e2].name@,
                            p2,
                        ) by {
                            if lock_file.has_target(project.environments@[e2].name@, p2) {
                                assert(ctx_loaded.locked_conda(e2, p2) is Some);
                                assert(ctx_base.locked_conda(e2, p2) == ctx_loaded.locked_conda(
                                    e2,
                                    p2,
                                ));
                                assert(ctx_base.locked_grouped_conda(g2, p2) is Some);
                                assert(false);
                            }
                        }
                        if pypi_sources_ok(*project, *outdated, lock_file, current_platform) {
                            assert(crate::plan::prefix_needed(*project, *outdated, g2));
                            assert(group_conda_obtainable(
                                *project,
                                *outdated,
                                lock_file,
                                g2,
                                current_platform,
                            ));
                            if exists|e2: int|
                                #![trigger project.is_member(e2, g2)]
                                project.is_member(e2, g2) && lock_file.has_target(
                                    project.environments@[e2].name@,
                                    current_platform,
                                ) {
                                let e2 = choose|e2: int|
                                    #![trigger project.is_member(e2, g2)]
                                    project.is_member(e2, g2) && lock_file.has_target(
                                        project.environments@[e2].name@,
                                        current_platform,
                                    );
                                assert(!lock_file.has_target(
                                    project.environments@[e2].name@,
                                    p2,
                                ));
                            }
                            assert(false);
                        }
                    }
                },
                _ => {},
            }
            return Err(e);
        },
    }
    let ghost ctx_prefix = context;
    let ghost tasks_prefix = tasks@;
    proof {
        assert forall|e: int, p: Platform|
            #![trigger project.env_has_pypi_dep(e, p), context.prefix_cell(project.group_of(e))]
            outdated.pypi_stale(e, p) && 0 <= e < project.env_count() && project.env_has_pypi_dep(
                e,
                p,
            ) implies context.prefix_cell(project.group_of(e)) is Some by {
            let ii = choose|ii: int|
                0 <= ii < outdated.pypi_entries().len() && ((
                #[trigger] outdated.pypi_entries()[ii]).0 as int) == e
                    && outdated.pypi_entries()[ii].1.contains(p);
            let pj = choose|pj: int|
                0 <= pj < outdated.pypi_entries()[ii].1.len()
                    && #[trigger] outdated.pypi_entries()[ii].1[pj] == p;
            assert(crate::plan::prefix_needed(*project, *outdated, project.group_of(e))) by {
                assert(0 <= ii < outdated.pypi_entries().len() && project.group_of(
                    outdated.pypi_entries()[ii].0 as int,
                ) == project.group_of(e) && 0 <= pj < outdated.pypi_entries()[ii].1.len()
                    && project.env_has_pypi_dep(
                    outdated.pypi_entries()[ii].0 as int,
                    outdated.pypi_entries()[ii].1[pj],
                ));
            }
        }
    }
    match plan_pypi(project, outdated, &mut context, &mut tasks) {
        Ok(()) => {},
        Err(e) => {
            proof {
                assert(ctx_prefix.grouped_solved_repodata_records
                    == ctx_conda.grouped_solved_repodata_records);
                assert(ctx_prefix.solved_repodata_records == ctx_conda.solved_repodata_records);
                assert(ctx_prefix.locked_grouped_repodata_records
                    == ctx_base.locked_grouped_repodata_records);
                assert(ctx_prefix.locked_repodata_records == ctx_loaded.locked_repodata_records);
            }
            match &e {
                UpdateError::MissingGroupRecords { group, platform } => {
                    proof {
                        let g2 = *group as int;
                        let p2 = *platform;
                        assert(crate::plan::pypi_group_requested(*project, *outdated, g2, p2));
                        assert(!group_conda_source_ok(ctx_prefix, g2, p2));
                        assert(ctx_conda.conda_group_cell(g2, p2) == ctx_prefix.conda_group_cell(
                            g2,
                            p2,
                        ));
                        assert(!conda_group_requested(*project, *outdated, g2, p2));
                        assert(ctx_base.locked_grouped_conda(g2, p2) == ctx_prefix.locked_grouped_conda(
                            g2,
                            p2,
                        ));
                        assert forall|e2: int| #[trigger]
                            project.is_member(e2, g2) implies !lock_file.has_target(
                            project.environments@[e2].name@,
                            p2,
                        ) by {
                            if lock_file.has_target(project.environments@[e2].name@, p2) {
                                assert(ctx_loaded.locked_conda(e2, p2) is Some);
                                assert(ctx_base.locked_conda(e2, p2) == ctx_loaded.locked_conda(
                                    e2,
                                    p2,
                                ));
                                assert(ctx_base.locked_grouped_conda(g2, p2) is Some);
                                assert(false);
                            }
                        }
                        if pypi_sources_ok(*project, *outdated, lock_file, current_platform) {
                            let l = outdated.pypi_entries();
                            let ii = choose|ii: int|
                                0 <= ii < l.len() && project.group_of((#[trigger] l[ii]).0 as int)
                                    == g2 && l[ii].1.contains(p2) && project.env_has_pypi_dep(
                                    l[ii].0 as int,
                                    p2,
                                );
                            let e2 = l[ii].0 as int;
                            assert(outdated.pypi_stale(e2, p2));
                            assert(0 <= e2 < project.env_count());
                            assert(group_conda_obtainable(
                                *project,
                                *outdated,
                                lock_file,
                                g2,
                                p2,
                            ));
                            if exists|e3: int|
                                #![trigger project.is_member(e3, g2)]
                                project.is_member(e3, g2) && lock_file.has_target(
                                    project.environments@[e3].name@,
                                    p2,
                                ) {
                                let e3 = choose|e3: int|
                                    #![trigger project.is_member(e3, g2)]
                                    project.is_member(e3, g2) && lock_file.has_target(
                                        project.environments@[e3].name@,
                                        p2,
                                    );
                                assert(!lock_file.has_target(
                                    project.environments@[e3].name@,
                                    p2,
                                ));
                            }
                            assert(false);
                        }
                    }
                },
                UpdateError::MissingEnvironmentRecords { environment, platform } => {
                    proof {
                        let e2 = *environment as int;
                        let p2 = *platform;
                        assert(outdated.pypi_stale(e2, p2) && project.env_has_pypi_dep(e2, p2));
                        assert(0 <= e2 < project.env_count());
                        assert(!env_conda_source_ok(ctx_prefix, e2, p2));
                        assert(ctx_conda.conda_env_cell(e2, p2) == ctx_prefix.conda_env_cell(
                            e2,
                            p2,
                        ));
                        assert(!outdated.conda_stale(e2, p2));
                        assert(ctx_loaded.locked_conda(e2, p2) == ctx_prefix.locked_conda(e2, p2));
                        assert(!lock_file.has_target(project.environments@[e2].name@, p2));
                        if pypi_sources_ok(*project, *outdated, lock_file, current_platform) {
                            assert(env_conda_obtainable(*project, *outdated, lock_file, e2, p2));
                            assert(false);
                        }
                    }
                },
                _ => {},
            }
            return Err(e);
        },
    }
    proof {
        // The later phases leave the earlier phases' registrations and
        // task counts untouched.
        assert(context.grouped_solved_repodata_records
            == ctx_conda.grouped_solved_repodata_records);
        assert(context.solved_repodata_records == ctx_conda.solved_repodata_records);
        assert(context.locked_repodata_records == ctx_base.locked_repodata_records);
        assert(context.locked_pypi_records == ctx_base.locked_pypi_records);
        assert(context.locked_grouped_repodata_records
            == ctx_base.locked_grouped_repodata_records);
        assert(context.instantiated_conda_prefixes == ctx_prefix.instantiated_conda_prefixes);
        assert forall|g: int, p: Platform| 0 <= g < project.group_count() implies ((
        #[trigger] context.conda_group_cell(g, p)) is Some) == conda_group_requested(
            *project,
            *outdated,
            g,
            p,
        ) by {
            assert(context.conda_group_cell(g, p) == ctx_conda.conda_group_cell(g, p));
        }
        assert forall|e: int, p: Platform| 0 <= e < project.env_count() implies ((
        #[trigger] context.conda_env_cell(e, p)) is Some) == outdated.conda_stale(e, p) by {
            assert(context.conda_env_cell(e, p) == ctx_conda.conda_env_cell(e, p));
        }
        assert forall|g: int| 0 <= g < project.group_count() implies ((
        #[trigger] context.prefix_cell(g)) is Some) == prefix_needed(*project, *outdated, g) by {
            assert(context.prefix_cell(g) == ctx_prefix.prefix_cell(g));
        }
        assert forall|g: int, p: Platform| 0 <= g < project.group_count() implies match
            #[trigger] context.conda_group_cell(g, p) {
            Some(c) => !c.is_set(),
            None => true,
        } by {
            assert(context.conda_group_cell(g, p) == ctx_conda.conda_group_cell(g, p));
        }
        assert forall|e: int, p: Platform| 0 <= e < project.env_count() implies match
            #[trigger] context.conda_env_cell(e, p) {
            Some(c) => !c.is_set(),
            None => true,
        } by {
            assert(context.conda_env_cell(e, p) == ctx_conda.conda_env_cell(e, p));
        }
        assert forall|g: int| 0 <= g < project.group_count() implies match
            #[trigger] context.prefix_cell(g) {
            Some(c) => !c.is_set(),
            None => true,
        } by {
            assert(context.prefix_cell(g) == ctx_prefix.prefix_cell(g));
        }
        assert forall|e: usize, p: Platform| (e as int) < project.env_count() implies (
        #[trigger] count_task(tasks@, TaskSpec::ExtractCondaEnv { environment: e, platform: p }))
            == if outdated.conda_stale(e as int, p) {
            1int
        } else {
            0int
        } by {
            assert(count_task(tasks@, TaskSpec::ExtractCondaEnv { environment: e, platform: p })
                == count_task(
                tasks_prefix,
                TaskSpec::ExtractCondaEnv { environment: e, platform: p },
            ));
            assert(count_task(
                tasks_prefix,
                TaskSpec::ExtractCondaEnv { environment: e, platform: p },
            ) == count_task(tasks_conda, TaskSpec::ExtractCondaEnv { environment: e, platform: p }));
        }
        assert forall|g: usize, p: Platform| (g as int) < project.group_count() implies (
        #[trigger] count_task(tasks@, TaskSpec::SolveCondaGroup { group: g, platform: p }))
            == if conda_group_requested(*project, *outdated, g as int, p) {
            1int
        } else {
            0int
        } by {
            assert(count_task(tasks@, TaskSpec::SolveCondaGroup { group: g, platform: p })
                == count_task(
                tasks_prefix,
                TaskSpec::SolveCondaGroup { group: g, platform: p },
            ));
            assert(count_task(tasks_prefix, TaskSpec::SolveCondaGroup { group: g, platform: p })
                == count_task(tasks_conda, TaskSpec::SolveCondaGroup { group: g, platform: p }));
        }
        assert forall|g: usize| (g as int) < project.group_count() implies (#[trigger] count_task(
            tasks@,
            TaskSpec::InstantiatePrefix { group: g },
        )) == if prefix_needed(*project, *outdated, g as int) {
            1int
        } else {
            0int
        } by {
            assert(count_task(tasks@, TaskSpec::InstantiatePrefix { group: g }) == count_task(
                tasks_prefix,
                TaskSpec::InstantiatePrefix { group: g },
            ));
        }
        assert forall|e: int, p: Platform| 0 <= e < project.env_count() implies {
            let name = project.environments@[e].name@;
            &&& ((#[trigger] context.locked_conda(e, p)) is Some) == lock_file.has_target(name, p)
            &&& (context.locked_conda(e, p) matches Some(v) ==> v.wf() && v@
                == lock_file.target_conda(name, p))
            &&& (context.locked_pypi(e, p) is Some) == lock_file.has_target(name, p)
            &&& (context.locked_pypi(e, p) matches Some(v) ==> v.wf() && v@
                == lock_file.target_pypi(name, p))
        } by {
            assert(ctx_base.locked_conda(e, p) == ctx_loaded.locked_conda(e, p));
            assert(ctx_base.locked_pypi(e, p) == ctx_loaded.locked_pypi(e, p));
            assert(context.locked_conda(e, p) == ctx_base.locked_conda(e, p));
            assert(context.locked_pypi(e, p) == ctx_base.locked_pypi(e, p));
        }
        assert forall|g: int, p: Platform|
            0 <= g < project.group_count() && (#[trigger] context.locked_grouped_conda(
                g,
                p,
            )) is Some implies grouped_baseline_ok(
            *project,
            context,
            g,
            p,
            context.locked_grouped_conda(g, p).unwrap(),
        ) by {
            let v = context.locked_grouped_conda(g, p).unwrap();
            assert(context.locked_grouped_conda(g, p) == ctx_base.locked_grouped_conda(g, p));
            assert(grouped_baseline_ok(*project, ctx_base, g, p, v));
            lemma_grouped_baseline_same_locked(*project, ctx_base, context, g, p, v);
        }
    }
    let max_concurrent_solves = match options.max_concurrent_solves {
        Some(n) => n,
        None => default_max_concurrent_solves(available_parallelism),
    };
    Ok(UpdateOutcome::Run(RunPlan { context, tasks, fetch_targets, max_concurrent_solves }))
}

/// The five platforms, each exactly once.
fn platform_list() -> (r: Vec<Platform>)
    ensures
        r@.len() == 5,
        forall|p: Platform| #[trigger] r@.contains(p),
        forall|a: int, b: int|
            0 <= a < b < r@.len() ==> (#[trigger] r@[a]) != (#[trigger] r@[b]),
{
    let mut r: Vec<Platform> = Vec::new();
    r.push(Platform::Linux64);
    r.push(Platform::Win64);
    r.push(Platform::Osx64);
    r.push(Platform::OsxArm64);
    r.push(Platform::NoArch);
    proof {
        assert(r@ =~= seq![
            Platform::Linux64,
            Platform::Win64,
            Platform::Osx64,
            Platform::OsxArm64,
            Platform::NoArch,
        ]);
        assert forall|p: Platform| #[trigger] r@.contains(p) by {
            match p {
                Platform::Linux64 => assert(r@[0] == p),
                Platform::Win64 => assert(r@[1] == p),
                Platform::Osx64 => assert(r@[2] == p),
                Platform::OsxArm64 => assert(r@[3] == p),
                Platform::NoArch => assert(r@[4] == p),
            }
        }
    }
    r
}

/// One locked target was inserted: the per-pair facts advance.
proof fn lemma_load_step(
    project: Project,
    lock_file: LockFileModel,
    e: usize,
    i: int,
    j: int,
    platform: Platform,
    ctx0: UpdateContext,
    ctx1: UpdateContext,
    orig: UpdateContext,
)
    requires
        project.wf(),
        lock_file.wf(),
        (e as int) < project.env_count(),
        project.env_count() <= usize::MAX as int,
        0 <= i < lock_file.environments@.len(),
        lock_file.environments@[i].name@ == project.environments@[e as int].name@,
        0 <= j < lock_file.environments@[i].targets@.len(),
        lock_file.environments@[i].targets@[j].platform == platform,
        // before
        forall|e2: int, p: Platform|
            0 <= e2 < e ==> {
                let n2 = project.environments@[e2].name@;
                &&& (#[trigger] ctx0.locked_conda(e2, p) is Some) == lock_file.has_target(n2, p)
                &&& (ctx0.locked_conda(e2, p) matches Some(v) ==> v.wf() && v@
                    == lock_file.target_conda(n2, p))
                &&& (ctx0.locked_pypi(e2, p) is Some) == lock_file.has_target(n2, p)
                &&& (ctx0.locked_pypi(e2, p) matches Some(v) ==> v.wf() && v@
                    == lock_file.target_pypi(n2, p))
            },
        forall|e2: int, p: Platform|
            (e as int) < e2 < project.env_count() ==> (#[trigger] ctx0.locked_conda(e2, p) is None)
                && ctx0.locked_pypi(e2, p) is None,
        forall|p: Platform|
            (#[trigger] ctx0.locked_conda(e as int, p) is Some) == exists|j2: int|
                0 <= j2 < j && (#[trigger] lock_file.environments@[i].targets@[j2]).platform == p,
        forall|p: Platform|
            #![trigger ctx0.locked_conda(e as int, p)]
            {
                &&& (ctx0.locked_conda(e as int, p) matches Some(v) ==> v.wf() && v@
                    == lock_file.target_conda(project.environments@[e as int].name@, p))
                &&& (ctx0.locked_pypi(e as int, p) is Some) == ctx0.locked_conda(e as int, p) is
                    Some
                &&& (ctx0.locked_pypi(e as int, p) matches Some(v) ==> v.wf() && v@
                    == lock_file.target_pypi(project.environments@[e as int].name@, p))
            },
        // the step
        ctx1.locked_conda(e as int, platform) matches Some(v) && v.wf() && v@
            == lock_file.environments@[i].targets@[j].conda.deep_view(),
        ctx1.locked_pypi(e as int, platform) matches Some(v) && v.wf() && v@
            == lock_file.environments@[i].targets@[j].pypi.deep_view(),
        forall|k: Key|
            k != target_key(e as int, platform) ==> #[trigger] ctx1.locked_repodata_records.spec_get(
                k,
            ) == ctx0.locked_repodata_records.spec_get(k),
        forall|k: Key|
            k != target_key(e as int, platform) ==> #[trigger] ctx1.locked_pypi_records.spec_get(k)
                == ctx0.locked_pypi_records.spec_get(k),
    ensures
        forall|e2: int, p: Platform|
            0 <= e2 < e ==> {
                let n2 = project.environments@[e2].name@;
                &&& (#[trigger] ctx1.locked_conda(e2, p) is Some) == lock_file.has_target(n2, p)
                &&& (ctx1.locked_conda(e2, p) matches Some(v) ==> v.wf() && v@
                    == lock_file.target_conda(n2, p))
                &&& (ctx1.locked_pypi(e2, p) is Some) == lock_file.has_target(n2, p)
                &&& (ctx1.locked_pypi(e2, p) matches Some(v) ==> v.wf() && v@
                    == lock_file.target_pypi(n2, p))
            },
        forall|e2: int, p: Platform|
            (e as int) < e2 < project.env_count() ==> (#[trigger] ctx1.locked_conda(e2, p) is None)
                && ctx1.locked_pypi(e2, p) is None,
        forall|p: Platform|
            (#[trigger] ctx1.locked_conda(e as int, p) is Some) == exists|j2: int|
                0 <= j2 < j + 1 && (#[trigger] lock_file.environments@[i].targets@[j2]).platform
                    == p,
        forall|p: Platform|
            #![trigger ctx1.locked_conda(e as int, p)]
            {
                &&& (ctx1.locked_conda(e as int, p) matches Some(v) ==> v.wf() && v@
                    == lock_file.target_conda(project.environments@[e as int].name@, p))
                &&& (ctx1.locked_pypi(e as int, p) is Some) == ctx1.locked_conda(e as int, p) is
                    Some
                &&& (ctx1.locked_pypi(e as int, p) matches Some(v) ==> v.wf() && v@
                    == lock_file.target_pypi(project.environments@[e as int].name@, p))
            },
{
    let name = project.environments@[e as int].name@;
    assert(lock_file.has_target(name, platform)) by {
        assert(0 <= i < lock_file.environments@.len() && lock_file.environments@[i].name@ == name
            && 0 <= j < lock_file.environments@[i].targets@.len()
            && lock_file.environments@[i].targets@[j].platform == platform);
    }
    assert(lock_file.target_conda(name, platform) == lock_file.environments@[i].targets@[
    j].conda.deep_view()) by {
        let (i2, j2) = choose|i2: int, j2: int|
            0 <= i2 < lock_file.environments@.len() && (#[trigger] lock_file.environments@[i2]).name@
                == name && 0 <= j2 < lock_file.environments@[i2].targets@.len() && (
            #[trigger] lock_file.environments@[i2].targets@[j2]).platform == platform;
        assert(i2 == i);
        assert(j2 == j);
    }
    assert(lock_file.target_pypi(name, platform) == lock_file.environments@[i].targets@[
    j].pypi.deep_view()) by {
        let (i2, j2) = choose|i2: int, j2: int|
            0 <= i2 < lock_file.environments@.len() && (#[trigger] lock_file.environments@[i2]).name@
                == name && 0 <= j2 < lock_file.environments@[i2].targets@.len() && (
            #[trigger] lock_file.environments@[i2].targets@[j2]).platform == platform;
        assert(i2 == i);
        assert(j2 == j);
    }
    assert forall|e2: int, p: Platform| 0 <= e2 < e implies {
        let n2 = project.environments@[e2].name@;
        &&& (#[trigger] ctx1.locked_conda(e2, p) is Some) == lock_file.has_target(n2, p)
        &&& (ctx1.locked_conda(e2, p) matches Some(v) ==> v.wf() && v@ == lock_file.target_conda(
            n2,
            p,
        ))
        &&& (ctx1.locked_pypi(e2, p) is Some) == lock_file.has_target(n2, p)
        &&& (ctx1.locked_pypi(e2, p) matches Some(v) ==> v.wf() && v@ == lock_file.target_pypi(
            n2,
            p,
        ))
    } by {
        assert(target_key(e2, p) != target_key(e as int, platform)) by {
            crate::model::lemma_platform_tag_injective(p, platform);
        }
        assert(ctx1.locked_conda(e2, p) == ctx0.locked_conda(e2, p));
        assert(ctx1.locked_pypi(e2, p) == ctx0.locked_pypi(e2, p));
    }
    assert forall|e2: int, p: Platform| (e as int) < e2 < project.env_count() implies ((
    #[trigger] ctx1.locked_conda(e2, p)) is None) && ctx1.locked_pypi(e2, p) is None by {
        assert(target_key(e2, p) != target_key(e as int, platform)) by {
            crate::model::lemma_platform_tag_injective(p, platform);
        }
        assert(ctx1.locked_conda(e2, p) == ctx0.locked_conda(e2, p));
        assert(ctx1.locked_pypi(e2, p) == ctx0.locked_pypi(e2, p));
    }
    assert forall|p: Platform| ((#[trigger] ctx1.locked_conda(e as int, p)) is Some) == exists|
        j2: int,
    | 0 <= j2 < j + 1 && (#[trigger] lock_file.environments@[i].targets@[j2]).platform == p by {
        if p == platform {
            assert(lock_file.environments@[i].targets@[j].platform == p);
        } else {
            assert(target_key(e as int, p) != target_key(e as int, platform)) by {
                crate::model::lemma_platform_tag_injective(p, platform);
            }
            assert(ctx1.locked_conda(e as int, p) == ctx0.locked_conda(e as int, p));
        }
    }
    assert forall|p: Platform| true implies {
        &&& ((#[trigger] ctx1.locked_conda(e as int, p)) matches Some(v) ==> v.wf() && v@
            == lock_file.target_conda(name, p))
        &&& (ctx1.locked_pypi(e as int, p) is Some) == ctx1.locked_conda(e as int, p) is Some
        &&& (ctx1.locked_pypi(e as int, p) matches Some(v) ==> v.wf() && v@
            == lock_file.target_pypi(name, p))
    } by {
        if p == platform {
        } else {
            assert(target_key(e as int, p) != target_key(e as int, platform)) by {
                crate::model::lemma_platform_tag_injective(p, platform);
            }
            assert(ctx1.locked_conda(e as int, p) == ctx0.locked_conda(e as int, p));
            assert(ctx1.locked_pypi(e as int, p) == ctx0.locked_pypi(e as int, p));
        }
    }
}

} // verus!
