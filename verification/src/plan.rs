use vstd::prelude::*;
use crate::cell::BarrierCell;
use crate::context::make_group_key;
use crate::context::make_target_key;
use crate::context::target_key;
use crate::context::group_key;
use crate::context::Latest;
use crate::context::UpdateContext;
use crate::errors::UpdateError;
use crate::kvmap::Key;
use crate::model::Platform;
use crate::model::Project;
use crate::outdated::OutdatedEnvironments;
use crate::solve::order_platforms;

verus! {

/// One unit of work of the update run.  The driver spawns a task per spec;
/// every task's result is assigned into the cell registered for it before
/// it was spawned.
#[derive(Clone, Copy, PartialEq, Eq, Structural, Debug)]
pub enum TaskSpec {
    /// Solve the system-level requirements of a group for a platform.
    SolveCondaGroup { group: usize, platform: Platform },
    /// Extract one member environment's view of its group's solved
    /// system-level records.
    ExtractCondaEnv { environment: usize, platform: Platform },
    /// Materialize the group's execution environment on disk.
    InstantiatePrefix { group: usize },
    /// Solve the language-level requirements of a group for a platform.
    SolvePypiGroup { group: usize, platform: Platform },
    /// Extract one member environment's view of its group's solved
    /// language-level records.
    ExtractPypiEnv { environment: usize, platform: Platform },
    /// Publish an empty language-level result for an environment that
    /// declares no language-level dependencies for the platform.
    PypiShortCircuit { environment: usize, platform: Platform },
}

/// How many tasks in the plan equal `t`.
pub open spec fn count_task(tasks: Seq<TaskSpec>, t: TaskSpec) -> int
    decreases tasks.len(),
{
    if tasks.len() == 0 {
        0
    } else {
        count_task(tasks.drop_last(), t) + if tasks.last() == t {
            1int
        } else {
            0int
        }
    }
}

proof fn lemma_count_after_push(tasks: Seq<TaskSpec>, x: TaskSpec)
    ensures
        forall|t: TaskSpec| #[trigger]
            count_task(tasks.push(x), t) == count_task(tasks, t) + if x == t {
                1int
            } else {
                0int
            },
{
    assert forall|t: TaskSpec| #[trigger] count_task(tasks.push(x), t) == count_task(tasks, t)
        + if x == t {
        1int
    } else {
        0int
    } by {
        assert(tasks.push(x).drop_last() =~= tasks);
        assert(tasks.push(x).last() == x);
    }
}

/// A stale (environment, platform) pair among the first `i` entries.
pub open spec fn stale_upto(l: Seq<(usize, Seq<Platform>)>, i: int, e: int, p: Platform) -> bool {
    exists|ii: int|
        0 <= ii < i && ((#[trigger] l[ii]).0 as int) == e && l[ii].1.contains(p)
}

/// Some member of group `g` is stale for `p` among the first `i` entries.
pub open spec fn group_req_upto(
    project: Project,
    l: Seq<(usize, Seq<Platform>)>,
    i: int,
    g: int,
    p: Platform,
) -> bool {
    exists|ii: int|
        0 <= ii < i && project.group_of((#[trigger] l[ii]).0 as int) == g && l[ii].1.contains(p)
}

/// A system-level solve of (group, platform) is requested: some member
/// environment is stale for that platform.
pub open spec fn conda_group_requested(
    project: Project,
    outdated: OutdatedEnvironments,
    g: int,
    p: Platform,
) -> bool {
    group_req_upto(project, outdated.conda_entries(), outdated.conda_entries().len() as int, g, p)
}

/// Schedules the system-level work: for every stale (environment,
/// platform) pair, at most one group solve per (group, platform) — a fresh
/// cell is registered before the task is listed, so later discoveries of
/// the same pair reuse the cell instead of duplicating work — and one
/// extraction per (environment, platform).  Within an environment the
/// platform of the running system is scheduled first.
pub fn plan_conda(
    project: &Project,
    outdated: &OutdatedEnvironments,
    current_platform: Platform,
    context: &mut UpdateContext,
    tasks: &mut Vec<TaskSpec>,
)
    requires
        project.wf(),
        outdated.wf(*project),
        old(context).wf(),
        old(tasks)@.len() == 0,
        forall|k: Key| #[trigger] old(context).solved_repodata_records.spec_get(k) is None,
        forall|k: Key| #[trigger] old(context).grouped_solved_repodata_records.spec_get(k) is None,
    ensures
        final(context).wf(),
        // At most one solve per (group, platform), exactly when requested.
        forall|g: int, p: Platform|
            0 <= g < project.group_count() ==> (#[trigger] final(context).conda_group_cell(g, p) is
            Some) == conda_group_requested(*project, *outdated, g, p),
        forall|g: int, p: Platform|
            0 <= g < project.group_count() ==> match #[trigger] final(context).conda_group_cell(
                g,
                p,
            ) {
                Some(c) => !c.is_set(),
                None => true,
            },
        forall|g: usize, p: Platform|
            (g as int) < project.group_count() ==> #[trigger] count_task(
                final(tasks)@,
                TaskSpec::SolveCondaGroup { group: g, platform: p },
            ) == if conda_group_requested(*project, *outdated, g as int, p) {
                1int
            } else {
                0int
            },
        // One extraction per stale (environment, platform).
        forall|e: int, p: Platform|
            0 <= e < project.env_count() ==> (#[trigger] final(context).conda_env_cell(e, p) is
            Some) == outdated.conda_stale(e, p),
        forall|e: int, p: Platform|
            0 <= e < project.env_count() ==> match #[trigger] final(context).conda_env_cell(e, p) {
                Some(c) => !c.is_set(),
                None => true,
            },
        forall|e: usize, p: Platform|
            (e as int) < project.env_count() ==> #[trigger] count_task(
                final(tasks)@,
                TaskSpec::ExtractCondaEnv { environment: e, platform: p },
            ) == if outdated.conda_stale(e as int, p) {
                1int
            } else {
                0int
            },
        // Nothing else is touched.
        forall|t: TaskSpec|
            !(t matches TaskSpec::SolveCondaGroup { .. }) && !(t matches
            TaskSpec::ExtractCondaEnv { .. }) ==> #[trigger] count_task(final(tasks)@, t)
                == count_task(old(tasks)@, t),
        final(context).locked_repodata_records == old(context).locked_repodata_records,
        final(context).locked_grouped_repodata_records == old(
            context,
        ).locked_grouped_repodata_records,
        final(context).locked_pypi_records == old(context).locked_pypi_records,
        final(context).instantiated_conda_prefixes == old(context).instantiated_conda_prefixes,
        final(context).solved_pypi_records == old(context).solved_pypi_records,
        final(context).grouped_solved_pypi_records == old(context).grouped_solved_pypi_records,
{
    let ghost l = outdated.conda_entries();
    let env_count = project.environments.len();
    let group_count = project.groups.len();
    let mut i: usize = 0;
    while i < outdated.conda.len()
        invariant
            i <= l.len(),
            l == outdated.conda_entries(),
            l.len() == outdated.conda@.len(),
            project.wf(),
            outdated.wf(*project),
            env_count == project.env_count(),
            group_count == project.group_count(),
            context.wf(),
            forall|g: int, p: Platform|
                0 <= g < project.group_count() ==> (#[trigger] context.conda_group_cell(g, p) is
                Some) == group_req_upto(*project, l, i as int, g, p),
            forall|g: int, p: Platform|
                0 <= g < project.group_count() ==> match #[trigger] context.conda_group_cell(
                    g,
                    p,
                ) {
                    Some(c) => !c.is_set(),
                    None => true,
                },
            forall|g: usize, p: Platform|
                (g as int) < project.group_count() ==> #[trigger] count_task(
                    tasks@,
                    TaskSpec::SolveCondaGroup { group: g, platform: p },
                ) == if group_req_upto(*project, l, i as int, g as int, p) {
                    1int
                } else {
                    0int
                },
            forall|e: int, p: Platform|
                0 <= e < project.env_count() ==> (#[trigger] context.conda_env_cell(e, p) is Some)
                    == stale_upto(l, i as int, e, p),
            forall|e: int, p: Platform|
                0 <= e < project.env_count() ==> match #[trigger] context.conda_env_cell(e, p) {
                    Some(c) => !c.is_set(),
                    None => true,
                },
            forall|e: usize, p: Platform|
                (e as int) < project.env_count() ==> #[trigger] count_task(
                    tasks@,
                    TaskSpec::ExtractCondaEnv { environment: e, platform: p },
                ) == if stale_upto(l, i as int, e as int, p) {
                    1int
                } else {
                    0int
                },
            forall|t: TaskSpec|
                !(t matches TaskSpec::SolveCondaGroup { .. }) && !(t matches
                TaskSpec::ExtractCondaEnv { .. }) ==> #[trigger] count_task(tasks@, t)
                    == count_task(old(tasks)@, t),
            context.locked_repodata_records == old(context).locked_repodata_records,
            context.locked_grouped_repodata_records == old(
                context,
            ).locked_grouped_repodata_records,
            context.locked_pypi_records == old(context).locked_pypi_records,
            context.instantiated_conda_prefixes == old(context).instantiated_conda_prefixes,
            context.solved_pypi_records == old(context).solved_pypi_records,
            context.grouped_solved_pypi_records == old(context).grouped_solved_pypi_records,
        decreases l.len() - i,
    {
        let environment = outdated.conda[i].0;
        assert(environment as int == l[i as int].0 as int);
        assert((environment as int) < project.env_count());
        let g = project.environments[environment].group;
        let ordered = order_platforms(&outdated.conda[i].1, current_platform);
        let ghost ps = l[i as int].1;
        proof {
            assert(l[i as int] == outdated.conda@[i as int].deep_view());
            assert(ps =~= outdated.conda@[i as int].1@);
            assert((g as int) == project.group_of(environment as int));
            assert(0 <= (g as int) && (g as int) < project.group_count());
        }
        let mut j: usize = 0;
        while j < ordered.len()
            invariant
                j <= ordered@.len(),
                i < l.len(),
                l == outdated.conda_entries(),
                project.wf(),
                outdated.wf(*project),
                env_count == project.env_count(),
                group_count == project.group_count(),
                context.wf(),
                environment as int == l[i as int].0 as int,
                (environment as int) < project.env_count(),
                g == project.environments@[environment as int].group,
                forall|p: Platform| #[trigger] ordered@.contains(p) == l[i as int].1.contains(p),
                forall|a: int, b: int|
                    0 <= a < b < ordered@.len() ==> (#[trigger] ordered@[a])
                        != (#[trigger] ordered@[b]),
                forall|gq: int, p: Platform|
                    0 <= gq < project.group_count() ==> (#[trigger] context.conda_group_cell(
                        gq,
                        p,
                    ) is Some) == (group_req_upto(*project, l, i as int, gq, p) || ((g as int) == gq
                        && ordered@.take(j as int).contains(p))),
                forall|gq: int, p: Platform|
                    0 <= gq < project.group_count() ==> match #[trigger] context.conda_group_cell(
                        gq,
                        p,
                    ) {
                        Some(c) => !c.is_set(),
                        None => true,
                    },
                forall|gq: usize, p: Platform|
                    (gq as int) < project.group_count() ==> #[trigger] count_task(
                        tasks@,
                        TaskSpec::SolveCondaGroup { group: gq, platform: p },
                    ) == if group_req_upto(*project, l, i as int, gq as int, p) || (g == gq
                        && ordered@.take(j as int).contains(p)) {
                        1int
                    } else {
                        0int
                    },
                forall|e: int, p: Platform|
                    0 <= e < project.env_count() ==> (#[trigger] context.conda_env_cell(e, p) is
                    Some) == (stale_upto(l, i as int, e, p) || ((environment as int) == e
                        && ordered@.take(j as int).contains(p))),
                forall|e: int, p: Platform|
                    0 <= e < project.env_count() ==> match #[trigger] context.conda_env_cell(
                        e,
                        p,
                    ) {
                        Some(c) => !c.is_set(),
                        None => true,
                    },
                forall|e: usize, p: Platform|
                    (e as int) < project.env_count() ==> #[trigger] count_task(
                        tasks@,
                        TaskSpec::ExtractCondaEnv { environment: e, platform: p },
                    ) == if stale_upto(l, i as int, e as int, p) || (environment == e
                        && ordered@.take(j as int).contains(p)) {
                        1int
                    } else {
                        0int
                    },
                forall|t: TaskSpec|
                    !(t matches TaskSpec::SolveCondaGroup { .. }) && !(t matches
                    TaskSpec::ExtractCondaEnv { .. }) ==> #[trigger] count_task(tasks@, t)
                        == count_task(old(tasks)@, t),
                context.locked_repodata_records == old(context).locked_repodata_records,
                context.locked_grouped_repodata_records == old(
                    context,
                ).locked_grouped_repodata_records,
                context.locked_pypi_records == old(context).locked_pypi_records,
                context.instantiated_conda_prefixes == old(context).instantiated_conda_prefixes,
                context.solved_pypi_records == old(context).solved_pypi_records,
                context.grouped_solved_pypi_records == old(context).grouped_solved_pypi_records,
            decreases ordered@.len() - j,
        {
            let p = ordered[j];
            let ghost ctx0 = *context;
            let gk = make_target_key(g, p);
            proof {
                assert(ordered@.take(j as int + 1) =~= ordered@.take(j as int).push(p));
                assert(ordered@.take(j as int).len() == j as int);
                assert forall|pq: Platform| true implies #[trigger] ordered@.take(
                    j as int + 1,
                ).contains(pq) == (ordered@.take(j as int).contains(pq) || pq == p) by {
                    crate::records::lemma_seq_push_contains(ordered@.take(j as int), p, pq);
                }
            }
            if !context.grouped_solved_repodata_records.contains(gk) {
                let ghost pre_tasks = tasks@;
                tasks.push(TaskSpec::SolveCondaGroup { group: g, platform: p });
                context.grouped_solved_repodata_records.insert(gk, BarrierCell::new());
                proof {
                    assert(tasks@ =~= pre_tasks.push(
                        TaskSpec::SolveCondaGroup { group: g, platform: p },
                    ));
                    lemma_count_after_push(
                        pre_tasks,
                        TaskSpec::SolveCondaGroup { group: g, platform: p },
                    );
                    assert forall|gq: int, pq: Platform|
                        0 <= gq < project.group_count() && target_key(gq, pq) != target_key(
                            g as int,
                            p,
                        ) implies gq != (g as int) || pq != p by {
                    }
                    assert forall|gq: int, pq: Platform|
                        0 <= gq < project.group_count() && (gq != (g as int) || pq != p) implies
                        target_key(gq, pq) != target_key(g as int, p) by {
                        crate::model::lemma_platform_tag_injective(pq, p);
                    }
                }
            } else {
                proof {
                    // The pair was requested before, so the cell and task
                    // already exist; nothing changes.
                    assert((g as int) == project.group_of(environment as int));
                    assert(0 <= (g as int) && (g as int) < project.group_count());
                    assert(ctx0.conda_group_cell(g as int, p) is Some);
                    assert(group_req_upto(*project, l, i as int, g as int, p) || ordered@.take(
                        j as int,
                    ).contains(p));
                }
            }
            let ghost pre_tasks2 = tasks@;
            let ek = make_target_key(environment, p);
            proof {
                // The pair (environment, p) cannot be registered yet: the
                // environment occurs in one staleness entry only, and the
                // ordered platforms are distinct.
                assert(context.solved_repodata_records == ctx0.solved_repodata_records);
                assert(context.conda_env_cell(environment as int, p) == ctx0.conda_env_cell(
                    environment as int,
                    p,
                ));
                if ctx0.conda_env_cell(environment as int, p) is Some {
                    if stale_upto(l, i as int, environment as int, p) {
                        let ii = choose|ii: int|
                            0 <= ii < i && ((#[trigger] l[ii]).0 as int) == environment as int
                                && l[ii].1.contains(p);
                        assert(l[ii].0 as int == l[i as int].0 as int);
                        assert(l[ii].0 == l[i as int].0);
                        assert((#[trigger] l[ii].0) != (#[trigger] l[i as int].0));
                        assert(false);
                    } else {
                        assert(ctx0.conda_env_cell(environment as int, p) is Some);
                        assert(ordered@.take(j as int).contains(p));
                        let w = choose|w: int|
                            0 <= w < ordered@.take(j as int).len() && #[trigger] ordered@.take(
                                j as int,
                            )[w] == p;
                        assert(ordered@.take(j as int)[w] == ordered@[w]);
                        assert(ordered@[w] == p);
                        assert(ordered@[j as int] == p);
                        assert((#[trigger] ordered@[w]) != (#[trigger] ordered@[j as int]));
                        assert(false);
                    }
                }
            }
            tasks.push(TaskSpec::ExtractCondaEnv { environment, platform: p });
            context.solved_repodata_records.insert(ek, BarrierCell::new());
            proof {
                assert(tasks@ =~= pre_tasks2.push(
                    TaskSpec::ExtractCondaEnv { environment, platform: p },
                ));
                lemma_count_after_push(
                    pre_tasks2,
                    TaskSpec::ExtractCondaEnv { environment, platform: p },
                );
                assert forall|eq: int, pq: Platform|
                    0 <= eq < project.env_count() && (eq != (environment as int) || pq != p)
                    implies target_key(eq, pq) != target_key(environment as int, p) by {
                    crate::model::lemma_platform_tag_injective(pq, p);
                }
            }
            proof {
                assert forall|gq: int, pq: Platform| 0 <= gq < project.group_count() implies ((
                #[trigger] context.conda_group_cell(gq, pq)) is Some) == (group_req_upto(
                    *project,
                    l,
                    i as int,
                    gq,
                    pq,
                ) || ((g as int) == gq && ordered@.take(j as int + 1).contains(pq))) by {
                    if gq == g as int && pq == p {
                        assert(context.conda_group_cell(gq, pq) is Some);
                        assert(ordered@.take(j as int + 1).contains(pq));
                    } else {
                        assert(target_key(gq, pq) != target_key(g as int, p)) by {
                            crate::model::lemma_platform_tag_injective(pq, p);
                        }
                        assert(context.conda_group_cell(gq, pq) == ctx0.conda_group_cell(gq, pq));
                        assert((ctx0.conda_group_cell(gq, pq) is Some) == (group_req_upto(
                            *project,
                            l,
                            i as int,
                            gq,
                            pq,
                        ) || ((g as int) == gq && ordered@.take(j as int).contains(pq))));
                    }
                }
                assert forall|gq: usize, pq: Platform| (gq as int) < project.group_count() implies
                    (#[trigger] count_task(
                    tasks@,
                    TaskSpec::SolveCondaGroup { group: gq, platform: pq },
                )) == if group_req_upto(*project, l, i as int, gq as int, pq) || (g == gq
                    && ordered@.take(j as int + 1).contains(pq)) {
                    1int
                } else {
                    0int
                } by {
                    if gq == g && pq == p {
                    } else {
                        assert((TaskSpec::SolveCondaGroup { group: gq, platform: pq })
                            != (TaskSpec::SolveCondaGroup { group: g, platform: p }));
                        assert(target_key(gq as int, pq) != target_key(g as int, p)) by {
                            crate::model::lemma_platform_tag_injective(pq, p);
                        }
                        assert(context.conda_group_cell(gq as int, pq) == ctx0.conda_group_cell(
                            gq as int,
                            pq,
                        ));
                        assert((ctx0.conda_group_cell(gq as int, pq) is Some) == (group_req_upto(
                            *project,
                            l,
                            i as int,
                            gq as int,
                            pq,
                        ) || ((g as int) == (gq as int) && ordered@.take(j as int).contains(pq))));
                    }
                }
                assert forall|eq: int, pq: Platform| 0 <= eq < project.env_count() implies ((
                #[trigger] context.conda_env_cell(eq, pq)) is Some) == (stale_upto(
                    l,
                    i as int,
                    eq,
                    pq,
                ) || ((environment as int) == eq && ordered@.take(j as int + 1).contains(pq))) by {
                    if eq == environment as int && pq == p {
                        assert(context.conda_env_cell(eq, pq) is Some);
                    } else {
                        assert(target_key(eq, pq) != target_key(environment as int, p)) by {
                            crate::model::lemma_platform_tag_injective(pq, p);
                        }
                        assert(context.conda_env_cell(eq, pq) == ctx0.conda_env_cell(eq, pq));
                        assert((ctx0.conda_env_cell(eq, pq) is Some) == (stale_upto(
                            l,
                            i as int,
                            eq,
                            pq,
                        ) || ((environment as int) == eq && ordered@.take(j as int).contains(pq))));
                    }
                }
                assert forall|gq: int, pq: Platform| 0 <= gq < project.group_count() implies
                    match #[trigger] context.conda_group_cell(gq, pq) {
                    Some(c) => !c.is_set(),
                    None => true,
                } by {
                    if gq == g as int && pq == p {
                    } else {
                        assert(target_key(gq, pq) != target_key(g as int, p)) by {
                            crate::model::lemma_platform_tag_injective(pq, p);
                        }
                        assert(context.conda_group_cell(gq, pq) == ctx0.conda_group_cell(gq, pq));
                        assert(match ctx0.conda_group_cell(gq, pq) {
                            Some(c) => !c.is_set(),
                            None => true,
                        });
                    }
                }
                assert forall|eq: int, pq: Platform| 0 <= eq < project.env_count() implies
                    match #[trigger] context.conda_env_cell(eq, pq) {
                    Some(c) => !c.is_set(),
                    None => true,
                } by {
                    if eq == environment as int && pq == p {
                    } else {
                        assert(target_key(eq, pq) != target_key(environment as int, p)) by {
                            crate::model::lemma_platform_tag_injective(pq, p);
                        }
                        assert(context.conda_env_cell(eq, pq) == ctx0.conda_env_cell(eq, pq));
                        assert(match ctx0.conda_env_cell(eq, pq) {
                            Some(c) => !c.is_set(),
                            None => true,
                        });
                    }
                }
            }
            j += 1;
        }
        proof {
            // Everything the entry requested is now registered.
            assert forall|gq: int, pq: Platform| 0 <= gq < project.group_count() implies (
            group_req_upto(*project, l, i as int, gq, pq) || ((g as int) == gq && ordered@.take(
                ordered@.len() as int,
            ).contains(pq))) == group_req_upto(*project, l, i as int + 1, gq, pq) by {
                assert(ordered@.take(ordered@.len() as int) =~= ordered@);
                if group_req_upto(*project, l, i as int + 1, gq, pq) {
                    let ii = choose|ii: int|
                        0 <= ii < i + 1 && project.group_of((#[trigger] l[ii]).0 as int) == gq
                            && l[ii].1.contains(pq);
                    if ii < i {
                        assert(group_req_upto(*project, l, i as int, gq, pq));
                    } else {
                        assert(ordered@.contains(pq));
                    }
                }
                if group_req_upto(*project, l, i as int, gq, pq) {
                    let ii = choose|ii: int|
                        0 <= ii < i && project.group_of((#[trigger] l[ii]).0 as int) == gq
                            && l[ii].1.contains(pq);
                    assert(group_req_upto(*project, l, i as int + 1, gq, pq));
                }
                if (g as int) == gq && ordered@.contains(pq) {
                    assert(l[i as int].1.contains(pq));
                    assert(group_req_upto(*project, l, i as int + 1, gq, pq));
                }
            }
            assert forall|eq: int, pq: Platform| 0 <= eq < project.env_count() implies (stale_upto(
                l,
                i as int,
                eq,
                pq,
            ) || ((environment as int) == eq && ordered@.take(ordered@.len() as int).contains(pq)))
                == stale_upto(l, i as int + 1, eq, pq) by {
                assert(ordered@.take(ordered@.len() as int) =~= ordered@);
                if stale_upto(l, i as int + 1, eq, pq) {
                    let ii = choose|ii: int|
                        0 <= ii < i + 1 && ((#[trigger] l[ii]).0 as int) == eq && l[ii].1.contains(
                            pq,
                        );
                    if ii < i {
                        assert(stale_upto(l, i as int, eq, pq));
                    } else {
                        assert(ordered@.contains(pq));
                    }
                }
                if stale_upto(l, i as int, eq, pq) {
                    let ii = choose|ii: int|
                        0 <= ii < i && ((#[trigger] l[ii]).0 as int) == eq && l[ii].1.contains(pq);
                    assert(stale_upto(l, i as int + 1, eq, pq));
                }
                if (environment as int) == eq && ordered@.contains(pq) {
                    assert(l[i as int].1.contains(pq));
                    assert(stale_upto(l, i as int + 1, eq, pq));
                }
            }
            assert forall|gq: int, pq: Platform| 0 <= gq < project.group_count() implies ((
            #[trigger] context.conda_group_cell(gq, pq)) is Some) == group_req_upto(
                *project,
                l,
                i as int + 1,
                gq,
                pq,
            ) by {
                assert(ordered@.take(ordered@.len() as int) =~= ordered@);
            }
            assert forall|gq: usize, pq: Platform| (gq as int) < project.group_count() implies (
            #[trigger] count_task(
                tasks@,
                TaskSpec::SolveCondaGroup { group: gq, platform: pq },
            )) == if group_req_upto(*project, l, i as int + 1, gq as int, pq) {
                1int
            } else {
                0int
            } by {
                assert(ordered@.take(ordered@.len() as int) =~= ordered@);
            }
            assert forall|eq: int, pq: Platform| 0 <= eq < project.env_count() implies ((
            #[trigger] context.conda_env_cell(eq, pq)) is Some) == stale_upto(
                l,
                i as int + 1,
                eq,
                pq,
            ) by {
                assert(ordered@.take(ordered@.len() as int) =~= ordered@);
            }
            assert forall|eq: usize, pq: Platform| (eq as int) < project.env_count() implies (
            #[trigger] count_task(
                tasks@,
                TaskSpec::ExtractCondaEnv { environment: eq, platform: pq },
            )) == if stale_upto(l, i as int + 1, eq as int, pq) {
                1int
            } else {
                0int
            } by {
                assert(ordered@.take(ordered@.len() as int) =~= ordered@);
            }
        }
        i += 1;
    }
    proof {
        assert(i as int == l.len() as int);
    }
}

/// Some member of group `g`, among the first `i` staleness entries, has a
/// stale platform with language-level dependencies: its group needs a
/// materialized execution environment.
pub open spec fn prefix_needed_upto(
    project: Project,
    l: Seq<(usize, Seq<Platform>)>,
    i: int,
    g: int,
) -> bool {
    exists|ii: int, jj: int|
        0 <= ii < i && project.group_of((#[trigger] l[ii]).0 as int) == g && 0 <= jj
            < l[ii].1.len() && project.env_has_pypi_dep(l[ii].0 as int, #[trigger] l[ii].1[jj])
}

/// Group `g` needs a materialized execution environment this run.
pub open spec fn prefix_needed(project: Project, outdated: OutdatedEnvironments, g: int) -> bool {
    prefix_needed_upto(project, outdated.pypi_entries(), outdated.pypi_entries().len() as int, g)
}

/// Some stale environment declares language-level dependencies for one of
/// its stale platforms.
pub open spec fn any_pypi_work(project: Project, outdated: OutdatedEnvironments) -> bool {
    exists|ii: int, jj: int|
        0 <= ii < outdated.pypi_entries().len() && 0 <= jj
            < (#[trigger] outdated.pypi_entries()[ii]).1.len() && project.env_has_pypi_dep(
            outdated.pypi_entries()[ii].0 as int,
            #[trigger] outdated.pypi_entries()[ii].1[jj],
        )
}

/// The group's system-level records for the current platform are coming:
/// either a solve is scheduled or the baseline has them.
pub open spec fn group_conda_source_ok(
    context: UpdateContext,
    g: int,
    platform: Platform,
) -> bool {
    context.conda_group_cell(g, platform) is Some || context.locked_grouped_conda(
        g,
        platform,
    ) is Some
}

/// Schedules environment materialization: at most one task per group, and
/// only for groups with a stale language-level target that actually
/// declares language-level dependencies.  Fails with a configuration
/// conflict when such work exists but installing to disk is not allowed,
/// and with a missing-records error when a group to materialize has no
/// system-level source for the current platform.
pub fn plan_prefixes(
    project: &Project,
    outdated: &OutdatedEnvironments,
    no_install: bool,
    current_platform: Platform,
    context: &mut UpdateContext,
    tasks: &mut Vec<TaskSpec>,
) -> (r: Result<(), UpdateError>)
    requires
        project.wf(),
        outdated.wf(*project),
        old(context).wf(),
        forall|k: Key| #[trigger] old(context).instantiated_conda_prefixes.spec_get(k) is None,
        forall|g: usize| #[trigger]
            count_task(old(tasks)@, TaskSpec::InstantiatePrefix { group: g }) == 0,
    ensures
        final(context).wf(),
        final(context).locked_repodata_records == old(context).locked_repodata_records,
        final(context).locked_grouped_repodata_records == old(
            context,
        ).locked_grouped_repodata_records,
        final(context).locked_pypi_records == old(context).locked_pypi_records,
        final(context).solved_repodata_records == old(context).solved_repodata_records,
        final(context).grouped_solved_repodata_records == old(
            context,
        ).grouped_solved_repodata_records,
        final(context).solved_pypi_records == old(context).solved_pypi_records,
        final(context).grouped_solved_pypi_records == old(context).grouped_solved_pypi_records,
        forall|t: TaskSpec|
            !(t matches TaskSpec::InstantiatePrefix { .. }) ==> #[trigger] count_task(
                final(tasks)@,
                t,
            ) == count_task(old(tasks)@, t),
        no_install && any_pypi_work(*project, *outdated) ==> r matches Err(
            UpdateError::NoInstallConflict { .. },
        ),
        match r {
            Ok(()) => {
                &&& !(no_install && any_pypi_work(*project, *outdated))
                &&& forall|g: int|
                    0 <= g < project.group_count() ==> (#[trigger] final(context).prefix_cell(g) is
                    Some) == prefix_needed(*project, *outdated, g)
                &&& forall|g: int|
                    0 <= g < project.group_count() ==> match #[trigger] final(context).prefix_cell(
                        g,
                    ) {
                        Some(c) => !c.is_set(),
                        None => true,
                    }
                &&& forall|g: usize|
                    (g as int) < project.group_count() ==> #[trigger] count_task(
                        final(tasks)@,
                        TaskSpec::InstantiatePrefix { group: g },
                    ) == if prefix_needed(*project, *outdated, g as int) {
                        1int
                    } else {
                        0int
                    }
                &&& forall|g: int|
                    0 <= g < project.group_count() && prefix_needed(*project, *outdated, g)
                        ==> #[trigger] group_conda_source_ok(*old(context), g, current_platform)
            },
            Err(e) => {
                &&& (e matches UpdateError::NoInstallConflict { .. } ==> no_install
                    && any_pypi_work(*project, *outdated))
                &&& (e matches UpdateError::MissingGroupRecords { group, platform } ==> platform
                    == current_platform && 0 <= (group as int) < project.group_count()
                    && prefix_needed(*project, *outdated, group as int)
                    && !group_conda_source_ok(*old(context), group as int, current_platform))
                &&& (e matches UpdateError::NoInstallConflict { .. } || e matches
                UpdateError::MissingGroupRecords { .. })
            },
        },
{
    let ghost l = outdated.pypi_entries();
    let group_count = project.groups.len();
    let mut i: usize = 0;
    while i < outdated.pypi.len()
        invariant
            i <= l.len(),
            l == outdated.pypi_entries(),
            l.len() == outdated.pypi@.len(),
            project.wf(),
            outdated.wf(*project),
            group_count == project.group_count(),
            context.wf(),
            !no_install || forall|ii: int, jj: int|
                !(0 <= ii < i && 0 <= jj < (#[trigger] l[ii]).1.len() && project.env_has_pypi_dep(
                    l[ii].0 as int,
                    #[trigger] l[ii].1[jj],
                )),
            forall|g: int|
                0 <= g < project.group_count() ==> (#[trigger] context.prefix_cell(g) is Some)
                    == prefix_needed_upto(*project, l, i as int, g),
            forall|g: int|
                0 <= g < project.group_count() ==> match #[trigger] context.prefix_cell(g) {
                    Some(c) => !c.is_set(),
                    None => true,
                },
            forall|g: usize|
                (g as int) < project.group_count() ==> #[trigger] count_task(
                    tasks@,
                    TaskSpec::InstantiatePrefix { group: g },
                ) == if prefix_needed_upto(*project, l, i as int, g as int) {
                    1int
                } else {
                    0int
                },
            forall|g: int|
                0 <= g < project.group_count() && prefix_needed_upto(*project, l, i as int, g)
                    ==> #[trigger] group_conda_source_ok(*old(context), g, current_platform),
            forall|t: TaskSpec|
                !(t matches TaskSpec::InstantiatePrefix { .. }) ==> #[trigger] count_task(
                    tasks@,
                    t,
                ) == count_task(old(tasks)@, t),
            context.locked_repodata_records == old(context).locked_repodata_records,
            context.locked_grouped_repodata_records == old(
                context,
            ).locked_grouped_repodata_records,
            context.locked_pypi_records == old(context).locked_pypi_records,
            context.solved_repodata_records == old(context).solved_repodata_records,
            context.grouped_solved_repodata_records == old(
                context,
            ).grouped_solved_repodata_records,
            context.solved_pypi_records == old(context).solved_pypi_records,
            context.grouped_solved_pypi_records == old(context).grouped_solved_pypi_records,
        decreases l.len() - i,
    {
        let environment = outdated.pypi[i].0;
        proof {
            assert(l[i as int] == outdated.pypi@[i as int].deep_view());
            assert((environment as int) == l[i as int].0 as int);
            assert((environment as int) < project.env_count());
        }
        // Does any stale platform of this entry carry language-level
        // dependencies?
        let platforms = &outdated.pypi[i].1;
        let ghost ps = l[i as int].1;
        proof {
            assert(ps =~= outdated.pypi@[i as int].1@);
        }
        let mut has_deps = false;
        let mut jj: usize = 0;
        while jj < platforms.len()
            invariant
                jj <= platforms@.len(),
                platforms@ =~= ps,
                (environment as int) < project.env_count(),
                has_deps == exists|w: int|
                    0 <= w < jj && project.env_has_pypi_dep(
                        environment as int,
                        #[trigger] ps[w],
                    ),
            decreases platforms@.len() - jj,
        {
            if !has_deps && project.env_has_pypi_deps(environment, platforms[jj]) {
                has_deps = true;
                proof {
                    assert(project.env_has_pypi_dep(environment as int, ps[jj as int]));
                }
            }
            proof {
                if has_deps {
                } else {
                    assert(forall|w: int|
                        0 <= w < jj + 1 ==> !project.env_has_pypi_dep(
                            environment as int,
                            #[trigger] ps[w],
                        ));
                }
            }
            jj += 1;
        }
        if has_deps {
            if no_install {
                proof {
                    let w = choose|w: int|
                        0 <= w < ps.len() && project.env_has_pypi_dep(
                            environment as int,
                            #[trigger] ps[w],
                        );
                    assert(any_pypi_work(*project, *outdated)) by {
                        assert(0 <= i < l.len() && 0 <= w < l[i as int].1.len()
                            && project.env_has_pypi_dep(l[i as int].0 as int, l[i as int].1[w]));
                    }
                }
                return Err(UpdateError::NoInstallConflict { environment });
            }
            let g = project.environments[environment].group;
            proof {
                assert((g as int) == project.group_of(environment as int));
                assert(0 <= (g as int) && (g as int) < project.group_count());
            }
            let gk = make_group_key(g);
            if !context.instantiated_conda_prefixes.contains(gk) {
                let available = match context.get_latest_group_repodata_records(
                    g,
                    current_platform,
                ) {
                    Latest::Absent => false,
                    _ => true,
                };
                if !available {
                    proof {
                        let w = choose|w: int|
                            0 <= w < ps.len() && project.env_has_pypi_dep(
                                environment as int,
                                #[trigger] ps[w],
                            );
                        assert(prefix_needed(*project, *outdated, g as int)) by {
                            assert(0 <= i < l.len() && project.group_of(l[i as int].0 as int)
                                == g as int && 0 <= w < l[i as int].1.len()
                                && project.env_has_pypi_dep(l[i as int].0 as int, l[i as int].1[w]));
                        }
                    }
                    return Err(
                        UpdateError::MissingGroupRecords { group: g, platform: current_platform },
                    );
                }
                let ghost ctx0 = *context;
                let ghost pre_tasks = tasks@;
                tasks.push(TaskSpec::InstantiatePrefix { group: g });
                context.instantiated_conda_prefixes.insert(gk, BarrierCell::new());
                proof {
                    assert(tasks@ =~= pre_tasks.push(TaskSpec::InstantiatePrefix { group: g }));
                    lemma_count_after_push(pre_tasks, TaskSpec::InstantiatePrefix { group: g });
                    let w = choose|w: int|
                        0 <= w < ps.len() && project.env_has_pypi_dep(
                            environment as int,
                            #[trigger] ps[w],
                        );
                    assert(prefix_needed_upto(*project, l, i as int + 1, g as int)) by {
                        assert(0 <= i < i + 1 && project.group_of(l[i as int].0 as int) == g as int
                            && 0 <= w < l[i as int].1.len() && project.env_has_pypi_dep(
                            l[i as int].0 as int,
                            l[i as int].1[w],
                        ));
                    }
                    lemma_prefix_invariants_step(
                        *project,
                        l,
                        i as int,
                        g,
                        ctx0,
                        *context,
                        pre_tasks,
                        tasks@,
                        *old(context),
                        current_platform,
                    );
                }
            } else {
                proof {
                    assert(context.prefix_cell(g as int) is Some);
                    assert(prefix_needed_upto(*project, l, i as int, g as int));
                    lemma_prefix_needed_monotone(*project, l, i as int, g);
                    let w = choose|w: int|
                        0 <= w < ps.len() && project.env_has_pypi_dep(
                            environment as int,
                            #[trigger] ps[w],
                        );
                    assert(prefix_needed_upto(*project, l, i as int + 1, g as int)) by {
                        assert(0 <= i < i + 1 && project.group_of(l[i as int].0 as int) == g as int
                            && 0 <= w < l[i as int].1.len() && project.env_has_pypi_dep(
                            l[i as int].0 as int,
                            l[i as int].1[w],
                        ));
                    }
                    lemma_prefix_upto_same(*project, l, i as int, g, *context, tasks@);
                }
            }
        }
        proof {
            // An entry with no language-level work contributes nothing.
            assert forall|g: int| 0 <= g < project.group_count() implies #[trigger] prefix_needed_upto(
                *project,
                l,
                i as int + 1,
                g,
            ) == (prefix_needed_upto(*project, l, i as int, g) || ((project.group_of(
                l[i as int].0 as int,
            ) == g) && exists|w: int|
                0 <= w < ps.len() && project.env_has_pypi_dep(
                    environment as int,
                    #[trigger] ps[w],
                ))) by {
                if prefix_needed_upto(*project, l, i as int + 1, g) {
                    let (ii, jj2) = choose|ii: int, jj2: int|
                        0 <= ii < i + 1 && project.group_of((#[trigger] l[ii]).0 as int) == g && 0
                            <= jj2 < l[ii].1.len() && project.env_has_pypi_dep(
                            l[ii].0 as int,
                            #[trigger] l[ii].1[jj2],
                        );
                    if ii < i {
                        assert(prefix_needed_upto(*project, l, i as int, g));
                    } else {
                        assert(project.env_has_pypi_dep(environment as int, ps[jj2]));
                    }
                }
                if prefix_needed_upto(*project, l, i as int, g) {
                    let (ii, jj2) = choose|ii: int, jj2: int|
                        0 <= ii < i && project.group_of((#[trigger] l[ii]).0 as int) == g && 0
                            <= jj2 < l[ii].1.len() && project.env_has_pypi_dep(
                            l[ii].0 as int,
                            #[trigger] l[ii].1[jj2],
                        );
                    assert(prefix_needed_upto(*project, l, i as int + 1, g));
                }
                if project.group_of(l[i as int].0 as int) == g && exists|w: int|
                    0 <= w < ps.len() && project.env_has_pypi_dep(
                        environment as int,
                        #[trigger] ps[w],
                    ) {
                    let w = choose|w: int|
                        0 <= w < ps.len() && project.env_has_pypi_dep(
                            environment as int,
                            #[trigger] ps[w],
                        );
                    assert(prefix_needed_upto(*project, l, i as int + 1, g));
                }
            }
        }
        i += 1;
    }
    proof {
        assert(i as int == l.len() as int);
        if no_install && any_pypi_work(*project, *outdated) {
            let (ii, jj2) = choose|ii: int, jj2: int|
                0 <= ii < outdated.pypi_entries().len() && 0 <= jj2 < (
                #[trigger] outdated.pypi_entries()[ii]).1.len() && project.env_has_pypi_dep(
                    outdated.pypi_entries()[ii].0 as int,
                    #[trigger] outdated.pypi_entries()[ii].1[jj2],
                );
            assert(false);
        }
    }
    Ok(())
}

proof fn lemma_prefix_needed_monotone(project: Project, l: Seq<(usize, Seq<Platform>)>, i: int, g: usize)
    requires
        prefix_needed_upto(project, l, i, g as int),
        0 <= i <= l.len(),
    ensures
        prefix_needed_upto(project, l, l.len() as int, g as int),
{
    let (ii, jj) = choose|ii: int, jj: int|
        0 <= ii < i && project.group_of((#[trigger] l[ii]).0 as int) == g as int && 0 <= jj
            < l[ii].1.len() && project.env_has_pypi_dep(l[ii].0 as int, #[trigger] l[ii].1[jj]);
    assert(0 <= ii < l.len());
}

proof fn lemma_prefix_upto_same(
    project: Project,
    l: Seq<(usize, Seq<Platform>)>,
    i: int,
    g: usize,
    context: UpdateContext,
    tasks: Seq<TaskSpec>,
)
    requires
        0 <= i < l.len(),
        prefix_needed_upto(project, l, i as int + 1, g as int),
        prefix_needed_upto(project, l, i as int, g as int),
        forall|g2: int|
            0 <= g2 < project.group_count() ==> (#[trigger] context.prefix_cell(g2) is Some)
                == prefix_needed_upto(project, l, i, g2),
        forall|g2: usize|
            (g2 as int) < project.group_count() ==> #[trigger] count_task(
                tasks,
                TaskSpec::InstantiatePrefix { group: g2 },
            ) == if prefix_needed_upto(project, l, i, g2 as int) {
                1int
            } else {
                0int
            },
    ensures
        forall|g2: int|
            0 <= g2 < project.group_count() ==> (#[trigger] context.prefix_cell(g2) is Some) == (
            prefix_needed_upto(project, l, i, g2) || g2 == g as int),
{
    assert forall|g2: int| 0 <= g2 < project.group_count() implies (
    #[trigger] context.prefix_cell(g2) is Some) == (prefix_needed_upto(project, l, i, g2) || g2
        == g as int) by {
        if g2 == g as int {
        }
    }
}

/// A stale (environment, platform) pair with language-level dependencies
/// among the first `i` entries whose environment belongs to group `g`.
pub open spec fn pypi_req_upto(
    project: Project,
    l: Seq<(usize, Seq<Platform>)>,
    i: int,
    g: int,
    p: Platform,
) -> bool {
    exists|ii: int|
        0 <= ii < i && project.group_of((#[trigger] l[ii]).0 as int) == g && l[ii].1.contains(p)
            && project.env_has_pypi_dep(l[ii].0 as int, p)
}

/// A language-level solve of (group, platform) is requested: some member
/// environment is stale for that platform and declares language-level
/// dependencies for it.
pub open spec fn pypi_group_requested(
    project: Project,
    outdated: OutdatedEnvironments,
    g: int,
    p: Platform,
) -> bool {
    pypi_req_upto(project, outdated.pypi_entries(), outdated.pypi_entries().len() as int, g, p)
}

/// The environment's system-level records for the platform are coming:
/// either a solve is scheduled or the baseline has them.
pub open spec fn env_conda_source_ok(context: UpdateContext, e: int, platform: Platform) -> bool {
    context.conda_env_cell(e, platform) is Some || context.locked_conda(e, platform) is Some
}

/// Schedules the language-level work.  An environment with no
/// language-level dependencies for a stale platform short-circuits to an
/// empty result: no group solve, no extraction, no materialization is
/// caused by it.  Otherwise a group solve is registered at most once per
/// (group, platform) and one extraction per (environment, platform).
pub fn plan_pypi(
    project: &Project,
    outdated: &OutdatedEnvironments,
    context: &mut UpdateContext,
    tasks: &mut Vec<TaskSpec>,
) -> (r: Result<(), UpdateError>)
    requires
        project.wf(),
        outdated.wf(*project),
        old(context).wf(),
        forall|k: Key| #[trigger] old(context).solved_pypi_records.spec_get(k) is None,
        forall|k: Key| #[trigger] old(context).grouped_solved_pypi_records.spec_get(k) is None,
        forall|g: usize, p: Platform| #[trigger]
            count_task(old(tasks)@, TaskSpec::SolvePypiGroup { group: g, platform: p }) == 0,
        forall|e: usize, p: Platform| #[trigger]
            count_task(old(tasks)@, TaskSpec::ExtractPypiEnv { environment: e, platform: p })
                == 0,
        forall|e: usize, p: Platform| #[trigger]
            count_task(old(tasks)@, TaskSpec::PypiShortCircuit { environment: e, platform: p })
                == 0,
    ensures
        final(context).wf(),
        final(context).locked_repodata_records == old(context).locked_repodata_records,
        final(context).locked_grouped_repodata_records == old(
            context,
        ).locked_grouped_repodata_records,
        final(context).locked_pypi_records == old(context).locked_pypi_records,
        final(context).solved_repodata_records == old(context).solved_repodata_records,
        final(context).grouped_solved_repodata_records == old(
            context,
        ).grouped_solved_repodata_records,
        final(context).instantiated_conda_prefixes == old(context).instantiated_conda_prefixes,
        forall|t: TaskSpec|
            !(t matches TaskSpec::SolvePypiGroup { .. }) && !(t matches TaskSpec::ExtractPypiEnv {
                ..
            }) && !(t matches TaskSpec::PypiShortCircuit { .. }) ==> #[trigger] count_task(
                final(tasks)@,
                t,
            ) == count_task(old(tasks)@, t),
        match r {
            Ok(()) => {
                &&& forall|e: int, p: Platform|
                    0 <= e < project.env_count() ==> (#[trigger] final(context).pypi_env_cell(
                        e,
                        p,
                    ) is Some) == outdated.pypi_stale(e, p)
                &&& forall|e: int, p: Platform|
                    0 <= e < project.env_count() ==> match #[trigger] final(context).pypi_env_cell(
                        e,
                        p,
                    ) {
                        Some(c) => !c.is_set(),
                        None => true,
                    }
                &&& forall|g: int, p: Platform|
                    0 <= g < project.group_count() ==> (#[trigger] final(context).pypi_group_cell(
                        g,
                        p,
                    ) is Some) == pypi_group_requested(*project, *outdated, g, p)
                &&& forall|g: int, p: Platform|
                    0 <= g < project.group_count() ==> match #[trigger] final(context).pypi_group_cell(
                        g,
                        p,
                    ) {
                        Some(c) => !c.is_set(),
                        None => true,
                    }
                &&& forall|g: usize, p: Platform|
                    (g as int) < project.group_count() ==> #[trigger] count_task(
                        final(tasks)@,
                        TaskSpec::SolvePypiGroup { group: g, platform: p },
                    ) == if pypi_group_requested(*project, *outdated, g as int, p) {
                        1int
                    } else {
                        0int
                    }
                &&& forall|e: usize, p: Platform|
                    (e as int) < project.env_count() ==> #[trigger] count_task(
                        final(tasks)@,
                        TaskSpec::PypiShortCircuit { environment: e, platform: p },
                    ) == if outdated.pypi_stale(e as int, p) && !project.env_has_pypi_dep(
                        e as int,
                        p,
                    ) {
                        1int
                    } else {
                        0int
                    }
                &&& forall|e: usize, p: Platform|
                    (e as int) < project.env_count() ==> #[trigger] count_task(
                        final(tasks)@,
                        TaskSpec::ExtractPypiEnv { environment: e, platform: p },
                    ) == if outdated.pypi_stale(e as int, p) && project.env_has_pypi_dep(
                        e as int,
                        p,
                    ) {
                        1int
                    } else {
                        0int
                    }
            },
            Err(e) => {
                &&& (e matches UpdateError::MissingGroupRecords { group, platform } ==> 0 <= (
                group as int) < project.group_count() && pypi_group_requested(
                    *project,
                    *outdated,
                    group as int,
                    platform,
                ) && !group_conda_source_ok(*old(context), group as int, platform))
                &&& (e matches UpdateError::MissingEnvironmentRecords { environment, platform }
                    ==> 0 <= (environment as int) < project.env_count() && outdated.pypi_stale(
                    environment as int,
                    platform,
                ) && project.env_has_pypi_dep(environment as int, platform)
                    && !env_conda_source_ok(*old(context), environment as int, platform))
                &&& (e matches UpdateError::MissingGroupRecords { .. } || e matches
                UpdateError::MissingEnvironmentRecords { .. })
            },
        },
{
    let ghost l = outdated.pypi_entries();
    let env_count = project.environments.len();
    let group_count = project.groups.len();
    let mut i: usize = 0;
    while i < outdated.pypi.len()
        invariant
            i <= l.len(),
            l == outdated.pypi_entries(),
            l.len() == outdated.pypi@.len(),
            project.wf(),
            outdated.wf(*project),
            env_count == project.env_count(),
            group_count == project.group_count(),
            context.wf(),
            forall|e: int, p: Platform|
                0 <= e < project.env_count() ==> (#[trigger] context.pypi_env_cell(e, p) is Some)
                    == stale_upto(l, i as int, e, p),
            forall|e: int, p: Platform|
                0 <= e < project.env_count() ==> match #[trigger] context.pypi_env_cell(e, p) {
                    Some(c) => !c.is_set(),
                    None => true,
                },
            forall|g: int, p: Platform|
                0 <= g < project.group_count() ==> (#[trigger] context.pypi_group_cell(g, p) is
                Some) == pypi_req_upto(*project, l, i as int, g, p),
            forall|g: int, p: Platform|
                0 <= g < project.group_count() ==> match #[trigger] context.pypi_group_cell(
                    g,
                    p,
                ) {
                    Some(c) => !c.is_set(),
                    None => true,
                },
            forall|g: usize, p: Platform|
                (g as int) < project.group_count() ==> #[trigger] count_task(
                    tasks@,
                    TaskSpec::SolvePypiGroup { group: g, platform: p },
                ) == if pypi_req_upto(*project, l, i as int, g as int, p) {
                    1int
                } else {
                    0int
                },
            forall|e: usize, p: Platform|
                (e as int) < project.env_count() ==> #[trigger] count_task(
                    tasks@,
                    TaskSpec::PypiShortCircuit { environment: e, platform: p },
                ) == if stale_upto(l, i as int, e as int, p) && !project.env_has_pypi_dep(
                    e as int,
                    p,
                ) {
                    1int
                } else {
                    0int
                },
            forall|e: usize, p: Platform|
                (e as int) < project.env_count() ==> #[trigger] count_task(
                    tasks@,
                    TaskSpec::ExtractPypiEnv { environment: e, platform: p },
                ) == if stale_upto(l, i as int, e as int, p) && project.env_has_pypi_dep(
                    e as int,
                    p,
                ) {
                    1int
                } else {
                    0int
                },
            forall|t: TaskSpec|
                !(t matches TaskSpec::SolvePypiGroup { .. }) && !(t matches
                TaskSpec::ExtractPypiEnv { .. }) && !(t matches TaskSpec::PypiShortCircuit {
                    ..
                }) ==> #[trigger] count_task(tasks@, t) == count_task(old(tasks)@, t),
            context.locked_repodata_records == old(context).locked_repodata_records,
            context.locked_grouped_repodata_records == old(
                context,
            ).locked_grouped_repodata_records,
            context.locked_pypi_records == old(context).locked_pypi_records,
            context.solved_repodata_records == old(context).solved_repodata_records,
            context.grouped_solved_repodata_records == old(
                context,
            ).grouped_solved_repodata_records,
            context.instantiated_conda_prefixes == old(context).instantiated_conda_prefixes,
        decreases l.len() - i,
    {
        let environment = outdated.pypi[i].0;
        let ghost ps = l[i as int].1;
        proof {
            assert(l[i as int] == outdated.pypi@[i as int].deep_view());
            assert((environment as int) == l[i as int].0 as int);
            assert((environment as int) < project.env_count());
            assert(ps =~= outdated.pypi@[i as int].1@);
        }
        let g = project.environments[environment].group;
        proof {
            assert((g as int) == project.group_of(environment as int));
            assert(0 <= (g as int) && (g as int) < project.group_count());
        }
        let platforms_len = outdated.pypi[i].1.len();
        let mut j: usize = 0;
        while j < platforms_len
            invariant
                j <= ps.len(),
                platforms_len == ps.len(),
                i < l.len(),
                l == outdated.pypi_entries(),
                l.len() == outdated.pypi@.len(),
                project.wf(),
                outdated.wf(*project),
                env_count == project.env_count(),
                group_count == project.group_count(),
                context.wf(),
                environment as int == l[i as int].0 as int,
                (environment as int) < project.env_count(),
                g == project.environments@[environment as int].group,
                ps == l[i as int].1,
                ps =~= outdated.pypi@[i as int].1@,
                forall|e: int, p: Platform|
                    0 <= e < project.env_count() ==> (#[trigger] context.pypi_env_cell(e, p) is
                    Some) == (stale_upto(l, i as int, e, p) || ((environment as int) == e
                        && ps.take(j as int).contains(p))),
                forall|e: int, p: Platform|
                    0 <= e < project.env_count() ==> match #[trigger] context.pypi_env_cell(e, p) {
                        Some(c) => !c.is_set(),
                        None => true,
                    },
                forall|gq: int, p: Platform|
                    0 <= gq < project.group_count() ==> (#[trigger] context.pypi_group_cell(
                        gq,
                        p,
                    ) is Some) == (pypi_req_upto(*project, l, i as int, gq, p) || ((g as int) == gq
                        && ps.take(j as int).contains(p) && project.env_has_pypi_dep(
                        environment as int,
                        p,
                    ))),
                forall|gq: int, p: Platform|
                    0 <= gq < project.group_count() ==> match #[trigger] context.pypi_group_cell(
                        gq,
                        p,
                    ) {
                        Some(c) => !c.is_set(),
                        None => true,
                    },
                forall|gq: usize, p: Platform|
                    (gq as int) < project.group_count() ==> #[trigger] count_task(
                        tasks@,
                        TaskSpec::SolvePypiGroup { group: gq, platform: p },
                    ) == if pypi_req_upto(*project, l, i as int, gq as int, p) || (g == gq
                        && ps.take(j as int).contains(p) && project.env_has_pypi_dep(
                        environment as int,
                        p,
                    )) {
                        1int
                    } else {
                        0int
                    },
                forall|e: usize, p: Platform|
                    (e as int) < project.env_count() ==> #[trigger] count_task(
                        tasks@,
                        TaskSpec::PypiShortCircuit { environment: e, platform: p },
                    ) == if (stale_upto(l, i as int, e as int, p) || (environment == e && ps.take(
                        j as int,
                    ).contains(p))) && !project.env_has_pypi_dep(e as int, p) {
                        1int
                    } else {
                        0int
                    },
                forall|e: usize, p: Platform|
                    (e as int) < project.env_count() ==> #[trigger] count_task(
                        tasks@,
                        TaskSpec::ExtractPypiEnv { environment: e, platform: p },
                    ) == if (stale_upto(l, i as int, e as int, p) || (environment == e && ps.take(
                        j as int,
                    ).contains(p))) && project.env_has_pypi_dep(e as int, p) {
                        1int
                    } else {
                        0int
                    },
                forall|t: TaskSpec|
                    !(t matches TaskSpec::SolvePypiGroup { .. }) && !(t matches
                    TaskSpec::ExtractPypiEnv { .. }) && !(t matches TaskSpec::PypiShortCircuit {
                        ..
                    }) ==> #[trigger] count_task(tasks@, t) == count_task(old(tasks)@, t),
                context.locked_repodata_records == old(context).locked_repodata_records,
                context.locked_grouped_repodata_records == old(
                    context,
                ).locked_grouped_repodata_records,
                context.locked_pypi_records == old(context).locked_pypi_records,
                context.solved_repodata_records == old(context).solved_repodata_records,
                context.grouped_solved_repodata_records == old(
                    context,
                ).grouped_solved_repodata_records,
                context.instantiated_conda_prefixes == old(context).instantiated_conda_prefixes,
            decreases ps.len() - j,
        {
            let p = outdated.pypi[i].1[j];
            proof {
                assert(p == ps[j as int]);
                assert(ps.take(j as int + 1) =~= ps.take(j as int).push(p));
                assert(ps.take(j as int).len() == j as int);
                assert forall|pq: Platform| true implies #[trigger] ps.take(j as int + 1).contains(
                    pq,
                ) == (ps.take(j as int).contains(pq) || pq == p) by {
                    crate::records::lemma_seq_push_contains(ps.take(j as int), p, pq);
                }
            }
            let ghost ctx0 = *context;
            proof {
                // The pair (environment, p) is not registered yet.
                if ctx0.pypi_env_cell(environment as int, p) is Some {
                    if stale_upto(l, i as int, environment as int, p) {
                        let ii = choose|ii: int|
                            0 <= ii < i && ((#[trigger] l[ii]).0 as int) == environment as int
                                && l[ii].1.contains(p);
                        assert(l[ii].0 as int == l[i as int].0 as int);
                        assert(l[ii].0 == l[i as int].0);
                        assert((#[trigger] l[ii].0) != (#[trigger] l[i as int].0));
                        assert(false);
                    } else {
                        assert(ps.take(j as int).contains(p));
                        let w = choose|w: int|
                            0 <= w < ps.take(j as int).len() && #[trigger] ps.take(j as int)[w]
                                == p;
                        assert(ps.take(j as int)[w] == ps[w]);
                        assert((#[trigger] l[i as int].1[w]) == (#[trigger] l[i as int].1[j as int]));
                        assert(false);
                    }
                }
            }
            let has_dep = project.env_has_pypi_deps(environment, p);
            if !has_dep {
                let ghost pre_tasks = tasks@;
                tasks.push(TaskSpec::PypiShortCircuit { environment, platform: p });
                let ek = make_target_key(environment, p);
                context.solved_pypi_records.insert(ek, BarrierCell::new());
                proof {
                    assert(tasks@ =~= pre_tasks.push(
                        TaskSpec::PypiShortCircuit { environment, platform: p },
                    ));
                    lemma_count_after_push(
                        pre_tasks,
                        TaskSpec::PypiShortCircuit { environment, platform: p },
                    );
                }
            } else {
                let gk = make_target_key(g, p);
                if !context.grouped_solved_pypi_records.contains(gk) {
                    let group_available = match context.get_latest_group_repodata_records(g, p) {
                        Latest::Absent => false,
                        _ => true,
                    };
                    if !group_available {
                        proof {
                            assert(pypi_group_requested(*project, *outdated, g as int, p)) by {
                                assert(0 <= i < l.len() && project.group_of(l[i as int].0 as int)
                                    == g as int && l[i as int].1.contains(p)
                                    && project.env_has_pypi_dep(l[i as int].0 as int, p)) by {
                                    assert(l[i as int].1[j as int] == p);
                                }
                            }
                        }
                        return Err(UpdateError::MissingGroupRecords { group: g, platform: p });
                    }
                    let ghost pre_tasks = tasks@;
                    tasks.push(TaskSpec::SolvePypiGroup { group: g, platform: p });
                    context.grouped_solved_pypi_records.insert(gk, BarrierCell::new());
                    proof {
                        assert(tasks@ =~= pre_tasks.push(
                            TaskSpec::SolvePypiGroup { group: g, platform: p },
                        ));
                        lemma_count_after_push(
                            pre_tasks,
                            TaskSpec::SolvePypiGroup { group: g, platform: p },
                        );
                    }
                } else {
                    proof {
                        assert((g as int) == project.group_of(environment as int));
                        assert(0 <= (g as int) && (g as int) < project.group_count());
                        assert(ctx0.pypi_group_cell(g as int, p) is Some);
                        assert(match ctx0.pypi_group_cell(g as int, p) {
                            Some(c) => !c.is_set(),
                            None => true,
                        });
                        assert(context.pypi_group_cell(g as int, p) == ctx0.pypi_group_cell(
                            g as int,
                            p,
                        ));
                    }
                }
                let env_available = match context.get_latest_repodata_records(environment, p) {
                    Latest::Absent => false,
                    _ => true,
                };
                if !env_available {
                    proof {
                        assert(outdated.pypi_stale(environment as int, p)) by {
                            assert(l[i as int].1[j as int] == p);
                        }
                        assert(context.solved_repodata_records == old(
                            context,
                        ).solved_repodata_records);
                    }
                    return Err(
                        UpdateError::MissingEnvironmentRecords { environment, platform: p },
                    );
                }
                let ghost pre_tasks = tasks@;
                tasks.push(TaskSpec::ExtractPypiEnv { environment, platform: p });
                let ek = make_target_key(environment, p);
                context.solved_pypi_records.insert(ek, BarrierCell::new());
                proof {
                    assert(tasks@ =~= pre_tasks.push(
                        TaskSpec::ExtractPypiEnv { environment, platform: p },
                    ));
                    lemma_count_after_push(
                        pre_tasks,
                        TaskSpec::ExtractPypiEnv { environment, platform: p },
                    );
                }
            }
            proof {
                if project.env_has_pypi_dep(environment as int, p) {
                    assert(context.pypi_group_cell(g as int, p) is Some);
                    assert(match context.pypi_group_cell(g as int, p) {
                        Some(c) => !c.is_set(),
                        None => true,
                    });
                }
                lemma_pypi_step(
                    *project,
                    l,
                    i as int,
                    j as int,
                    environment,
                    g,
                    p,
                    ctx0,
                    *context,
                );
            }
            j += 1;
        }
        proof {
            assert(ps.take(ps.len() as int) =~= ps);
            assert forall|eq: int, pq: Platform| 0 <= eq < project.env_count() implies (stale_upto(
                l,
                i as int,
                eq,
                pq,
            ) || ((environment as int) == eq && ps.contains(pq))) == stale_upto(
                l,
                i as int + 1,
                eq,
                pq,
            ) by {
                if stale_upto(l, i as int + 1, eq, pq) {
                    let ii = choose|ii: int|
                        0 <= ii < i + 1 && ((#[trigger] l[ii]).0 as int) == eq && l[ii].1.contains(
                            pq,
                        );
                    if ii < i {
                        assert(stale_upto(l, i as int, eq, pq));
                    }
                }
                if stale_upto(l, i as int, eq, pq) {
                    let ii = choose|ii: int|
                        0 <= ii < i && ((#[trigger] l[ii]).0 as int) == eq && l[ii].1.contains(pq);
                    assert(stale_upto(l, i as int + 1, eq, pq));
                }
                if (environment as int) == eq && ps.contains(pq) {
                    assert(stale_upto(l, i as int + 1, eq, pq));
                }
            }
            assert forall|gq: int, pq: Platform| 0 <= gq < project.group_count() implies (
            pypi_req_upto(*project, l, i as int, gq, pq) || ((g as int) == gq && ps.contains(pq)
                && project.env_has_pypi_dep(environment as int, pq))) == pypi_req_upto(
                *project,
                l,
                i as int + 1,
                gq,
                pq,
            ) by {
                if pypi_req_upto(*project, l, i as int + 1, gq, pq) {
                    let ii = choose|ii: int|
                        0 <= ii < i + 1 && project.group_of((#[trigger] l[ii]).0 as int) == gq
                            && l[ii].1.contains(pq) && project.env_has_pypi_dep(
                            l[ii].0 as int,
                            pq,
                        );
                    if ii < i {
                        assert(pypi_req_upto(*project, l, i as int, gq, pq));
                    }
                }
                if pypi_req_upto(*project, l, i as int, gq, pq) {
                    let ii = choose|ii: int|
                        0 <= ii < i && project.group_of((#[trigger] l[ii]).0 as int) == gq
                            && l[ii].1.contains(pq) && project.env_has_pypi_dep(
                            l[ii].0 as int,
                            pq,
                        );
                    assert(pypi_req_upto(*project, l, i as int + 1, gq, pq));
                }
                if (g as int) == gq && ps.contains(pq) && project.env_has_pypi_dep(
                    environment as int,
                    pq,
                ) {
                    assert(pypi_req_upto(*project, l, i as int + 1, gq, pq));
                }
            }
        }
        i += 1;
    }
    Ok(())
}

/// One (environment, platform) pair has been processed: all per-target
/// invariants advance from prefix `j` to `j + 1`.
proof fn lemma_pypi_step(
    project: Project,
    l: Seq<(usize, Seq<Platform>)>,
    i: int,
    j: int,
    environment: usize,
    g: usize,
    p: Platform,
    ctx0: UpdateContext,
    ctx1: UpdateContext,
)
    requires
        0 <= i < l.len(),
        0 <= j < l[i].1.len(),
        project.wf(),
        (environment as int) == l[i].0 as int,
        (environment as int) < project.env_count(),
        (g as int) == project.group_of(environment as int),
        p == l[i].1[j],
        project.env_count() <= usize::MAX as int,
        project.group_count() <= usize::MAX as int,
        // before the step
        forall|e: int, pq: Platform|
            0 <= e < project.env_count() ==> (#[trigger] ctx0.pypi_env_cell(e, pq) is Some) == (
            stale_upto(l, i, e, pq) || ((environment as int) == e && l[i].1.take(j).contains(pq))),
        forall|e: int, pq: Platform|
            0 <= e < project.env_count() ==> match #[trigger] ctx0.pypi_env_cell(e, pq) {
                Some(c) => !c.is_set(),
                None => true,
            },
        forall|gq: int, pq: Platform|
            0 <= gq < project.group_count() ==> (#[trigger] ctx0.pypi_group_cell(gq, pq) is Some)
                == (pypi_req_upto(project, l, i, gq, pq) || ((g as int) == gq && l[i].1.take(
                j,
            ).contains(pq) && project.env_has_pypi_dep(environment as int, pq))),
        forall|gq: int, pq: Platform|
            0 <= gq < project.group_count() ==> match #[trigger] ctx0.pypi_group_cell(gq, pq) {
                Some(c) => !c.is_set(),
                None => true,
            },
        // the step
        ctx1.pypi_env_cell(environment as int, p) matches Some(c) && !c.is_set(),
        forall|k: Key|
            k != target_key(environment as int, p) ==> #[trigger] ctx1.solved_pypi_records.spec_get(
                k,
            ) == ctx0.solved_pypi_records.spec_get(k),
        project.env_has_pypi_dep(environment as int, p) ==> (ctx1.pypi_group_cell(g as int, p)
            matches Some(c) && !c.is_set()),
        !project.env_has_pypi_dep(environment as int, p) ==> ctx1.grouped_solved_pypi_records
            == ctx0.grouped_solved_pypi_records,
        forall|k: Key|
            k != target_key(g as int, p) ==> #[trigger] ctx1.grouped_solved_pypi_records.spec_get(
                k,
            ) == ctx0.grouped_solved_pypi_records.spec_get(k),
    ensures
        forall|e: int, pq: Platform|
            0 <= e < project.env_count() ==> (#[trigger] ctx1.pypi_env_cell(e, pq) is Some) == (
            stale_upto(l, i, e, pq) || ((environment as int) == e && l[i].1.take(j + 1).contains(
                pq,
            ))),
        forall|e: int, pq: Platform|
            0 <= e < project.env_count() ==> match #[trigger] ctx1.pypi_env_cell(e, pq) {
                Some(c) => !c.is_set(),
                None => true,
            },
        forall|gq: int, pq: Platform|
            0 <= gq < project.group_count() ==> (#[trigger] ctx1.pypi_group_cell(gq, pq) is Some)
                == (pypi_req_upto(project, l, i, gq, pq) || ((g as int) == gq && l[i].1.take(
                j + 1,
            ).contains(pq) && project.env_has_pypi_dep(environment as int, pq))),
        forall|gq: int, pq: Platform|
            0 <= gq < project.group_count() ==> match #[trigger] ctx1.pypi_group_cell(gq, pq) {
                Some(c) => !c.is_set(),
                None => true,
            },
{
    let ps = l[i].1;
    assert(ps.take(j + 1) =~= ps.take(j).push(p));
    assert forall|pq: Platform| true implies #[trigger] ps.take(j + 1).contains(pq) == (ps.take(
        j,
    ).contains(pq) || pq == p) by {
        crate::records::lemma_seq_push_contains(ps.take(j), p, pq);
    }
    assert forall|e: int, pq: Platform| 0 <= e < project.env_count() implies (
    #[trigger] ctx1.pypi_env_cell(e, pq) is Some) == (stale_upto(l, i, e, pq) || ((
    environment as int) == e && ps.take(j + 1).contains(pq))) by {
        if e == environment as int && pq == p {
        } else {
            assert(target_key(e, pq) != target_key(environment as int, p)) by {
                crate::model::lemma_platform_tag_injective(pq, p);
            }
            assert(ctx1.pypi_env_cell(e, pq) == ctx0.pypi_env_cell(e, pq));
        }
    }
    assert forall|e: int, pq: Platform| 0 <= e < project.env_count() implies match #[trigger] ctx1.pypi_env_cell(
        e,
        pq,
    ) {
        Some(c) => !c.is_set(),
        None => true,
    } by {
        if e == environment as int && pq == p {
        } else {
            assert(target_key(e, pq) != target_key(environment as int, p)) by {
                crate::model::lemma_platform_tag_injective(pq, p);
            }
            assert(ctx1.pypi_env_cell(e, pq) == ctx0.pypi_env_cell(e, pq));
        }
    }
    assert forall|gq: int, pq: Platform| 0 <= gq < project.group_count() implies (
    #[trigger] ctx1.pypi_group_cell(gq, pq) is Some) == (pypi_req_upto(project, l, i, gq, pq) || ((
    g as int) == gq && ps.take(j + 1).contains(pq) && project.env_has_pypi_dep(
        environment as int,
        pq,
    ))) by {
        if gq == g as int && pq == p {
            if project.env_has_pypi_dep(environment as int, p) {
            } else {
                assert(ctx1.pypi_group_cell(gq, pq) == ctx0.pypi_group_cell(gq, pq));
            }
        } else {
            assert(target_key(gq, pq) != target_key(g as int, p)) by {
                crate::model::lemma_platform_tag_injective(pq, p);
            }
            assert(ctx1.pypi_group_cell(gq, pq) == ctx0.pypi_group_cell(gq, pq));
        }
    }
    assert forall|gq: int, pq: Platform| 0 <= gq < project.group_count() implies match #[trigger] ctx1.pypi_group_cell(
        gq,
        pq,
    ) {
        Some(c) => !c.is_set(),
        None => true,
    } by {
        if gq == g as int && pq == p {
            if project.env_has_pypi_dep(environment as int, p) {
            } else {
                assert(ctx1.pypi_group_cell(gq, pq) == ctx0.pypi_group_cell(gq, pq));
            }
        } else {
            assert(target_key(gq, pq) != target_key(g as int, p)) by {
                crate::model::lemma_platform_tag_injective(pq, p);
            }
            assert(ctx1.pypi_group_cell(gq, pq) == ctx0.pypi_group_cell(gq, pq));
        }
    }
}

/// The new cell and task for group `g` preserve the per-group invariants.
proof fn lemma_prefix_invariants_step(
    project: Project,
    l: Seq<(usize, Seq<Platform>)>,
    i: int,
    g: usize,
    ctx0: UpdateContext,
    ctx1: UpdateContext,
    tasks0: Seq<TaskSpec>,
    tasks1: Seq<TaskSpec>,
    orig: UpdateContext,
    current_platform: Platform,
)
    requires
        0 <= i < l.len(),
        0 <= (g as int) < project.group_count(),
        project.group_count() <= usize::MAX as int,
        prefix_needed_upto(project, l, i + 1, g as int),
        ctx0.prefix_cell(g as int) is None,
        forall|g2: int|
            0 <= g2 < project.group_count() ==> (#[trigger] ctx0.prefix_cell(g2) is Some)
                == prefix_needed_upto(project, l, i, g2),
        forall|g2: int|
            0 <= g2 < project.group_count() ==> match #[trigger] ctx0.prefix_cell(g2) {
                Some(c) => !c.is_set(),
                None => true,
            },
        forall|g2: usize|
            (g2 as int) < project.group_count() ==> #[trigger] count_task(
                tasks0,
                TaskSpec::InstantiatePrefix { group: g2 },
            ) == if prefix_needed_upto(project, l, i, g2 as int) {
                1int
            } else {
                0int
            },
        forall|g2: int|
            0 <= g2 < project.group_count() && prefix_needed_upto(project, l, i, g2)
                ==> #[trigger] group_conda_source_ok(orig, g2, current_platform),
        group_conda_source_ok(orig, g as int, current_platform),
        // the step
        ctx1.prefix_cell(g as int) matches Some(c) && !c.is_set(),
        forall|k: Key|
            k != group_key(g as int) ==> #[trigger] ctx1.instantiated_conda_prefixes.spec_get(k)
                == ctx0.instantiated_conda_prefixes.spec_get(k),
        tasks1 == tasks0.push(TaskSpec::InstantiatePrefix { group: g }),
        // what the entry contributes
        forall|g2: int|
            0 <= g2 < project.group_count() ==> #[trigger] prefix_needed_upto(project, l, i + 1, g2)
                == (prefix_needed_upto(project, l, i, g2) || g2 == g as int),
    ensures
        forall|g2: int|
            0 <= g2 < project.group_count() ==> (#[trigger] ctx1.prefix_cell(g2) is Some)
                == prefix_needed_upto(project, l, i + 1, g2),
        forall|g2: int|
            0 <= g2 < project.group_count() ==> match #[trigger] ctx1.prefix_cell(g2) {
                Some(c) => !c.is_set(),
                None => true,
            },
        forall|g2: usize|
            (g2 as int) < project.group_count() ==> #[trigger] count_task(
                tasks1,
                TaskSpec::InstantiatePrefix { group: g2 },
            ) == if prefix_needed_upto(project, l, i + 1, g2 as int) {
                1int
            } else {
                0int
            },
        forall|g2: int|
            0 <= g2 < project.group_count() && prefix_needed_upto(project, l, i + 1, g2)
                ==> #[trigger] group_conda_source_ok(orig, g2, current_platform),
{
    lemma_count_after_push(tasks0, TaskSpec::InstantiatePrefix { group: g });
    assert forall|g2: int| 0 <= g2 < project.group_count() implies (#[trigger] ctx1.prefix_cell(
        g2,
    ) is Some) == prefix_needed_upto(project, l, i + 1, g2) by {
        if g2 == g as int {
        } else {
            assert(group_key(g2) != group_key(g as int));
            assert(ctx1.prefix_cell(g2) == ctx0.prefix_cell(g2));
        }
    }
    assert forall|g2: int| 0 <= g2 < project.group_count() implies match #[trigger] ctx1.prefix_cell(
        g2,
    ) {
        Some(c) => !c.is_set(),
        None => true,
    } by {
        if g2 == g as int {
        } else {
            assert(group_key(g2) != group_key(g as int));
            assert(ctx1.prefix_cell(g2) == ctx0.prefix_cell(g2));
        }
    }
    assert forall|g2: usize| (g2 as int) < project.group_count() implies #[trigger] count_task(
        tasks1,
        TaskSpec::InstantiatePrefix { group: g2 },
    ) == if prefix_needed_upto(project, l, i + 1, g2 as int) {
        1int
    } else {
        0int
    } by {
        if g2 == g {
            assert(!prefix_needed_upto(project, l, i, g as int)) by {
                if prefix_needed_upto(project, l, i, g as int) {
                    assert(ctx0.prefix_cell(g as int) is Some);
                }
            }
        } else {
            assert((TaskSpec::InstantiatePrefix { group: g2 }) != (TaskSpec::InstantiatePrefix { group: g }));
        }
    }
}

} // verus!
