use vstd::prelude::*;
use crate::model::Platform;
use crate::model::Project;
use crate::records::contains_name;
use crate::records::drawn_from;
use crate::records::is_dep_path;
use crate::records::spec_find;
use crate::records::RecView;
use crate::records::RecordsByName;

verus! {

/// Index of the first occurrence of `p` in `s`, or -1 when there is none.
pub open spec fn pidx(s: Seq<Platform>, p: Platform) -> int
    decreases s.len(),
{
    if s.len() == 0 {
        -1
    } else if s[0] == p {
        0
    } else if pidx(s.drop_first(), p) < 0 {
        -1
    } else {
        pidx(s.drop_first(), p) + 1
    }
}

proof fn lemma_pidx_bounds(s: Seq<Platform>, p: Platform)
    ensures
        pidx(s, p) >= 0 ==> pidx(s, p) < s.len() && s[pidx(s, p)] == p && forall|j: int|
            0 <= j < pidx(s, p) ==> (#[trigger] s[j]) != p,
        pidx(s, p) < 0 ==> !s.contains(p),
    decreases s.len(),
{
    if s.len() == 0 {
    } else if s[0] == p {
    } else {
        lemma_pidx_bounds(s.drop_first(), p);
        let r = pidx(s.drop_first(), p);
        if r >= 0 {
            assert(s.drop_first()[r] == s[r + 1]);
            assert(forall|j: int| 1 <= j < r + 1 ==> (#[trigger] s[j]) == s.drop_first()[j - 1]);
        } else {
            assert forall|i: int| 0 <= i < s.len() implies (#[trigger] s[i]) != p by {
                if i > 0 {
                    assert(s.drop_first()[i - 1] == s[i]);
                    assert(!s.drop_first().contains(p));
                }
            }
            if s.contains(p) {
                let w = choose|w: int| 0 <= w < s.len() && s[w] == p;
                assert(s[w] != p);
            }
        }
    }
}

/// Reorders a set of stale platforms so that the platform of the running
/// system is solved first: its system-level result unblocks environment
/// materialization, and with it the language-level pipeline, soonest.  The
/// relative order of the other platforms is kept.
pub fn order_platforms(platforms: &Vec<Platform>, current: Platform) -> (r: Vec<Platform>)
    ensures
        pidx(platforms@, current) < 0 ==> r@ == platforms@,
        pidx(platforms@, current) >= 0 ==> r@ == seq![current] + platforms@.subrange(
            0,
            pidx(platforms@, current),
        ) + platforms@.subrange(pidx(platforms@, current) + 1, platforms@.len() as int),
        r@.len() == platforms@.len(),
        forall|p: Platform| #[trigger] r@.contains(p) == platforms@.contains(p),
        platforms@.contains(current) ==> r@.len() > 0 && r@[0] == current,
        (forall|c: int, d: int|
            0 <= c < d < platforms@.len() ==> (#[trigger] platforms@[c]) != (
            #[trigger] platforms@[d])) ==> (forall|a: int, b: int|
            0 <= a < b < r@.len() ==> (#[trigger] r@[a]) != (#[trigger] r@[b])),
{
    let ghost s = platforms@;
    let mut i: usize = 0;
    while i < platforms.len()
        invariant
            i <= platforms@.len(),
            forall|j: int| 0 <= j < i ==> (#[trigger] platforms@[j]) != current,
        ensures
            i <= platforms@.len(),
            forall|j: int| 0 <= j < i ==> (#[trigger] platforms@[j]) != current,
            i < platforms@.len() ==> platforms@[i as int] == current,
        decreases platforms@.len() - i,
    {
        if platforms[i] == current {
            break;
        }
        i += 1;
    }
    let found: Option<usize> = if i < platforms.len() {
        Some(i)
    } else {
        None
    };
    proof {
        lemma_pidx_bounds(s, current);
    }
    match found {
        None => {
            proof {
                assert(pidx(s, current) < 0) by {
                    if pidx(s, current) >= 0 {
                        assert(s[pidx(s, current)] == current);
                    }
                }
            }
            let mut r: Vec<Platform> = Vec::new();
            let mut k: usize = 0;
            while k < platforms.len()
                invariant
                    k <= platforms@.len(),
                    r@ =~= platforms@.take(k as int),
                decreases platforms@.len() - k,
            {
                r.push(platforms[k]);
                k += 1;
            }
            proof {
                assert(r@ =~= platforms@);
                assert forall|p: Platform| #[trigger] r@.contains(p) == platforms@.contains(
                    p,
                ) by {}
            }
            r
        },
        Some(fi) => {
            proof {
                assert(pidx(s, current) == fi) by {
                    lemma_pidx_bounds(s, current);
                    if pidx(s, current) < 0 {
                        assert(!s.contains(current));
                        assert(s[fi as int] == current);
                    } else if pidx(s, current) < fi {
                        assert(s[pidx(s, current)] == current);
                    } else if pidx(s, current) > fi {
                        assert(s[fi as int] != current);
                    }
                }
            }
            let mut r: Vec<Platform> = Vec::new();
            r.push(platforms[fi]);
            let mut k: usize = 0;
            while k < platforms.len()
                invariant
                    k <= platforms@.len(),
                    fi < platforms@.len(),
                    s == platforms@,
                    s[fi as int] == current,
                    r@ =~= (seq![current] + s.subrange(0, if k <= fi {
                        k as int
                    } else {
                        fi as int
                    }) + (if k <= fi {
                        Seq::<Platform>::empty()
                    } else {
                        s.subrange(fi + 1, k as int)
                    })),
                decreases platforms@.len() - k,
            {
                if k != fi {
                    r.push(platforms[k]);
                }
                proof {
                    let upper: int = if k + 1 <= fi {
                        k + 1
                    } else {
                        fi as int
                    };
                    assert(r@ =~= (seq![current] + s.subrange(0, upper) + (if k + 1 <= fi {
                        Seq::<Platform>::empty()
                    } else {
                        s.subrange(fi + 1, k + 1)
                    })));
                }
                k += 1;
            }
            proof {
                assert(r@ =~= seq![current] + s.subrange(0, fi as int) + s.subrange(
                    fi + 1,
                    s.len() as int,
                ));
                assert forall|p: Platform| #[trigger] r@.contains(p) == s.contains(p) by {
                    if r@.contains(p) {
                        let w = choose|w: int| 0 <= w < r@.len() && r@[w] == p;
                        if w == 0 {
                            assert(s[fi as int] == p);
                        } else if w <= fi {
                            assert(s[w - 1] == p);
                        } else {
                            assert(s[w as int] == p);
                        }
                    }
                    if s.contains(p) {
                        let w = choose|w: int| 0 <= w < s.len() && s[w] == p;
                        if w == fi {
                            assert(r@[0] == p);
                        } else if w < fi {
                            assert(r@[w + 1] == p);
                        } else {
                            assert(r@[w as int] == p);
                        }
                    }
                }
                if forall|c: int, d: int|
                    0 <= c < d < s.len() ==> (#[trigger] s[c]) != (#[trigger] s[d]) {
                    assert forall|a: int, b: int| 0 <= a < b < r@.len() implies (#[trigger] r@[a])
                        != (#[trigger] r@[b]) by {
                        let a2: int = if a == 0 {
                            fi as int
                        } else if a <= fi {
                            a - 1
                        } else {
                            a
                        };
                        let b2: int = if b == 0 {
                            fi as int
                        } else if b <= fi {
                            b - 1
                        } else {
                            b
                        };
                        assert(r@[a] == s[a2]);
                        assert(r@[b] == s[b2]);
                        if a2 < b2 {
                            assert(s[a2] != s[b2]);
                        } else {
                            assert(s[b2] != s[a2]);
                        }
                    }
                }
            }
            r
        },
    }
}

/// The pairs of channel and platform whose index slices one group solve
/// reads: every channel crossed with the target platform and the universal
/// no-arch platform.
pub fn repodata_query_targets(channels: &Vec<String>, platform: Platform) -> (r: Vec<
    (String, Platform),
>)
    ensures
        r@.len() == 2 * channels@.len(),
        forall|i: int|
            0 <= i < channels@.len() ==> (#[trigger] r@[2 * i]).0@ == channels@[i]@ && r@[2 * i].1
                == platform && r@[2 * i + 1].0@ == channels@[i]@ && r@[2 * i + 1].1
                == Platform::NoArch,
{
    let mut r: Vec<(String, Platform)> = Vec::new();
    let mut i: usize = 0;
    while i < channels.len()
        invariant
            i <= channels@.len(),
            r@.len() == 2 * i,
            forall|j: int|
                0 <= j < i ==> (#[trigger] r@[2 * j]).0@ == channels@[j]@ && r@[2 * j].1 == platform
                    && r@[2 * j + 1].0@ == channels@[j]@ && r@[2 * j + 1].1 == Platform::NoArch,
        decreases channels@.len() - i,
    {
        r.push((channels[i].clone(), platform));
        r.push((channels[i].clone(), Platform::NoArch));
        i += 1;
    }
    r
}

/// A declared system-level dependency name of the environment for the
/// platform: a root of its extraction subset.
pub open spec fn conda_root(project: Project, e: int, platform: Platform, n: Seq<char>) -> bool {
    exists|i: int|
        0 <= i < project.environments@[e].conda_dependencies.deep_view().len() && (
        #[trigger] project.environments@[e].conda_dependencies.deep_view()[i]).applies_to(platform)
            && project.environments@[e].conda_dependencies.deep_view()[i].name == n
}

/// A declared language-level dependency name of the environment.
pub open spec fn pypi_root(project: Project, e: int, platform: Platform, n: Seq<char>) -> bool {
    exists|i: int|
        0 <= i < project.environments@[e].pypi_dependencies.deep_view().len() && (
        #[trigger] project.environments@[e].pypi_dependencies.deep_view()[i]).applies_to(platform)
            && project.environments@[e].pypi_dependencies.deep_view()[i].name == n
}

/// The name is bridged from one of the resolved system-level records.
pub open spec fn purl_ctx(conda: Seq<RecView>, n: Seq<char>) -> bool {
    exists|i: int| 0 <= i < conda.len() && (#[trigger] conda[i]).purl == Some(n)
}

/// A dependency chain through `s` from the environment's own declared
/// system-level dependency names, avoiding its group's virtual packages.
pub open spec fn conda_path_ok(
    project: Project,
    e: int,
    platform: Platform,
    s: Seq<RecView>,
    path: Seq<Seq<char>>,
) -> bool {
    &&& path.len() >= 1
    &&& conda_root(project, e, platform, path[0])
    &&& forall|i: int|
        0 <= i < path.len() ==> contains_name(s, #[trigger] path[i])
            && !project.group_has_virtual_package(project.group_of(e), path[i])
    &&& forall|i: int|
        0 <= i < path.len() - 1 ==> spec_find(s, #[trigger] path[i]).unwrap().depends.contains(
            path[i + 1],
        )
}

/// The record name is reachable from the environment's own declared
/// system-level dependency names inside the group's solved set.
pub open spec fn conda_reachable(
    project: Project,
    e: int,
    platform: Platform,
    s: Seq<RecView>,
    n: Seq<char>,
) -> bool {
    exists|path: Seq<Seq<char>>| #[trigger]
        conda_path_ok(project, e, platform, s, path) && path.last() == n
}

/// A dependency chain through `s` from the environment's own declared
/// language-level dependency names, avoiding the packages already provided
/// at the system level.
pub open spec fn pypi_path_ok(
    project: Project,
    e: int,
    platform: Platform,
    conda: Seq<RecView>,
    s: Seq<RecView>,
    path: Seq<Seq<char>>,
) -> bool {
    &&& path.len() >= 1
    &&& pypi_root(project, e, platform, path[0])
    &&& forall|i: int|
        0 <= i < path.len() ==> contains_name(s, #[trigger] path[i]) && !purl_ctx(conda, path[i])
    &&& forall|i: int|
        0 <= i < path.len() - 1 ==> spec_find(s, #[trigger] path[i]).unwrap().depends.contains(
            path[i + 1],
        )
}

/// The record name is reachable from the environment's own declared
/// language-level dependency names inside the group's solved set.
pub open spec fn pypi_reachable(
    project: Project,
    e: int,
    platform: Platform,
    conda: Seq<RecView>,
    s: Seq<RecView>,
    n: Seq<char>,
) -> bool {
    exists|path: Seq<Seq<char>>| #[trigger]
        pypi_path_ok(project, e, platform, conda, s, path) && path.last() == n
}

/// What a member environment's extraction from a named group's solved
/// system-level set must satisfy: exact records of the group's set, none of
/// them a virtual capability, every viable root included, closed under
/// dependencies, and nothing unreachable from the environment's own
/// declared dependency names.
pub open spec fn extracted_conda_ok(
    project: Project,
    e: int,
    platform: Platform,
    s: Seq<RecView>,
    r: Seq<RecView>,
) -> bool {
    &&& drawn_from(r, s)
    &&& forall|q: int|
        0 <= q < r.len() ==> !project.group_has_virtual_package(
            project.group_of(e),
            (#[trigger] r[q]).name,
        )
    &&& forall|n: Seq<char>| #[trigger]
        conda_root(project, e, platform, n) && contains_name(s, n)
            && !project.group_has_virtual_package(project.group_of(e), n) ==> contains_name(r, n)
    &&& forall|q: int, d: Seq<char>|
        #![trigger (r[q]).depends.contains(d)]
        0 <= q < r.len() && r[q].depends.contains(d) && contains_name(s, d)
            && !project.group_has_virtual_package(project.group_of(e), d) ==> contains_name(r, d)
    &&& forall|q: int|
        0 <= q < r.len() ==> conda_reachable(project, e, platform, s, (#[trigger] r[q]).name)
}

/// The language-level analogue of [`extracted_conda_ok`], with the
/// system-provided package names as the filter context.
pub open spec fn extracted_pypi_ok(
    project: Project,
    e: int,
    platform: Platform,
    conda: Seq<RecView>,
    s: Seq<RecView>,
    r: Seq<RecView>,
) -> bool {
    &&& drawn_from(r, s)
    &&& forall|q: int| 0 <= q < r.len() ==> !purl_ctx(conda, (#[trigger] r[q]).name)
    &&& forall|n: Seq<char>| #[trigger]
        pypi_root(project, e, platform, n) && contains_name(s, n) && !purl_ctx(conda, n)
            ==> contains_name(r, n)
    &&& forall|q: int, d: Seq<char>|
        #![trigger (r[q]).depends.contains(d)]
        0 <= q < r.len() && r[q].depends.contains(d) && contains_name(s, d) && !purl_ctx(conda, d)
            ==> contains_name(r, d)
    &&& forall|q: int|
        0 <= q < r.len() ==> pypi_reachable(project, e, platform, conda, s, (#[trigger] r[q]).name)
}

/// Distills the records applicable to one member environment out of its
/// group's solved system-level set.  A single-environment group keeps the
/// whole set; a named group keeps the dependency-closure subset of the
/// environment's own declared dependencies, filtered against the group's
/// virtual capabilities.
pub fn extract_conda_records(
    project: &Project,
    environment: usize,
    platform: Platform,
    group_records: &RecordsByName,
) -> (r: RecordsByName)
    requires
        project.wf(),
        (environment as int) < project.env_count(),
        group_records.wf(),
    ensures
        r.wf(),
        project.groups@[project.group_of(environment as int)] is Single ==> r@ == group_records@,
        project.groups@[project.group_of(environment as int)] is Named ==> extracted_conda_ok(
            *project,
            environment as int,
            platform,
            group_records@,
            r@,
        ),
{
    let g = project.environments[environment].group;
    match project.group_is_single(g) {
        Some(_) => group_records.duplicate(),
        None => {
            let names = project.env_conda_dep_names(environment, platform);
            let ctx = project.group_virtual_packages(g);
            let r = group_records.subset(&names, &ctx);
            proof {
                let e = environment as int;
                let s = group_records@;
                assert forall|q: int| 0 <= q < r@.len() implies !project.group_has_virtual_package(
                    project.group_of(e),
                    (#[trigger] r@[q]).name,
                ) by {
                    assert(!ctx.deep_view().contains(r@[q].name));
                }
                assert forall|n: Seq<char>| #[trigger]
                    conda_root(*project, e, platform, n) && contains_name(s, n)
                        && !project.group_has_virtual_package(project.group_of(e), n) implies
                    contains_name(r@, n) by {
                    assert(names.deep_view().contains(n));
                    let k = choose|k: int|
                        0 <= k < names.deep_view().len() && #[trigger] names.deep_view()[k] == n;
                    assert(contains_name(r@, names.deep_view()[k]));
                }
                assert forall|q: int, d: Seq<char>|
                    #![trigger (r@[q]).depends.contains(d)]
                    0 <= q < r@.len() && r@[q].depends.contains(d) && contains_name(s, d)
                        && !project.group_has_virtual_package(project.group_of(e), d) implies
                    contains_name(r@, d) by {
                    assert(!ctx.deep_view().contains(d));
                }
                assert forall|q: int| 0 <= q < r@.len() implies conda_reachable(
                    *project,
                    e,
                    platform,
                    s,
                    (#[trigger] r@[q]).name,
                ) by {
                    let path = choose|path: Seq<Seq<char>>| #[trigger]
                        is_dep_path(s, names.deep_view(), ctx.deep_view(), path) && path.last()
                            == r@[q].name;
                    assert(names.deep_view().contains(path[0]));
                    assert(conda_path_ok(*project, e, platform, s, path));
                }
            }
            r
        },
    }
}

/// Distills the language-level records applicable to one member
/// environment out of its group's solved language-level set, excluding the
/// packages its own resolved system-level records already provide.
pub fn extract_pypi_records(
    project: &Project,
    environment: usize,
    platform: Platform,
    conda_records: &RecordsByName,
    group_records: &RecordsByName,
) -> (r: RecordsByName)
    requires
        project.wf(),
        (environment as int) < project.env_count(),
        group_records.wf(),
    ensures
        r.wf(),
        project.groups@[project.group_of(environment as int)] is Single ==> r@ == group_records@,
        project.groups@[project.group_of(environment as int)] is Named ==> extracted_pypi_ok(
            *project,
            environment as int,
            platform,
            conda_records@,
            group_records@,
            r@,
        ),
{
    let g = project.environments[environment].group;
    match project.group_is_single(g) {
        Some(_) => group_records.duplicate(),
        None => {
            let names = project.env_pypi_dep_names(environment, platform);
            let ctx = conda_records.purl_names();
            let r = group_records.subset(&names, &ctx);
            proof {
                let e = environment as int;
                let s = group_records@;
                assert forall|q: int| 0 <= q < r@.len() implies !purl_ctx(
                    conda_records@,
                    (#[trigger] r@[q]).name,
                ) by {
                    assert(!ctx.deep_view().contains(r@[q].name));
                }
                assert forall|n: Seq<char>| #[trigger]
                    pypi_root(*project, e, platform, n) && contains_name(s, n) && !purl_ctx(
                        conda_records@,
                        n,
                    ) implies contains_name(r@, n) by {
                    assert(names.deep_view().contains(n));
                    let k = choose|k: int|
                        0 <= k < names.deep_view().len() && #[trigger] names.deep_view()[k] == n;
                    assert(contains_name(r@, names.deep_view()[k]));
                }
                assert forall|q: int, d: Seq<char>|
                    #![trigger (r@[q]).depends.contains(d)]
                    0 <= q < r@.len() && r@[q].depends.contains(d) && contains_name(s, d)
                        && !purl_ctx(conda_records@, d) implies contains_name(r@, d) by {
                    assert(!ctx.deep_view().contains(d));
                }
                assert forall|q: int| 0 <= q < r@.len() implies pypi_reachable(
                    *project,
                    e,
                    platform,
                    conda_records@,
                    s,
                    (#[trigger] r@[q]).name,
                ) by {
                    let path = choose|path: Seq<Seq<char>>| #[trigger]
                        is_dep_path(s, names.deep_view(), ctx.deep_view(), path) && path.last()
                            == r@[q].name;
                    assert(names.deep_view().contains(path[0]));
                    assert(pypi_path_ok(*project, e, platform, conda_records@, s, path));
                }
            }
            r
        },
    }
}

} // verus!
