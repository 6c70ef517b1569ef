use lock_update::apply_task_result;
use lock_update::compute_fetch_targets;
use lock_update::extract_pypi_records;
use lock_update::repodata_query_targets;
use lock_update::default_max_concurrent_solves;
use lock_update::extract_conda_records;
use lock_update::finish_lock_file;
use lock_update::order_platforms;
use lock_update::start_update;
use lock_update::BarrierCell;
use lock_update::Dep;
use lock_update::Environment;
use lock_update::Latest;
use lock_update::LockFileModel;
use lock_update::LockFileUsage;
use lock_update::LockedEnvironment;
use lock_update::LockedTarget;
use lock_update::OutdatedEnvironments;
use lock_update::Platform;
use lock_update::PrefixInfo;
use lock_update::Project;
use lock_update::Record;
use lock_update::RecordsByName;
use lock_update::SolveGroup;
use lock_update::TaskResult;
use lock_update::TaskSpec;
use lock_update::UpdateError;
use lock_update::UpdateLockFileOptions;
use lock_update::UpdateOutcome;

fn rec(name: &str, version: u64, depends: &[&str]) -> Record {
    Record {
        name: name.to_string(),
        version,
        depends: depends.iter().map(|d| d.to_string()).collect(),
        purl: None,
    }
}

fn dep(name: &str, constraint: &str) -> Dep {
    Dep { name: name.to_string(), constraint: constraint.to_string(), platform: None }
}

fn environment(name: &str, group: usize, conda: Vec<Dep>, pypi: Vec<Dep>) -> Environment {
    Environment {
        name: name.to_string(),
        platforms: vec![Platform::Linux64],
        channels: vec!["main".to_string()],
        conda_dependencies: conda,
        pypi_dependencies: pypi,
        virtual_packages: Vec::new(),
        group,
    }
}

fn empty_lock_file() -> LockFileModel {
    LockFileModel { environments: Vec::new() }
}

fn options(usage: LockFileUsage, no_install: bool) -> UpdateLockFileOptions {
    UpdateLockFileOptions {
        lock_file_usage: usage,
        no_install,
        existing_repo_data: Vec::new(),
        max_concurrent_solves: None,
    }
}

fn records_of(list: Vec<Record>) -> RecordsByName {
    RecordsByName::from_iter(&list)
}

#[test]
fn merge_keeps_highest_version() {
    let a = records_of(vec![rec("x", 1, &[]), rec("y", 3, &[])]);
    let b = records_of(vec![rec("x", 2, &[]), rec("z", 5, &[])]);
    let merged = a.merge(&b);
    let names: Vec<&str> = merged.records.iter().map(|r| r.name.as_str()).collect();
    assert_eq!(merged.records.len(), 3);
    assert!(names.contains(&"x") && names.contains(&"y") && names.contains(&"z"));
    let x = merged.records.iter().find(|r| r.name == "x").unwrap();
    assert_eq!(x.version, 2);
}

#[test]
fn merge_single_occurrence_for_shared_name() {
    let a = records_of(vec![rec("x", 7, &[])]);
    let b = records_of(vec![rec("x", 4, &[])]);
    let merged = a.merge(&b);
    assert_eq!(merged.records.len(), 1);
    assert_eq!(merged.records[0].name, "x");
    assert_eq!(merged.records[0].version, 7);
}

#[test]
fn from_iter_keeps_unique_input_as_is() {
    let input = vec![rec("b", 1, &[]), rec("a", 2, &[])];
    let r = RecordsByName::from_iter(&input);
    assert_eq!(r.records.len(), 2);
    assert_eq!(r.records[0].name, "b");
    assert_eq!(r.records[1].name, "a");
}

#[test]
fn subset_drops_unreachable_records() {
    let group = records_of(vec![rec("a", 1, &["b"]), rec("b", 1, &[]), rec("c", 1, &[])]);
    let roots = vec!["a".to_string()];
    let ctx: Vec<String> = Vec::new();
    let sub = group.subset(&roots, &ctx);
    let names: Vec<&str> = sub.records.iter().map(|r| r.name.as_str()).collect();
    assert!(names.contains(&"a") && names.contains(&"b"));
    assert!(!names.contains(&"c"));
}

#[test]
fn subset_excludes_context_names() {
    let group = records_of(vec![rec("a", 1, &["b"]), rec("b", 1, &["c"]), rec("c", 1, &[])]);
    let roots = vec!["a".to_string()];
    let ctx = vec!["b".to_string()];
    let sub = group.subset(&roots, &ctx);
    let names: Vec<&str> = sub.records.iter().map(|r| r.name.as_str()).collect();
    assert_eq!(names, vec!["a"]);
}

#[test]
fn cell_assigns_once_and_rejects_second_write() {
    let mut cell: BarrierCell<u64> = BarrierCell::new();
    assert!(cell.get().is_none());
    assert!(cell.set(41).is_ok());
    assert!(cell.set(42).is_err());
    let first = *cell.get().unwrap();
    let second = *cell.get().unwrap();
    assert_eq!(first, 41);
    assert_eq!(second, 41);
}

#[test]
fn order_platforms_moves_current_first() {
    let platforms = vec![Platform::Win64, Platform::Osx64, Platform::Linux64];
    let ordered = order_platforms(&platforms, Platform::Linux64);
    assert_eq!(ordered, vec![Platform::Linux64, Platform::Win64, Platform::Osx64]);
    let unchanged = order_platforms(&platforms, Platform::OsxArm64);
    assert_eq!(unchanged, platforms);
}

#[test]
fn default_solve_concurrency_is_clamped() {
    assert_eq!(default_max_concurrent_solves(1), 1);
    assert_eq!(default_max_concurrent_solves(2), 1);
    assert_eq!(default_max_concurrent_solves(3), 1);
    assert_eq!(default_max_concurrent_solves(4), 2);
    assert_eq!(default_max_concurrent_solves(6), 4);
    assert_eq!(default_max_concurrent_solves(32), 4);
}

#[test]
fn never_check_returns_lock_file_unchanged() {
    let project = Project {
        environments: vec![environment("a", 0, vec![dep("p", ">=1")], Vec::new())],
        groups: vec![SolveGroup::Single { environment: 0 }],
    };
    let outdated = OutdatedEnvironments {
        conda: vec![(0, vec![Platform::Linux64])],
        pypi: Vec::new(),
    };
    let r = start_update(
        &project,
        empty_lock_file(),
        &outdated,
        &options(LockFileUsage::NeverCheck, false),
        Platform::Linux64,
        4,
    );
    match r {
        Ok(UpdateOutcome::UpToDate(lf)) => assert!(lf.environments.is_empty()),
        _ => panic!("expected the lock file to stand"),
    }
}

#[test]
fn check_only_with_stale_targets_fails() {
    let project = Project {
        environments: vec![environment("a", 0, vec![dep("p", ">=1")], Vec::new())],
        groups: vec![SolveGroup::Single { environment: 0 }],
    };
    let outdated = OutdatedEnvironments {
        conda: vec![(0, vec![Platform::Linux64])],
        pypi: Vec::new(),
    };
    let r = start_update(
        &project,
        empty_lock_file(),
        &outdated,
        &options(LockFileUsage::CheckOnly, false),
        Platform::Linux64,
        4,
    );
    assert!(matches!(r, Err(UpdateError::StalenessPolicy)));
}

#[test]
fn no_install_with_pypi_work_is_a_conflict() {
    let project = Project {
        environments: vec![environment("a", 0, Vec::new(), vec![dep("flask", ">=1")])],
        groups: vec![SolveGroup::Single { environment: 0 }],
    };
    let outdated = OutdatedEnvironments {
        conda: Vec::new(),
        pypi: vec![(0, vec![Platform::Linux64])],
    };
    let r = start_update(
        &project,
        empty_lock_file(),
        &outdated,
        &options(LockFileUsage::AllowUpdate, true),
        Platform::Linux64,
        4,
    );
    assert!(matches!(r, Err(UpdateError::NoInstallConflict { environment: 0 })));
}

fn shared_group_project() -> Project {
    Project {
        environments: vec![
            environment("a", 0, vec![dep("p", ">=1")], Vec::new()),
            environment("b", 0, vec![dep("p", ">=2")], Vec::new()),
        ],
        groups: vec![SolveGroup::Named { name: "g".to_string() }],
    }
}

#[test]
fn one_solve_task_per_shared_group() {
    let project = shared_group_project();
    let outdated = OutdatedEnvironments {
        conda: vec![(0, vec![Platform::Linux64]), (1, vec![Platform::Linux64])],
        pypi: Vec::new(),
    };
    let r = start_update(
        &project,
        empty_lock_file(),
        &outdated,
        &options(LockFileUsage::AllowUpdate, false),
        Platform::Linux64,
        4,
    );
    let plan = match r {
        Ok(UpdateOutcome::Run(plan)) => plan,
        _ => panic!("expected a run plan"),
    };
    let solves = plan
        .tasks
        .iter()
        .filter(|t| matches!(t, TaskSpec::SolveCondaGroup { .. }))
        .count();
    let extracts = plan
        .tasks
        .iter()
        .filter(|t| matches!(t, TaskSpec::ExtractCondaEnv { .. }))
        .count();
    assert_eq!(solves, 1);
    assert_eq!(extracts, 2);
}

#[test]
fn empty_pypi_dependencies_short_circuit() {
    let project = Project {
        environments: vec![environment("a", 0, vec![dep("p", ">=1")], Vec::new())],
        groups: vec![SolveGroup::Single { environment: 0 }],
    };
    let outdated = OutdatedEnvironments {
        conda: vec![(0, vec![Platform::Linux64])],
        pypi: vec![(0, vec![Platform::Linux64])],
    };
    let r = start_update(
        &project,
        empty_lock_file(),
        &outdated,
        &options(LockFileUsage::AllowUpdate, false),
        Platform::Linux64,
        4,
    );
    let plan = match r {
        Ok(UpdateOutcome::Run(plan)) => plan,
        _ => panic!("expected a run plan"),
    };
    assert!(plan.tasks.iter().any(|t| matches!(
        t,
        TaskSpec::PypiShortCircuit { environment: 0, platform: Platform::Linux64 }
    )));
    assert!(!plan.tasks.iter().any(|t| matches!(t, TaskSpec::SolvePypiGroup { .. })));
    assert!(!plan.tasks.iter().any(|t| matches!(t, TaskSpec::InstantiatePrefix { .. })));
    // Drive the run: the short-circuited target is fed a ready empty set,
    // and the assembled language-level list for it is empty.
    let mut plan = plan;
    let tasks = plan.tasks.clone();
    for task in tasks {
        match task {
            TaskSpec::SolveCondaGroup { group, platform } => {
                apply_task_result(
                    &mut plan.context,
                    TaskResult::CondaGroupSolved {
                        group,
                        platform,
                        records: records_of(vec![rec("p", 1, &[])]),
                        duration_ms: 1,
                    },
                )
                .unwrap();
            },
            TaskSpec::ExtractCondaEnv { environment, platform } => {
                let group = project.environments[environment].group;
                let extracted = match plan.context.get_latest_group_repodata_records(group, platform)
                {
                    Latest::Solved(v) => extract_conda_records(&project, environment, platform, v),
                    _ => panic!("group records should be solved"),
                };
                apply_task_result(
                    &mut plan.context,
                    TaskResult::CondaSolved { environment, platform, records: extracted },
                )
                .unwrap();
            },
            TaskSpec::PypiShortCircuit { environment, platform } => {
                lock_update::apply_pypi_short_circuit(&mut plan.context, environment, platform)
                    .unwrap();
            },
            _ => panic!("no other tasks expected"),
        }
    }
    let lock_file = finish_lock_file(&project, &mut plan.context).unwrap();
    assert!(lock_file.environments[0].targets[0].pypi.is_empty());
    assert_eq!(lock_file.environments[0].targets[0].conda.len(), 1);
}

#[test]
fn end_to_end_shared_group_run() {
    let project = shared_group_project();
    let outdated = OutdatedEnvironments {
        conda: vec![(0, vec![Platform::Linux64]), (1, vec![Platform::Linux64])],
        pypi: Vec::new(),
    };
    let r = start_update(
        &project,
        empty_lock_file(),
        &outdated,
        &options(LockFileUsage::AllowUpdate, false),
        Platform::Linux64,
        4,
    );
    let mut plan = match r {
        Ok(UpdateOutcome::Run(plan)) => plan,
        _ => panic!("expected a run plan"),
    };
    // Drive the plan: the solver resolves `p` at the version satisfying the
    // union of the requirements, version 2.
    let tasks = plan.tasks.clone();
    for task in tasks {
        match task {
            TaskSpec::SolveCondaGroup { group, platform } => {
                let records = records_of(vec![rec("p", 2, &[])]);
                apply_task_result(
                    &mut plan.context,
                    TaskResult::CondaGroupSolved { group, platform, records, duration_ms: 1 },
                )
                .unwrap();
            },
            TaskSpec::ExtractCondaEnv { environment, platform } => {
                let group = project.environments[environment].group;
                let extracted = match plan.context.get_latest_group_repodata_records(group, platform)
                {
                    Latest::Solved(v) => extract_conda_records(&project, environment, platform, v),
                    _ => panic!("group records should be solved"),
                };
                apply_task_result(
                    &mut plan.context,
                    TaskResult::CondaSolved { environment, platform, records: extracted },
                )
                .unwrap();
            },
            _ => panic!("no other tasks expected"),
        }
    }
    let lock_file = finish_lock_file(&project, &mut plan.context).unwrap();
    assert_eq!(lock_file.environments.len(), 2);
    for le in &lock_file.environments {
        assert_eq!(le.targets.len(), 1);
        let conda = &le.targets[0].conda;
        assert_eq!(conda.len(), 1);
        assert_eq!(conda[0].name, "p");
        assert_eq!(conda[0].version, 2);
    }
}

fn baseline_for_b() -> LockFileModel {
    LockFileModel {
        environments: vec![LockedEnvironment {
            name: "b".to_string(),
            channels: vec!["main".to_string()],
            targets: vec![LockedTarget {
                platform: Platform::Linux64,
                conda: vec![rec("old", 9, &[])],
                pypi: Vec::new(),
            }],
        }],
    }
}

#[test]
fn untouched_environment_keeps_baseline_records() {
    // Two environments in separate groups; only `a` is stale.  After the
    // run, `b`'s records are exactly the prior lock file's.
    let project = Project {
        environments: vec![
            environment("a", 0, vec![dep("p", ">=1")], Vec::new()),
            environment("b", 1, vec![dep("old", ">=1")], Vec::new()),
        ],
        groups: vec![
            SolveGroup::Single { environment: 0 },
            SolveGroup::Single { environment: 1 },
        ],
    };
    let outdated = OutdatedEnvironments {
        conda: vec![(0, vec![Platform::Linux64])],
        pypi: Vec::new(),
    };
    let r = start_update(
        &project,
        baseline_for_b(),
        &outdated,
        &options(LockFileUsage::AllowUpdate, false),
        Platform::Linux64,
        4,
    );
    let mut plan = match r {
        Ok(UpdateOutcome::Run(plan)) => plan,
        _ => panic!("expected a run plan"),
    };
    let tasks = plan.tasks.clone();
    for task in tasks {
        match task {
            TaskSpec::SolveCondaGroup { group, platform } => {
                let records = records_of(vec![rec("p", 1, &[])]);
                apply_task_result(
                    &mut plan.context,
                    TaskResult::CondaGroupSolved { group, platform, records, duration_ms: 1 },
                )
                .unwrap();
            },
            TaskSpec::ExtractCondaEnv { environment, platform } => {
                let group = project.environments[environment].group;
                let extracted = match plan.context.get_latest_group_repodata_records(group, platform)
                {
                    Latest::Solved(v) => extract_conda_records(&project, environment, platform, v),
                    _ => panic!("group records should be solved"),
                };
                apply_task_result(
                    &mut plan.context,
                    TaskResult::CondaSolved { environment, platform, records: extracted },
                )
                .unwrap();
            },
            _ => panic!("no other tasks expected"),
        }
    }
    let lock_file = finish_lock_file(&project, &mut plan.context).unwrap();
    let b = &lock_file.environments[1];
    assert_eq!(b.name, "b");
    assert_eq!(b.targets[0].conda.len(), 1);
    assert_eq!(b.targets[0].conda[0].name, "old");
    assert_eq!(b.targets[0].conda[0].version, 9);
}

#[test]
fn pending_task_aborts_assembly_and_leaves_no_artifact() {
    // A run whose solve never reports leaves the cells pending: assembly
    // fails, and the prior on-disk lock file would stay as it was.
    let project = shared_group_project();
    let outdated = OutdatedEnvironments {
        conda: vec![(0, vec![Platform::Linux64]), (1, vec![Platform::Linux64])],
        pypi: Vec::new(),
    };
    let prior = baseline_for_b();
    let r = start_update(
        &project,
        empty_lock_file(),
        &outdated,
        &options(LockFileUsage::AllowUpdate, false),
        Platform::Linux64,
        4,
    );
    let mut plan = match r {
        Ok(UpdateOutcome::Run(plan)) => plan,
        _ => panic!("expected a run plan"),
    };
    let result = finish_lock_file(&project, &mut plan.context);
    assert!(matches!(result, Err(UpdateError::RecordsStillPending { .. })));
    // Nothing was assembled, so the caller keeps the prior artifact whole.
    assert_eq!(prior.environments.len(), 1);
    assert_eq!(prior.environments[0].targets[0].conda[0].name, "old");
}

#[test]
fn double_assignment_is_a_fatal_consistency_error() {
    let project = shared_group_project();
    let outdated = OutdatedEnvironments {
        conda: vec![(0, vec![Platform::Linux64]), (1, vec![Platform::Linux64])],
        pypi: Vec::new(),
    };
    let r = start_update(
        &project,
        empty_lock_file(),
        &outdated,
        &options(LockFileUsage::AllowUpdate, false),
        Platform::Linux64,
        4,
    );
    let mut plan = match r {
        Ok(UpdateOutcome::Run(plan)) => plan,
        _ => panic!("expected a run plan"),
    };
    let first = apply_task_result(
        &mut plan.context,
        TaskResult::CondaGroupSolved {
            group: 0,
            platform: Platform::Linux64,
            records: records_of(vec![rec("p", 2, &[])]),
            duration_ms: 1,
        },
    );
    assert!(first.is_ok());
    let second = apply_task_result(
        &mut plan.context,
        TaskResult::CondaGroupSolved {
            group: 0,
            platform: Platform::Linux64,
            records: records_of(vec![rec("p", 3, &[])]),
            duration_ms: 1,
        },
    );
    assert!(matches!(second, Err(UpdateError::CellAlreadySet)));
    let unknown = apply_task_result(
        &mut plan.context,
        TaskResult::CondaGroupSolved {
            group: 0,
            platform: Platform::Win64,
            records: records_of(Vec::new()),
            duration_ms: 1,
        },
    );
    assert!(matches!(unknown, Err(UpdateError::UnknownTaskTarget)));
}

#[test]
fn materialization_happens_once_per_group_and_is_handed_back() {
    // One environment with language-level dependencies: the plan holds one
    // materialization task; its result is drained back per environment.
    let project = Project {
        environments: vec![environment(
            "a",
            0,
            vec![dep("python", ">=3")],
            vec![dep("flask", ">=1")],
        )],
        groups: vec![SolveGroup::Single { environment: 0 }],
    };
    let outdated = OutdatedEnvironments {
        conda: vec![(0, vec![Platform::Linux64])],
        pypi: vec![(0, vec![Platform::Linux64])],
    };
    let r = start_update(
        &project,
        empty_lock_file(),
        &outdated,
        &options(LockFileUsage::AllowUpdate, false),
        Platform::Linux64,
        4,
    );
    let mut plan = match r {
        Ok(UpdateOutcome::Run(plan)) => plan,
        _ => panic!("expected a run plan"),
    };
    let prefixes = plan
        .tasks
        .iter()
        .filter(|t| matches!(t, TaskSpec::InstantiatePrefix { .. }))
        .count();
    assert_eq!(prefixes, 1);
    apply_task_result(
        &mut plan.context,
        TaskResult::CondaPrefixUpdated {
            group: 0,
            prefix: PrefixInfo {
                path: "/tmp/envs/a".to_string(),
                python: Some("bin/python".to_string()),
            },
            duration_ms: 5,
        },
    )
    .unwrap();
    let drained = plan.context.take_instantiated_conda_prefixes(&project).unwrap();
    assert_eq!(drained.len(), 1);
    assert_eq!(drained[0].0, 0);
    assert_eq!(drained[0].1.path, "/tmp/envs/a");
}

#[test]
fn pypi_work_without_conda_source_is_missing_records() {
    // Language-level work is stale, but no system-level solve is
    // scheduled and nothing is locked: the run cannot materialize.
    let project = Project {
        environments: vec![environment("a", 0, Vec::new(), vec![dep("flask", ">=1")])],
        groups: vec![SolveGroup::Single { environment: 0 }],
    };
    let outdated = OutdatedEnvironments {
        conda: Vec::new(),
        pypi: vec![(0, vec![Platform::Linux64])],
    };
    let r = start_update(
        &project,
        empty_lock_file(),
        &outdated,
        &options(LockFileUsage::AllowUpdate, false),
        Platform::Linux64,
        4,
    );
    assert!(matches!(r, Err(UpdateError::MissingGroupRecords { group: 0, .. })));
}

#[test]
fn draining_a_pending_prefix_fails() {
    let project = Project {
        environments: vec![environment(
            "a",
            0,
            vec![dep("python", ">=3")],
            vec![dep("flask", ">=1")],
        )],
        groups: vec![SolveGroup::Single { environment: 0 }],
    };
    let outdated = OutdatedEnvironments {
        conda: vec![(0, vec![Platform::Linux64])],
        pypi: vec![(0, vec![Platform::Linux64])],
    };
    let r = start_update(
        &project,
        empty_lock_file(),
        &outdated,
        &options(LockFileUsage::AllowUpdate, false),
        Platform::Linux64,
        4,
    );
    let mut plan = match r {
        Ok(UpdateOutcome::Run(plan)) => plan,
        _ => panic!("expected a run plan"),
    };
    let drained = plan.context.take_instantiated_conda_prefixes(&project);
    assert!(matches!(drained, Err(UpdateError::PrefixStillPending { group: 0 })));
}

#[test]
fn system_provided_packages_leave_the_language_subset() {
    // A named group of two environments: the language-level solve covered
    // `q` and `r`, but `q` is already provided at the system level (its
    // record carries the bridged name), so only `r` stays.
    let project = Project {
        environments: vec![
            environment("a", 0, Vec::new(), vec![dep("q", ">=1"), dep("r", ">=1")]),
            environment("b", 0, Vec::new(), vec![dep("r", ">=1")]),
        ],
        groups: vec![SolveGroup::Named { name: "g".to_string() }],
    };
    let mut q_provider = rec("python-q", 1, &[]);
    q_provider.purl = Some("q".to_string());
    let conda = records_of(vec![q_provider]);
    let group_pypi = records_of(vec![rec("q", 1, &[]), rec("r", 1, &[])]);
    let extracted = extract_pypi_records(&project, 0, Platform::Linux64, &conda, &group_pypi);
    let names: Vec<&str> = extracted.records.iter().map(|r| r.name.as_str()).collect();
    assert_eq!(names, vec!["r"]);
}

#[test]
fn query_targets_cross_channels_with_noarch() {
    let channels = vec!["main".to_string(), "extra".to_string()];
    let targets = repodata_query_targets(&channels, Platform::Linux64);
    assert_eq!(targets.len(), 4);
    assert_eq!(targets[0], ("main".to_string(), Platform::Linux64));
    assert_eq!(targets[1], ("main".to_string(), Platform::NoArch));
    assert_eq!(targets[2], ("extra".to_string(), Platform::Linux64));
    assert_eq!(targets[3], ("extra".to_string(), Platform::NoArch));
}

#[test]
fn fetch_targets_are_deduplicated_and_filtered() {
    let project = Project {
        environments: vec![
            environment("a", 0, vec![dep("p", ">=1")], Vec::new()),
            environment("b", 0, vec![dep("p", ">=2")], Vec::new()),
        ],
        groups: vec![SolveGroup::Named { name: "g".to_string() }],
    };
    let outdated = OutdatedEnvironments {
        conda: vec![(0, vec![Platform::Linux64]), (1, vec![Platform::Linux64])],
        pypi: Vec::new(),
    };
    let existing = vec![("main".to_string(), Platform::NoArch)];
    let targets = compute_fetch_targets(&project, &outdated, &existing);
    // Both environments use the same channel and platform: one fetch for
    // the platform, and the already-fetched no-arch slice is skipped.
    assert_eq!(targets, vec![("main".to_string(), Platform::Linux64)]);
}

#[test]
fn lock_model_lookups_find_locked_targets() {
    let lf = baseline_for_b();
    assert!(lf.check_wf());
    let name = "b".to_string();
    let conda = lf.repodata_records(&name, Platform::Linux64).unwrap();
    assert_eq!(conda.len(), 1);
    assert_eq!(conda[0].name, "old");
    assert!(lf.repodata_records(&name, Platform::Win64).is_none());
    let missing = "zzz".to_string();
    assert!(lf.repodata_records(&missing, Platform::Linux64).is_none());
    let pypi = lf.pypi_records(&name, Platform::Linux64).unwrap();
    assert!(pypi.is_empty());
}

#[test]
fn well_formedness_checkers_accept_and_reject() {
    let good = shared_group_project();
    assert!(good.check_wf());
    let bad_group = Project {
        environments: vec![environment("a", 7, Vec::new(), Vec::new())],
        groups: vec![SolveGroup::Single { environment: 0 }],
    };
    assert!(!bad_group.check_wf());
    let duplicate_names = Project {
        environments: vec![
            environment("a", 0, Vec::new(), Vec::new()),
            environment("a", 0, Vec::new(), Vec::new()),
        ],
        groups: vec![SolveGroup::Named { name: "g".to_string() }],
    };
    assert!(!duplicate_names.check_wf());

    let good_outdated = OutdatedEnvironments {
        conda: vec![(0, vec![Platform::Linux64])],
        pypi: Vec::new(),
    };
    assert!(good_outdated.check_wf(&good));
    let repeated_platform = OutdatedEnvironments {
        conda: vec![(0, vec![Platform::Linux64, Platform::Linux64])],
        pypi: Vec::new(),
    };
    assert!(!repeated_platform.check_wf(&good));

    assert!(baseline_for_b().check_wf());
    let duplicate_records = LockFileModel {
        environments: vec![LockedEnvironment {
            name: "b".to_string(),
            channels: Vec::new(),
            targets: vec![LockedTarget {
                platform: Platform::Linux64,
                conda: vec![rec("x", 1, &[]), rec("x", 2, &[])],
                pypi: Vec::new(),
            }],
        }],
    };
    assert!(!duplicate_records.check_wf());

    assert!(records_of(vec![rec("x", 1, &[]), rec("y", 1, &[])]).is_deduplicated());
    let raw = RecordsByName { records: vec![rec("x", 1, &[]), rec("x", 2, &[])] };
    assert!(!raw.is_deduplicated());
}
