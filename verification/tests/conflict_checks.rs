use tangl::{
    ConflictCheckBaseBranch, ConflictChecker, ConflictProbe, ConflictStatistic,
    ConflictStatistics, GitError, ProbeAction, ProbeEvent, QualifiedPath,
};

fn ok_event() -> ProbeEvent {
    ProbeEvent::Completed(true, String::new())
}

fn fail_event() -> ProbeEvent {
    ProbeEvent::Completed(false, String::new())
}

/// Drives one probe against a tiny simulated backend and returns the
/// classification together with the simulated end state.
fn drive(
    mut probe: ConflictProbe,
    merge_succeeds: bool,
    initial_branch: &str,
) -> (ConflictStatistic, String, Vec<String>) {
    let mut current = initial_branch.to_string();
    let mut branches: Vec<String> = Vec::new();
    loop {
        match probe.next_action() {
            None => break,
            Some(action) => match action {
                ProbeAction::ReadCurrentBranch => {
                    probe.absorb(ProbeEvent::Current(QualifiedPath::from_branch(&current)));
                }
                ProbeAction::Checkout(p) => {
                    current = p.to_git_branch();
                    probe.absorb(ok_event());
                }
                ProbeAction::CheckoutTemporary(p) => {
                    current = p.to_git_branch();
                    probe.absorb(ok_event());
                }
                ProbeAction::CreateBranch(p) => {
                    branches.push(p.to_git_branch());
                    probe.absorb(ok_event());
                }
                ProbeAction::Merge(_, _) => {
                    if merge_succeeds {
                        probe.absorb(ok_event());
                    } else {
                        probe.absorb(fail_event());
                    }
                }
                ProbeAction::AbortMerge => {
                    probe.absorb(ok_event());
                }
                ProbeAction::DeleteBranch(p) => {
                    let name = p.to_git_branch();
                    branches.retain(|b| *b != name);
                    probe.absorb(ok_event());
                }
            },
        }
    }
    (probe.classification(), current, branches)
}

#[test]
fn test_probe_clean_merge_classifies_ok() {
    let probe = ConflictProbe::new(
        QualifiedPath::from_raw("/main/feature/root/a"),
        QualifiedPath::from_raw("/main/feature/root/b"),
        ConflictCheckBaseBranch::Current,
    );
    let (stat, _, _) = drive(probe, true, "main");
    assert!(matches!(stat, ConflictStatistic::OK(_)));
}

#[test]
fn test_probe_failed_merge_classifies_conflict_and_aborts() {
    let probe = ConflictProbe::new(
        QualifiedPath::from_raw("/main/feature/root/a"),
        QualifiedPath::from_raw("/main/feature/root/b"),
        ConflictCheckBaseBranch::Current,
    );
    let (stat, _, _) = drive(probe, false, "main");
    assert!(matches!(stat, ConflictStatistic::CONFLICT(_)));
}

#[test]
fn test_cleanup_runs_on_every_outcome() {
    // after any probe the checkout equals the branch before the call and no
    // disposable branch remains, whether the merge succeeded or not
    for merge_succeeds in [true, false] {
        let probe = ConflictProbe::new(
            QualifiedPath::from_raw("/main/feature/root/a"),
            QualifiedPath::from_raw("/main/feature/root/b"),
            ConflictCheckBaseBranch::Current,
        );
        let (_, current, branches) = drive(probe, merge_succeeds, "main");
        assert_eq!(current, "main");
        assert!(branches.is_empty());
    }
}

#[test]
fn test_backend_error_is_carried_not_swallowed() {
    let mut probe = ConflictProbe::new(
        QualifiedPath::from_raw("/main/feature/root/a"),
        QualifiedPath::from_raw("/main/feature/root/b"),
        ConflictCheckBaseBranch::Current,
    );
    // the very first backend call dies
    assert!(matches!(
        probe.next_action(),
        Some(ProbeAction::ReadCurrentBranch)
    ));
    probe.absorb(ProbeEvent::Fatal(GitError::new("backend unavailable")));
    let stat = probe.classification();
    match stat {
        ConflictStatistic::ERROR(_, cause) => {
            assert_eq!(cause.get_message(), "backend unavailable");
        }
        _ => panic!("a backend failure must classify as an error"),
    }
}

#[test]
fn test_check_symmetry() {
    // the same backend replies classify the same whichever order the pair
    // was given in
    let a = QualifiedPath::from_raw("/main/feature/root/a");
    let b = QualifiedPath::from_raw("/main/feature/root/b");
    for merge_succeeds in [true, false] {
        let p1 = ConflictProbe::new(a.clone(), b.clone(), ConflictCheckBaseBranch::Current);
        let p2 = ConflictProbe::new(b.clone(), a.clone(), ConflictCheckBaseBranch::Current);
        let (s1, _, _) = drive(p1, merge_succeeds, "main");
        let (s2, _, _) = drive(p2, merge_succeeds, "main");
        let same = matches!(
            (&s1, &s2),
            (ConflictStatistic::OK(_), ConflictStatistic::OK(_))
                | (ConflictStatistic::CONFLICT(_), ConflictStatistic::CONFLICT(_))
        );
        assert!(same);
    }
}

#[test]
fn test_check_all_pairs_run() {
    // three paths give three unordered pairs
    let paths = vec![
        QualifiedPath::from_raw("/main/feature/root/a"),
        QualifiedPath::from_raw("/main/feature/root/b"),
        QualifiedPath::from_raw("/main/feature/root/c"),
    ];
    let checker = ConflictChecker::new(ConflictCheckBaseBranch::Current);
    let mut run = checker.check_n_to_n_pairwise(&paths);
    let mut actions = 0;
    loop {
        match run.next_action() {
            None => break,
            Some(action) => {
                actions += 1;
                match action {
                    ProbeAction::ReadCurrentBranch => {
                        run.absorb(ProbeEvent::Current(QualifiedPath::from_raw("/main")));
                    }
                    ProbeAction::Merge(_, _) => run.absorb(ok_event()),
                    _ => run.absorb(ok_event()),
                }
            }
        }
    }
    assert!(actions > 0);
    let stats = run.into_statistics();
    assert_eq!(stats.n_ok(), 3);
    assert_eq!(stats.n_conflict(), 0);
    assert_eq!(stats.n_errors(), 0);
}

#[test]
fn test_check_one_to_n_pairs() {
    let source = QualifiedPath::from_raw("/main/feature/root/a");
    let targets = vec![
        QualifiedPath::from_raw("/main/feature/root/b"),
        QualifiedPath::from_raw("/main/feature/root/c"),
    ];
    let checker = ConflictChecker::new(ConflictCheckBaseBranch::Current);
    let mut run = checker.check_1_to_n_pairwise(&source, &targets);
    loop {
        match run.next_action() {
            None => break,
            Some(ProbeAction::ReadCurrentBranch) => {
                run.absorb(ProbeEvent::Current(QualifiedPath::from_raw("/main")));
            }
            Some(ProbeAction::Merge(_, _)) => run.absorb(fail_event()),
            Some(_) => run.absorb(ok_event()),
        }
    }
    let stats = run.into_statistics();
    assert_eq!(stats.n_ok(), 0);
    assert_eq!(stats.n_conflict(), 2);
    assert_eq!(stats.n_errors(), 0);
}

#[test]
fn test_statistics_partition_and_equality() {
    let a = QualifiedPath::from_raw("/a");
    let b = QualifiedPath::from_raw("/b");
    let mut stats = ConflictStatistics::new();
    stats.push(ConflictStatistic::OK(vec![a.clone(), b.clone()]));
    stats.push(ConflictStatistic::CONFLICT(vec![a.clone(), b.clone()]));
    stats.push(ConflictStatistic::ERROR(
        vec![a.clone(), b.clone()],
        GitError::new("boom"),
    ));
    assert_eq!(stats.n_ok(), 1);
    assert_eq!(stats.n_conflict(), 1);
    assert_eq!(stats.n_errors(), 1);
    assert_eq!(stats.iter_all().len(), 3);
    // equality compares only the path set, not the cause
    assert!(stats.contains(&ConflictStatistic::ERROR(
        vec![a.clone(), b.clone()],
        GitError::new("different cause"),
    )));
    assert!(!stats.contains(&ConflictStatistic::OK(vec![a.clone()])));
    let collected = ConflictStatistics::from_iter(stats.iter_all());
    assert_eq!(collected.n_ok(), 1);
    assert_eq!(collected.n_conflict(), 1);
    assert_eq!(collected.n_errors(), 1);
}
