use tangl::{
    calculate_mergeable_features, choose_untie_target, extract_feature_names,
    filter_untie_candidates, get_derivation_start_metadata, get_last_metadata, get_max_clique,
    make_derivation_commit_message, parse_derivation_commit_message, plan_abort, plan_continue,
    scan_untie_commits, AbortDecision, Commit, ConflictStatistic, ConflictStatistics,
    ContinueDecision, DerivationMetadata, DerivationState, FeatureMetadata, QualifiedPath,
};

fn features(names: &[&str]) -> Vec<FeatureMetadata> {
    names.iter().map(|n| FeatureMetadata::new(n)).collect()
}

#[test]
fn test_new_initial_record() {
    let m = DerivationMetadata::new_initial(features(&["/main/feature/root/foo"]));
    assert!(matches!(m.get_state(), DerivationState::Starting));
    assert!(m.get_completed().is_empty());
    assert_eq!(m.get_missing(), &features(&["/main/feature/root/foo"]));
    assert_eq!(m.get_total(), &features(&["/main/feature/root/foo"]));
    // the generated identifier has the hyphenated form
    assert_eq!(m.get_id().len(), 36);
}

#[test]
fn test_extend_finished_record_grows_total() {
    let mut first = DerivationMetadata::new_initial(features(&["/f/a", "/f/b"]));
    first.as_finished();
    let second =
        DerivationMetadata::new_from_previously_finished(&first, features(&["/f/b", "/f/c"]));
    assert!(matches!(second.get_state(), DerivationState::Starting));
    assert_eq!(second.get_missing(), &features(&["/f/b", "/f/c"]));
    assert_eq!(second.get_total(), &features(&["/f/a", "/f/b", "/f/c"]));
    assert!(second.get_completed().is_empty());
}

#[test]
fn test_mark_as_completed_moves_features() {
    let mut m = DerivationMetadata::new_initial(features(&["/f/a", "/f/b", "/f/c"]));
    m.mark_as_completed(&vec![
        QualifiedPath::from_raw("/f/a"),
        QualifiedPath::from_raw("/f/x"),
    ]);
    assert_eq!(m.get_completed(), &features(&["/f/a"]));
    assert_eq!(m.get_missing(), &features(&["/f/b", "/f/c"]));
    assert_eq!(m.get_total(), &features(&["/f/a", "/f/b", "/f/c"]));
}

#[test]
fn test_state_texts_round_trip() {
    for state in [
        DerivationState::Starting,
        DerivationState::InProgress,
        DerivationState::Finished,
    ] {
        let text = state.to_text();
        let back = DerivationState::from_string(&text);
        assert_eq!(back, state);
    }
    assert_eq!(DerivationState::InProgress.to_text(), "in_progress");
}

#[test]
fn test_derivation_commit_message_round_trip() {
    // a checkpoint written into a commit message parses back equal, even in
    // a fresh process that only sees the message text
    let mut m = DerivationMetadata::new_initial(features(&[
        "/main/feature/root/foo",
        "/main/feature/root/bar",
    ]));
    m.mark_as_completed(&vec![QualifiedPath::from_raw("/main/feature/root/foo")]);
    m.as_in_progress();
    let written = make_derivation_commit_message(&m);
    let commit = Commit::new("hash", &written);
    let parsed = parse_derivation_commit_message(&commit).unwrap().unwrap();
    assert_eq!(parsed.get_id(), m.get_id());
    assert_eq!(parsed.get_state(), m.get_state());
    assert_eq!(parsed.get_completed(), m.get_completed());
    assert_eq!(parsed.get_missing(), m.get_missing());
    assert_eq!(parsed.get_total(), m.get_total());
}

#[test]
fn test_round_trip_survives_awkward_characters() {
    let mut m = DerivationMetadata::new_initial(features(&["/f/quote\"and\\slash"]));
    m.as_finished();
    let written = make_derivation_commit_message(&m);
    let parsed = parse_derivation_commit_message(&Commit::new("h", &written))
        .unwrap()
        .unwrap();
    assert_eq!(parsed.get_missing(), m.get_missing());
}

#[test]
fn test_derivation_commit_message_parse_wrong_commit() {
    let commit = Commit::new("hash", "foo");
    let parsed = parse_derivation_commit_message(&commit);
    assert!(parsed.is_none());
}

#[test]
fn test_sentinel_with_malformed_payload_is_hard_error() {
    let msg = "# DO NOT EDIT OR REMOVE THIS COMMIT\nDERIVATION STATUS\nnot a record";
    let commit = Commit::new("hash", msg);
    let parsed = parse_derivation_commit_message(&commit).unwrap();
    assert!(parsed.is_err());
}

#[test]
fn test_get_last_metadata_takes_most_recent() {
    let mut a = DerivationMetadata::new_initial(features(&["/f/a"]));
    a.as_finished();
    let b = DerivationMetadata::new_initial(features(&["/f/b"]));
    let commits = vec![
        Commit::new("3", "ordinary work"),
        Commit::new("2", &make_derivation_commit_message(&b)),
        Commit::new("1", &make_derivation_commit_message(&a)),
    ];
    let last = get_last_metadata(&commits).unwrap().unwrap();
    assert_eq!(last.get_id(), b.get_id());
    assert!(get_last_metadata(&vec![Commit::new("9", "nothing")])
        .unwrap()
        .is_none());
}

#[test]
fn test_derivation_start_is_oldest_matching_record() {
    let started = DerivationMetadata::new_initial(features(&["/f/a"]));
    let mut progressed = started.clone();
    progressed.as_in_progress();
    let commits = vec![
        Commit::new("3", &make_derivation_commit_message(&progressed)),
        Commit::new("2", &make_derivation_commit_message(&started)),
        Commit::new("1", "base"),
    ];
    let (found, index) = get_derivation_start_metadata(started.get_id(), &commits)
        .unwrap()
        .unwrap();
    assert_eq!(index, 1);
    assert_eq!(found.get_id(), started.get_id());
}

#[test]
fn test_derivation_idempotence() {
    // continuing a finished derivation is always an error, however many
    // begin/finish cycles came before
    let mut first = DerivationMetadata::new_initial(features(&["/f/a"]));
    first.as_finished();
    assert!(plan_continue(&Some(first.clone()), true).is_err());

    let mut second = DerivationMetadata::new_from_previously_finished(&first, features(&["/f/b"]));
    second.as_finished();
    assert!(plan_continue(&Some(second), true).is_err());

    // and with no derivation at all there is nothing to continue
    assert!(plan_continue(&None, true).is_err());
}

#[test]
fn test_continue_resumes_with_first_missing() {
    let m = DerivationMetadata::new_initial(features(&["/f/a", "/f/b"]));
    match plan_continue(&Some(m), true).unwrap() {
        ContinueDecision::ResumeWith(p) => assert_eq!(p.to_string(), "/f/a"),
        _ => panic!("an unfinished derivation must resume"),
    }
    // an unfinished derivation without a continue request is an error
    let m = DerivationMetadata::new_initial(features(&["/f/a"]));
    assert!(plan_continue(&Some(m), false).is_err());
}

#[test]
fn test_abort_resets_to_last_clean_state() {
    let started = DerivationMetadata::new_initial(features(&["/f/a"]));
    let commits = vec![
        Commit::new("3", "merge work"),
        Commit::new("2", &make_derivation_commit_message(&started)),
        Commit::new("1", "clean base"),
    ];
    match plan_abort(&Some(started.clone()), &commits, true).unwrap() {
        AbortDecision::ResetTo(hash) => assert_eq!(hash, "1"),
        _ => panic!("an abort was requested"),
    }
    let mut finished = started;
    finished.as_finished();
    assert!(plan_abort(&Some(finished), &commits, true).is_err());
    assert!(plan_abort(&None, &commits, true).is_err());
    assert!(matches!(
        plan_abort(&None, &commits, false).unwrap(),
        AbortDecision::NotRequested
    ));
}

#[test]
fn test_clique_correctness() {
    // with edges a-b, b-c and a-c but no edge to d, the maximum clique is
    // exactly the triangle and never includes d
    let a = QualifiedPath::from_raw("/f/a");
    let b = QualifiedPath::from_raw("/f/b");
    let c = QualifiedPath::from_raw("/f/c");
    let d = QualifiedPath::from_raw("/f/d");
    let paths = vec![a.clone(), b.clone(), c.clone(), d.clone()];
    let mut stats = ConflictStatistics::new();
    stats.push(ConflictStatistic::OK(vec![a.clone(), b.clone()]));
    stats.push(ConflictStatistic::OK(vec![b.clone(), c.clone()]));
    stats.push(ConflictStatistic::OK(vec![a.clone(), c.clone()]));
    let mut mergeable: Vec<String> = calculate_mergeable_features(&paths, &stats)
        .unwrap()
        .into_iter()
        .map(|p| p.to_string())
        .collect();
    mergeable.sort();
    assert_eq!(mergeable, vec!["/f/a", "/f/b", "/f/c"]);
}

#[test]
fn test_max_clique_of_empty_graph_is_empty() {
    let edges: Vec<(u32, u32)> = Vec::new();
    assert!(get_max_clique(&edges).is_empty());
}

#[test]
fn test_errors_refuse_an_order() {
    let a = QualifiedPath::from_raw("/f/a");
    let b = QualifiedPath::from_raw("/f/b");
    let mut stats = ConflictStatistics::new();
    stats.push(ConflictStatistic::ERROR(
        vec![a.clone(), b.clone()],
        tangl::GitError::new("boom"),
    ));
    assert!(calculate_mergeable_features(&vec![a, b], &stats).is_err());
}

#[test]
fn test_extract_feature_names_drops_markers() {
    let msg = "# DO NOT EDIT OR REMOVE THIS COMMIT\nDERIVATION FINISHED\n/f/a\n/f/b";
    let names: Vec<String> = extract_feature_names(msg)
        .into_iter()
        .map(|p| p.to_string())
        .collect();
    assert_eq!(names, vec!["/f/a", "/f/b"]);
}

#[test]
fn test_untie_scan_and_choice() {
    let commits_oldest_first = vec![
        Commit::new("1", "base"),
        Commit::new(
            "2",
            "# DO NOT EDIT OR REMOVE THIS COMMIT\nDERIVATION FINISHED\n/f/a",
        ),
        Commit::new("3", "later work"),
    ];
    let hash3 = "3".to_string();
    let found: Vec<String> = scan_untie_commits(&commits_oldest_first, &hash3)
        .unwrap()
        .into_iter()
        .map(|p| p.to_string())
        .collect();
    assert_eq!(found, vec!["/f/a"]);
    // the derivation commit itself cannot be untied
    let hash2 = "2".to_string();
    assert!(scan_untie_commits(&commits_oldest_first, &hash2).is_err());
    // a commit before any derivation is not valid either
    let hash1 = "1".to_string();
    assert!(scan_untie_commits(&commits_oldest_first, &hash1).is_err());

    let candidates = vec![QualifiedPath::from_raw("/f/a"), QualifiedPath::from_raw("/f/b")];
    let managed = vec![
        vec!["x.txt".to_string(), "y.txt".to_string()],
        vec!["y.txt".to_string()],
    ];
    let changed = vec!["x.txt".to_string()];
    let filtered = filter_untie_candidates(&candidates, &managed, &changed);
    assert_eq!(filtered.len(), 1);
    assert_eq!(filtered[0].to_string(), "/f/a");
    assert_eq!(
        choose_untie_target(&filtered, None).unwrap().to_string(),
        "/f/a"
    );
    // with no single candidate the choice must be made by hand
    let none: Vec<QualifiedPath> = Vec::new();
    assert!(choose_untie_target(&none, None).is_err());
    let manual = "root/foo".to_string();
    assert_eq!(
        choose_untie_target(&none, Some(&manual)).unwrap().to_string(),
        "root/foo"
    );
}
