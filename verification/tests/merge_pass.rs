use tangl::{MergeAction, MergeEvent, MergeRun, QualifiedPath};

fn paths(names: &[&str]) -> Vec<QualifiedPath> {
    names.iter().map(|n| QualifiedPath::from_raw(n)).collect()
}

#[test]
fn test_merge_pass_merges_all_in_order() {
    let mut run = MergeRun::new(paths(&["a", "b"]));
    for expected in ["a", "b"] {
        match run.next_action() {
            Some(MergeAction::Merge(p)) => assert_eq!(p.to_string(), expected),
            other => panic!("expected a merge, got {:?}", other),
        }
        run.absorb(MergeEvent::Completed(true));
    }
    assert!(run.next_action().is_none());
    let merged: Vec<String> = run
        .merged_features()
        .iter()
        .map(|p| p.to_string())
        .collect();
    assert_eq!(merged, vec!["a", "b"]);
    assert!(run.failure().is_none());
}

#[test]
fn test_merge_pass_stops_at_first_failure() {
    let mut run = MergeRun::new(paths(&["a", "b", "c"]));
    match run.next_action() {
        Some(MergeAction::Merge(p)) => assert_eq!(p.to_string(), "a"),
        other => panic!("expected a merge, got {:?}", other),
    }
    run.absorb(MergeEvent::Completed(true));
    match run.next_action() {
        Some(MergeAction::Merge(p)) => assert_eq!(p.to_string(), "b"),
        other => panic!("expected a merge, got {:?}", other),
    }
    // the failed merge must be aborted, and no later feature is attempted
    run.absorb(MergeEvent::Completed(false));
    match run.next_action() {
        Some(MergeAction::AbortMerge) => {}
        other => panic!("expected an abort, got {:?}", other),
    }
    run.absorb(MergeEvent::Completed(true));
    assert!(run.next_action().is_none());
    let merged: Vec<String> = run
        .merged_features()
        .iter()
        .map(|p| p.to_string())
        .collect();
    assert_eq!(merged, vec!["a"]);
    assert!(run.failure().is_none());
}

#[test]
fn test_merge_pass_backend_failure_carries_cause() {
    let mut run = MergeRun::new(paths(&["a"]));
    match run.next_action() {
        Some(MergeAction::Merge(p)) => assert_eq!(p.to_string(), "a"),
        other => panic!("expected a merge, got {:?}", other),
    }
    run.absorb(MergeEvent::Fatal(tangl::GitError::new("process failed")));
    assert!(run.next_action().is_none());
    assert!(run.merged_features().is_empty());
    let failure = run.failure().as_ref().expect("the cause must be kept");
    assert_eq!(failure.get_message(), "process failed");
}
