use dpms_sync::detect::diff_metadata;
use dpms_sync::pipeline::{advance, begin_run, Action, Event, FailedStage, RunOutcome, RunState};
use dpms_sync::snapshot::{FileRecord, Snapshot};

fn snap(items: &[(&str, u64, u64)]) -> Snapshot {
    let mut s = Snapshot::new();
    for (p, size, mtime) in items {
        s.insert(FileRecord { path: p.to_string(), size: *size, modified_at: *mtime });
    }
    s
}

#[test]
fn new_file_is_detected() {
    let baseline = snap(&[("a", 10, 100)]);
    let current = snap(&[("a", 10, 100), ("b", 5, 200)]);
    assert_eq!(diff_metadata(&baseline, &current), vec!["b".to_string()]);
}

#[test]
fn empty_baseline_sends_everything() {
    let baseline = snap(&[]);
    let current = snap(&[("b", 5, 200), ("a", 10, 100)]);
    assert_eq!(diff_metadata(&baseline, &current), vec!["a".to_string(), "b".to_string()]);
}

#[test]
fn size_change_is_detected() {
    let baseline = snap(&[("a", 10, 100)]);
    let current = snap(&[("a", 20, 100)]);
    assert_eq!(diff_metadata(&baseline, &current), vec!["a".to_string()]);
}

#[test]
fn mtime_change_is_detected() {
    let baseline = snap(&[("a", 10, 100)]);
    let current = snap(&[("a", 10, 101)]);
    assert_eq!(diff_metadata(&baseline, &current), vec!["a".to_string()]);
}

#[test]
fn removed_file_is_no_change() {
    let baseline = snap(&[("a", 10, 100), ("gone", 1, 1)]);
    let current = snap(&[("a", 10, 100)]);
    assert!(diff_metadata(&baseline, &current).is_empty());
}

#[test]
fn change_set_is_sorted() {
    let baseline = snap(&[]);
    let current = snap(&[("z/y", 1, 1), ("a/b", 1, 1), ("m", 1, 1), ("a", 1, 1)]);
    assert_eq!(
        diff_metadata(&baseline, &current),
        vec!["a".to_string(), "a/b".to_string(), "m".to_string(), "z/y".to_string()]
    );
}

#[test]
fn second_run_without_changes_uploads_nothing() {
    let current = snap(&[("a", 10, 100), ("b", 5, 200)]);
    let (state, action) = begin_run(&snap(&[]), &current, false);
    assert!(matches!(state, RunState::Uploading(_)));
    assert!(matches!(action, Action::Upload(ref f) if f.len() == 2));
    let (state, action) = advance(state, Event::Uploaded);
    assert!(matches!(action, Action::Commit));
    let (_, action) = advance(state, Event::Committed);
    assert!(matches!(action, Action::Stop(RunOutcome::Synced)));
    // the committed baseline is `current`; the rescan finds the same files
    let rescan = snap(&[("b", 5, 200), ("a", 10, 100)]);
    let (state, action) = begin_run(&current, &rescan, true);
    assert!(matches!(state, RunState::Finished(RunOutcome::NoChanges)));
    assert!(matches!(action, Action::Stop(RunOutcome::NoChanges)));
}

#[test]
fn failed_upload_never_commits() {
    let current = snap(&[("a", 10, 100)]);
    let (state, _) = begin_run(&snap(&[]), &current, false);
    let (state, action) = advance(state, Event::UploadFailed(FailedStage::Transport));
    assert!(matches!(action, Action::Stop(RunOutcome::Failed(FailedStage::Transport))));
    assert!(matches!(state, RunState::Finished(RunOutcome::Failed(FailedStage::Transport))));
    // a late acknowledgement does not lead to a commit
    let (state, action) = advance(state, Event::Uploaded);
    assert!(matches!(action, Action::Wait));
    assert!(matches!(state, RunState::Finished(RunOutcome::Failed(FailedStage::Transport))));
}

#[test]
fn commit_failure_is_reported_apart() {
    let current = snap(&[("a", 10, 100)]);
    let (state, _) = begin_run(&snap(&[]), &current, false);
    let (state, _) = advance(state, Event::Uploaded);
    let (_, action) = advance(state, Event::CommitFailed);
    assert!(matches!(action, Action::Stop(RunOutcome::Failed(FailedStage::Commit))));
}

#[test]
fn negotiation_failure_uploads_everything() {
    let current = snap(&[("a", 1, 1), ("b", 2, 2), ("c", 3, 3)]);
    let (state, action) = begin_run(&snap(&[]), &current, true);
    assert!(matches!(action, Action::Negotiate(ref c) if c.len() == 3));
    let (_, action) = advance(state, Event::Negotiated(None));
    match action {
        Action::Upload(files) => {
            assert_eq!(files, vec!["a".to_string(), "b".to_string(), "c".to_string()])
        }
        other => panic!("unexpected {:?}", other),
    }
}

#[test]
fn negotiation_trims_to_what_the_remote_lacks() {
    let current = snap(&[("a", 1, 1), ("b", 2, 2), ("c", 3, 3)]);
    let (state, _) = begin_run(&snap(&[]), &current, true);
    let answer = br#"{"needed_files": ["c", "x", "a"], "note": 1}"#.to_vec();
    let (_, action) = advance(state, Event::Negotiated(Some(answer)));
    match action {
        Action::Upload(files) => assert_eq!(files, vec!["a".to_string(), "c".to_string()]),
        other => panic!("unexpected {:?}", other),
    }
}

#[test]
fn nothing_needed_ends_without_upload() {
    let current = snap(&[("a", 1, 1)]);
    let (state, _) = begin_run(&snap(&[]), &current, true);
    let answer = br#"{"needed_files": []}"#.to_vec();
    let (state, action) = advance(state, Event::Negotiated(Some(answer)));
    assert!(matches!(action, Action::Stop(RunOutcome::NothingNeeded)));
    assert!(matches!(state, RunState::Finished(RunOutcome::NothingNeeded)));
}

#[test]
fn unreadable_answer_uploads_everything() {
    let current = snap(&[("a", 1, 1), ("b", 2, 2)]);
    for body in [&b"not json"[..], br#"{"needed_files": [1]}"#, br#"["a"]"#, br#"{"other": ["a"]}"#] {
        let (state, _) = begin_run(&snap(&[]), &current, true);
        let (_, action) = advance(state, Event::Negotiated(Some(body.to_vec())));
        match action {
            Action::Upload(files) => assert_eq!(files, vec!["a".to_string(), "b".to_string()]),
            other => panic!("unexpected {:?}", other),
        }
    }
}
