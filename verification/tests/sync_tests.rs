use gitjournal::cli::JournalInputs;
use gitjournal::model::{CommitRef, JournalEntry, Origin};
use gitjournal::sync::{
    branch_in_list, commits_hashes_unique, entries_hashes_unique, step, FetchFault, LoadFault,
    SyncError, SyncEvent, SyncStage, SyncState,
};

fn commit(hash: &str, timestamp: u64, message: &str) -> CommitRef {
    CommitRef {
        hash: hash.as_bytes().to_vec(),
        timestamp,
        author: b"dev".to_vec(),
        message: message.as_bytes().to_vec(),
    }
}

fn entry(hash: &str, minutes: u64, timestamp: u64) -> JournalEntry {
    JournalEntry {
        hash: hash.as_bytes().to_vec(),
        minutes,
        label: None,
        timestamp,
        origin: Origin::Loaded,
    }
}

#[test]
fn happy_path_reaches_done_with_counts() {
    let mut s = SyncState::Idle { branch: "main".to_string() };
    s = step(s, SyncEvent::Start);
    assert!(matches!(s, SyncState::LoadingJournal { .. }));
    s = step(s, SyncEvent::JournalLoaded { entries: None });
    assert!(matches!(s, SyncState::FetchingCommits { .. }));
    s = step(
        s,
        SyncEvent::BranchList { available: vec!["dev".to_string(), "main".to_string()] },
    );
    assert!(matches!(s, SyncState::FetchingCommits { .. }));
    let commits = vec![
        commit("aaa", 100, "[time: 2h] fix bug"),
        commit("bbb", 200, "nothing"),
        commit("ccc", 300, "[time: 0m] zero"),
    ];
    assert!(commits_hashes_unique(&commits));
    s = step(s, SyncEvent::CommitsFetched { commits });
    assert!(matches!(s, SyncState::Reconciling { .. }));
    s = step(s, SyncEvent::Advance);
    match &s {
        SyncState::Persisting { result } => {
            assert_eq!(result.added, 1);
            assert_eq!(result.skipped, 0);
            assert_eq!(result.failures.len(), 1);
            assert_eq!(result.entries.len(), 1);
            assert_eq!(result.entries[0].minutes, 120);
        }
        other => panic!("expected the persisting state, got {:?}", other),
    }
    s = step(s, SyncEvent::Persisted);
    match s {
        SyncState::Done { added, skipped, failed } => {
            assert_eq!((added, skipped, failed), (1, 0, 1));
        }
        other => panic!("expected the done state, got {:?}", other),
    }
}

#[test]
fn unknown_branch_aborts_while_fetching_and_lists_real_names() {
    let s = SyncState::FetchingCommits {
        branch: "maim".to_string(),
        existing: vec![entry("aaa", 1, 1)],
    };
    let next = step(
        s,
        SyncEvent::BranchList { available: vec!["main".to_string(), "dev".to_string()] },
    );
    match next {
        SyncState::Failed { stage, cause } => {
            assert_eq!(stage, SyncStage::FetchingCommits);
            match &cause {
                SyncError::UnknownBranch { requested, available } => {
                    assert_eq!(requested, "maim");
                    assert_eq!(available, &vec!["main".to_string(), "dev".to_string()]);
                }
                other => panic!("expected an unknown-branch cause, got {:?}", other),
            }
            assert_eq!(
                cause.available_branches_joined(),
                Some("main, dev".to_string())
            );
        }
        other => panic!("expected the failed state, got {:?}", other),
    }
}

#[test]
fn journal_faults_abort_while_loading() {
    let s = SyncState::LoadingJournal { branch: "main".to_string() };
    let next = step(s, SyncEvent::JournalFailed { fault: LoadFault::Corrupt });
    assert!(matches!(
        next,
        SyncState::Failed { stage: SyncStage::LoadingJournal, cause: SyncError::Corrupt }
    ));
    let s = SyncState::LoadingJournal { branch: "main".to_string() };
    let next = step(s, SyncEvent::JournalFailed { fault: LoadFault::IoFailure });
    assert!(matches!(
        next,
        SyncState::Failed { stage: SyncStage::LoadingJournal, cause: SyncError::IoFailure }
    ));
}

#[test]
fn duplicate_loaded_rows_are_corrupt() {
    let s = SyncState::LoadingJournal { branch: "main".to_string() };
    let next = step(
        s,
        SyncEvent::JournalLoaded {
            entries: Some(vec![entry("aaa", 1, 1), entry("aaa", 2, 2)]),
        },
    );
    assert!(matches!(
        next,
        SyncState::Failed { stage: SyncStage::LoadingJournal, cause: SyncError::Corrupt }
    ));
}

#[test]
fn fetch_faults_abort_while_fetching() {
    let s = SyncState::FetchingCommits { branch: "main".to_string(), existing: vec![] };
    let next = step(s, SyncEvent::FetchFailed { fault: FetchFault::AuthFailure });
    assert!(matches!(
        next,
        SyncState::Failed { stage: SyncStage::FetchingCommits, cause: SyncError::AuthFailure }
    ));
    let s = SyncState::FetchingCommits { branch: "main".to_string(), existing: vec![] };
    let next = step(s, SyncEvent::FetchFailed { fault: FetchFault::NetworkFailure });
    assert!(matches!(
        next,
        SyncState::Failed { stage: SyncStage::FetchingCommits, cause: SyncError::NetworkFailure }
    ));
}

#[test]
fn persist_fault_aborts_while_persisting() {
    let s = SyncState::Reconciling { existing: vec![], commits: vec![] };
    let s = step(s, SyncEvent::Advance);
    let next = step(s, SyncEvent::PersistFailed);
    assert!(matches!(
        next,
        SyncState::Failed { stage: SyncStage::Persisting, cause: SyncError::IoFailure }
    ));
}

#[test]
fn stray_event_leaves_state_unchanged() {
    let s = SyncState::Idle { branch: "main".to_string() };
    let next = step(s, SyncEvent::Persisted);
    assert!(matches!(next, SyncState::Idle { branch } if branch == "main"));
}

#[test]
fn uniqueness_checks_decide_correctly() {
    assert!(entries_hashes_unique(&vec![entry("a", 1, 1), entry("b", 1, 1)]));
    assert!(!entries_hashes_unique(&vec![entry("a", 1, 1), entry("a", 2, 2)]));
    assert!(commits_hashes_unique(&vec![commit("a", 1, "x")]));
    assert!(!commits_hashes_unique(&vec![commit("a", 1, "x"), commit("a", 2, "y")]));
}

#[test]
fn branch_lookup_decides_membership() {
    let names = vec!["main".to_string(), "dev".to_string()];
    assert!(branch_in_list(&"dev".to_string(), &names));
    assert!(!branch_in_list(&"trunk".to_string(), &names));
}

#[test]
fn journal_inputs_carry_the_run_configuration() {
    let inputs = JournalInputs {
        owner: "octo".to_string(),
        repo: "journal".to_string(),
        branch: "main".to_string(),
        file: "jdt.xlsx".to_string(),
        pat: None,
    };
    assert_eq!(inputs.owner, "octo");
    assert_eq!(inputs.repo, "journal");
    assert_eq!(inputs.branch, "main");
    assert_eq!(inputs.file, "jdt.xlsx");
    assert!(inputs.pat.is_none());
}
