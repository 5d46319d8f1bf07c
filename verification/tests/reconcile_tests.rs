use gitjournal::model::{CommitRef, JournalEntry, Origin};
use gitjournal::parse::MalformedReason;
use gitjournal::reconcile::reconcile;

fn commit(hash: &str, timestamp: u64, message: &str) -> CommitRef {
    CommitRef {
        hash: hash.as_bytes().to_vec(),
        timestamp,
        author: b"dev".to_vec(),
        message: message.as_bytes().to_vec(),
    }
}

fn entry(hash: &str, minutes: u64, timestamp: u64, origin: Origin) -> JournalEntry {
    JournalEntry {
        hash: hash.as_bytes().to_vec(),
        minutes,
        label: None,
        timestamp,
        origin,
    }
}

#[test]
fn adds_one_entry_from_one_annotated_commit() {
    let existing: Vec<JournalEntry> = vec![];
    let commits = vec![commit("aaa", 1000, "[time: 2h] fix bug")];
    let r = reconcile(&existing, &commits);
    assert_eq!(r.entries.len(), 1);
    assert_eq!(r.entries[0].hash, b"aaa".to_vec());
    assert_eq!(r.entries[0].minutes, 120);
    assert_eq!(r.entries[0].label, Some(b"fix bug".to_vec()));
    assert_eq!(r.entries[0].timestamp, 1000);
    assert_eq!(r.entries[0].origin, Origin::Derived);
    assert_eq!(r.added, 1);
    assert_eq!(r.skipped, 0);
    assert_eq!(r.failures.len(), 0);
}

#[test]
fn present_commit_is_skipped_and_untagged_commit_contributes_nothing() {
    let existing = vec![entry("aaa", 45, 500, Origin::Loaded)];
    let commits = vec![
        commit("aaa", 500, "[time: 9h] would change the row"),
        commit("bbb", 600, "no tag here"),
    ];
    let r = reconcile(&existing, &commits);
    assert_eq!(r.entries, existing);
    assert_eq!(r.added, 0);
    assert_eq!(r.skipped, 1);
    assert_eq!(r.failures.len(), 0);
}

#[test]
fn malformed_commit_is_counted_and_changes_nothing() {
    let existing = vec![entry("aaa", 45, 500, Origin::Loaded)];
    let commits = vec![commit("xxx", 700, "[time: -1h] oops")];
    let r = reconcile(&existing, &commits);
    assert_eq!(r.entries, existing);
    assert_eq!(r.added, 0);
    assert_eq!(r.skipped, 0);
    assert_eq!(r.failures.len(), 1);
    assert_eq!(r.failures[0].hash, b"xxx".to_vec());
    assert_eq!(r.failures[0].reason, MalformedReason::InvalidDuration);
}

#[test]
fn output_is_sorted_by_timestamp_then_hash() {
    let existing = vec![entry("zzz", 10, 300, Origin::Loaded)];
    let commits = vec![
        commit("bbb", 100, "[time: 1h]"),
        commit("aaa", 100, "[time: 2h]"),
        commit("ccc", 900, "[time: 3h]"),
    ];
    let r = reconcile(&existing, &commits);
    let hashes: Vec<Vec<u8>> = r.entries.iter().map(|e| e.hash.clone()).collect();
    assert_eq!(
        hashes,
        vec![b"aaa".to_vec(), b"bbb".to_vec(), b"zzz".to_vec(), b"ccc".to_vec()]
    );
    assert_eq!(r.added, 3);
}

#[test]
fn reconcile_is_idempotent() {
    let existing = vec![entry("old", 5, 50, Origin::Loaded)];
    let commits = vec![
        commit("aaa", 100, "[time: 1h] one"),
        commit("bbb", 200, "[time: 30m] two"),
        commit("ccc", 300, "nothing"),
    ];
    let first = reconcile(&existing, &commits);
    assert_eq!(first.added, 2);
    let second = reconcile(&first.entries, &commits);
    assert_eq!(second.entries, first.entries);
    assert_eq!(second.added, 0);
    assert_eq!(second.skipped, 2);
    assert_eq!(second.failures.len(), 0);
}

#[test]
fn reconcile_is_deterministic_under_commit_order() {
    let existing = vec![entry("old", 5, 50, Origin::Loaded)];
    let a = commit("aaa", 100, "[time: 1h] one");
    let b = commit("bbb", 200, "[time: 30m] two");
    let c = commit("ccc", 300, "[time: bad]");
    let r1 = reconcile(&existing, &vec![a.clone(), b.clone(), c.clone()]);
    let r2 = reconcile(&existing, &vec![c, b, a]);
    assert_eq!(r1.entries, r2.entries);
    assert_eq!(r1.added, r2.added);
    assert_eq!(r1.skipped, r2.skipped);
    assert_eq!(r1.failures.len(), r2.failures.len());
}

#[test]
fn output_hashes_are_unique_and_existing_entries_are_kept() {
    let existing = vec![
        entry("aaa", 1, 10, Origin::Loaded),
        entry("bbb", 2, 20, Origin::Loaded),
    ];
    let commits = vec![
        commit("aaa", 10, "[time: 4h]"),
        commit("ccc", 30, "[time: 15m] new"),
    ];
    let r = reconcile(&existing, &commits);
    for e in &existing {
        assert!(r.entries.contains(e));
    }
    for i in 0..r.entries.len() {
        for j in (i + 1)..r.entries.len() {
            assert_ne!(r.entries[i].hash, r.entries[j].hash);
        }
    }
    assert_eq!(r.added, 1);
    assert_eq!(r.skipped, 1);
}
