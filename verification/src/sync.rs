//! The synchronization orchestrator, as a state machine.
//!
//! A run walks `Idle -> LoadingJournal -> FetchingCommits -> Reconciling
//! -> Persisting -> Done`; any fault moves it to the terminal `Failed`
//! with the stage it happened in and its cause. The surrounding program
//! performs the outside work of each stage (reading the journal file,
//! asking the remote host, writing the file) and hands the outcome back
//! as an event; every decision in between is made here. An absent
//! journal file is an empty journal, not a fault; an unknown branch is a
//! fault that carries the real branch names; nothing is handed to
//! persistence unless a whole merged set was computed.

use vstd::prelude::*;

use itertools::Itertools;

use crate::model::{CommitRef, JournalEntry, bytes_eq, unique_commit_hashes, unique_entry_hashes};
use crate::reconcile::{ReconciliationResult, derived_entries, merged_entries, parse_failures,
    reconcile, skipped_count, view_commits, view_entries};

verus! {

/// The stage a fault happened in.
#[derive(Clone, Copy, PartialEq, Eq, Structural, Debug)]
pub enum SyncStage {
    LoadingJournal,
    FetchingCommits,
    Persisting,
}

/// Why a run failed.
#[derive(Debug)]
pub enum SyncError {
    /// The requested branch does not exist; the real names are carried
    /// to aid correction.
    UnknownBranch { requested: String, available: Vec<String> },
    /// The remote host rejected the credentials.
    AuthFailure,
    /// The remote host could not be reached, or the fetch was cut short.
    NetworkFailure,
    /// The journal file exists but cannot be read as a journal.
    Corrupt,
    /// Reading or writing the journal file failed.
    IoFailure,
}

/// A fault while loading the journal.
#[derive(Clone, Copy, PartialEq, Eq, Structural, Debug)]
pub enum LoadFault {
    Corrupt,
    IoFailure,
}

/// A fault while fetching from the remote host.
#[derive(Clone, Copy, PartialEq, Eq, Structural, Debug)]
pub enum FetchFault {
    AuthFailure,
    NetworkFailure,
}

/// Where a run stands.
#[derive(Debug)]
pub enum SyncState {
    /// Nothing started yet.
    Idle { branch: String },
    /// Waiting for the existing journal entries.
    LoadingJournal { branch: String },
    /// Waiting for the branch list and the commit list.
    FetchingCommits { branch: String, existing: Vec<JournalEntry> },
    /// Both inputs are at hand; the merge is next.
    Reconciling { existing: Vec<JournalEntry>, commits: Vec<CommitRef> },
    /// The merged set awaits the write.
    Persisting { result: ReconciliationResult },
    /// The run succeeded, with its counts.
    Done { added: usize, skipped: usize, failed: usize },
    /// The run aborted: the stage it was in, and why.
    Failed { stage: SyncStage, cause: SyncError },
}

/// What the outside work of a stage reported.
pub enum SyncEvent {
    /// Begin the run.
    Start,
    /// The journal file was read (`None`: no prior file, an empty
    /// journal).
    JournalLoaded { entries: Option<Vec<JournalEntry>> },
    /// The journal file could not be read.
    JournalFailed { fault: LoadFault },
    /// The remote host listed the repository's branches.
    BranchList { available: Vec<String> },
    /// The remote host listed the branch's commits.
    CommitsFetched { commits: Vec<CommitRef> },
    /// The remote host could not be asked.
    FetchFailed { fault: FetchFault },
    /// The orchestrator's own step: run the merge. Carries no outside
    /// data.
    Advance,
    /// The merged set was written in full.
    Persisted,
    /// Writing the merged set failed; nothing partial was kept.
    PersistFailed,
}

/// The entries a state carries are a valid journal; the commits it
/// carries have distinct hashes.
pub open spec fn state_wf(s: SyncState) -> bool {
    match s {
        SyncState::FetchingCommits { existing, .. } => unique_entry_hashes(
            view_entries(existing@),
        ),
        SyncState::Reconciling { existing, commits } => unique_entry_hashes(
            view_entries(existing@),
        ) && unique_commit_hashes(view_commits(commits@)),
        _ => true,
    }
}

/// A commit list handed to the machine has distinct hashes: commit
/// hashes are the natural key of the history.
pub open spec fn event_wf(e: SyncEvent) -> bool {
    match e {
        SyncEvent::CommitsFetched { commits } => unique_commit_hashes(view_commits(commits@)),
        _ => true,
    }
}

/// The branch name stands in the list.
pub open spec fn branch_known(branch: Seq<char>, available: Seq<String>) -> bool {
    exists|i: int| 0 <= i < available.len() && available[i]@ == branch
}

/// Tests that no two entries share a hash: the journal validity
/// invariant.
pub fn entries_hashes_unique(entries: &Vec<JournalEntry>) -> (r: bool)
    ensures
        r == unique_entry_hashes(view_entries(entries@)),
{
    let ghost vs = view_entries(entries@);
    let n = entries.len();
    let mut i: usize = 0;
    while i < n
        invariant
            n == entries@.len(),
            i <= n,
            vs == view_entries(entries@),
            vs.len() == n,
            forall|p: int, q: int| 0 <= p < q < vs.len() && p < i ==> vs[p].hash != vs[q].hash,
        decreases n - i,
    {
        let mut j: usize = i + 1;
        while j < n
            invariant
                n == entries@.len(),
                i < j <= n,
                vs == view_entries(entries@),
                vs.len() == n,
                forall|q: int| i < q < j ==> vs[i as int].hash != vs[q].hash,
            decreases n - j,
        {
            if bytes_eq(&entries[i].hash, &entries[j].hash) {
                assert(vs[i as int].hash == vs[j as int].hash);
                return false;
            }
            j += 1;
        }
        i += 1;
    }
    true
}

/// Tests that no two commits share a hash.
pub fn commits_hashes_unique(commits: &Vec<CommitRef>) -> (r: bool)
    ensures
        r == unique_commit_hashes(view_commits(commits@)),
{
    let ghost vs = view_commits(commits@);
    let n = commits.len();
    let mut i: usize = 0;
    while i < n
        invariant
            n == commits@.len(),
            i <= n,
            vs == view_commits(commits@),
            vs.len() == n,
            forall|p: int, q: int| 0 <= p < q < vs.len() && p < i ==> vs[p].hash != vs[q].hash,
        decreases n - i,
    {
        let mut j: usize = i + 1;
        while j < n
            invariant
                n == commits@.len(),
                i < j <= n,
                vs == view_commits(commits@),
                vs.len() == n,
                forall|q: int| i < q < j ==> vs[i as int].hash != vs[q].hash,
            decreases n - j,
        {
            if bytes_eq(&commits[i].hash, &commits[j].hash) {
                assert(vs[i as int].hash == vs[j as int].hash);
                return false;
            }
            j += 1;
        }
        i += 1;
    }
    true
}

/// Tests that the branch stands in the fetched list of names.
pub fn branch_in_list(branch: &String, available: &Vec<String>) -> (r: bool)
    ensures
        r == branch_known(branch@, available@),
{
    let mut i: usize = 0;
    while i < available.len()
        invariant
            i <= available@.len(),
            forall|k: int| 0 <= k < i ==> (#[trigger] available@[k])@ != branch@,
        decreases available@.len() - i,
    {
        if available[i].eq(branch) {
            return true;
        }
        i += 1;
    }
    false
}

/// One transition of the orchestrator: the current state and the outcome
/// of the stage's outside work give the next state. An event that does
/// not belong to the current state leaves it unchanged.
pub fn step(state: SyncState, event: SyncEvent) -> (next: SyncState)
    requires
        state_wf(state),
        event_wf(event),
    ensures
        state_wf(next),
        match (state, event) {
            (SyncState::Idle { branch }, SyncEvent::Start) => next matches
                SyncState::LoadingJournal { branch: b } && b == branch,
            (SyncState::LoadingJournal { branch }, SyncEvent::JournalLoaded { entries }) => {
                let loaded = match entries {
                    Some(v) => view_entries(v@),
                    None => Seq::empty(),
                };
                if unique_entry_hashes(loaded) {
                    next matches SyncState::FetchingCommits { branch: b, existing } && b == branch
                        && view_entries(existing@) == loaded
                } else {
                    next matches SyncState::Failed { stage, cause } && stage
                        == SyncStage::LoadingJournal && cause is Corrupt
                }
            },
            (SyncState::LoadingJournal { .. }, SyncEvent::JournalFailed { fault }) => next matches
                SyncState::Failed { stage, cause } && stage == SyncStage::LoadingJournal && (match
            fault {
                LoadFault::Corrupt => cause is Corrupt,
                LoadFault::IoFailure => cause is IoFailure,
            }),
            (
                SyncState::FetchingCommits { branch, existing },
                SyncEvent::BranchList { available },
            ) => {
                if branch_known(branch@, available@) {
                    next matches SyncState::FetchingCommits { branch: b, existing: e } && b
                        == branch && view_entries(e@) == view_entries(existing@)
                } else {
                    next matches SyncState::Failed { stage, cause } && stage
                        == SyncStage::FetchingCommits && (cause matches SyncError::UnknownBranch {
                        requested,
                        available: a,
                    } && requested == branch && a@ == available@)
                }
            },
            (
                SyncState::FetchingCommits { existing, .. },
                SyncEvent::CommitsFetched { commits },
            ) => next matches SyncState::Reconciling { existing: e, commits: c } && view_entries(
                e@,
            ) == view_entries(existing@) && view_commits(c@) == view_commits(commits@),
            (SyncState::FetchingCommits { .. }, SyncEvent::FetchFailed { fault }) => next matches
                SyncState::Failed { stage, cause } && stage == SyncStage::FetchingCommits && (match
            fault {
                FetchFault::AuthFailure => cause is AuthFailure,
                FetchFault::NetworkFailure => cause is NetworkFailure,
            }),
            (SyncState::Reconciling { existing, commits }, SyncEvent::Advance) => next matches
                SyncState::Persisting { result } && view_entries(result.entries@)
                == merged_entries(view_entries(existing@), view_commits(commits@)) && result.added
                == derived_entries(view_entries(existing@), view_commits(commits@)).len()
                && result.skipped == skipped_count(view_entries(existing@), view_commits(commits@))
                && result.failures@.len() == parse_failures(
                view_entries(existing@),
                view_commits(commits@),
            ).len(),
            (SyncState::Persisting { result }, SyncEvent::Persisted) => next matches
                SyncState::Done { added, skipped, failed } && added == result.added && skipped
                == result.skipped && failed == result.failures@.len(),
            (SyncState::Persisting { .. }, SyncEvent::PersistFailed) => next matches
                SyncState::Failed { stage, cause } && stage == SyncStage::Persisting && cause
                is IoFailure,
            _ => next == state,
        },
{
    match (state, event) {
        (SyncState::Idle { branch }, SyncEvent::Start) => SyncState::LoadingJournal { branch },
        (SyncState::LoadingJournal { branch }, SyncEvent::JournalLoaded { entries }) => {
            let existing = match entries {
                Some(v) => v,
                None => Vec::new(),
            };
            proof {
                if entries is None {
                    assert(view_entries(existing@) =~= Seq::empty());
                }
            }
            if entries_hashes_unique(&existing) {
                SyncState::FetchingCommits { branch, existing }
            } else {
                SyncState::Failed {
                    stage: SyncStage::LoadingJournal,
                    cause: SyncError::Corrupt,
                }
            }
        },
        (SyncState::LoadingJournal { .. }, SyncEvent::JournalFailed { fault }) => SyncState::Failed {
            stage: SyncStage::LoadingJournal,
            cause: match fault {
                LoadFault::Corrupt => SyncError::Corrupt,
                LoadFault::IoFailure => SyncError::IoFailure,
            },
        },
        (SyncState::FetchingCommits { branch, existing }, SyncEvent::BranchList { available }) => {
            if branch_in_list(&branch, &available) {
                SyncState::FetchingCommits { branch, existing }
            } else {
                SyncState::Failed {
                    stage: SyncStage::FetchingCommits,
                    cause: SyncError::UnknownBranch { requested: branch, available },
                }
            }
        },
        (
            SyncState::FetchingCommits { existing, .. },
            SyncEvent::CommitsFetched { commits },
        ) => SyncState::Reconciling { existing, commits },
        (SyncState::FetchingCommits { .. }, SyncEvent::FetchFailed { fault }) => SyncState::Failed {
            stage: SyncStage::FetchingCommits,
            cause: match fault {
                FetchFault::AuthFailure => SyncError::AuthFailure,
                FetchFault::NetworkFailure => SyncError::NetworkFailure,
            },
        },
        (SyncState::Reconciling { existing, commits }, SyncEvent::Advance) => {
            let result = reconcile(&existing, &commits);
            SyncState::Persisting { result }
        },
        (SyncState::Persisting { result }, SyncEvent::Persisted) => SyncState::Done {
            added: result.added,
            skipped: result.skipped,
            failed: result.failures.len(),
        },
        (SyncState::Persisting { .. }, SyncEvent::PersistFailed) => SyncState::Failed {
            stage: SyncStage::Persisting,
            cause: SyncError::IoFailure,
        },
        (s, _) => s,
    }
}

/// The parts joined by itertools, with the separator between them.
pub open spec fn join_with(parts: Seq<Seq<char>>, sep: Seq<char>) -> Seq<char>
    decreases parts.len(),
{
    if parts.len() == 0 {
        Seq::empty()
    } else if parts.len() == 1 {
        parts[0]
    } else {
        join_with(parts.drop_last(), sep) + sep + parts.last()
    }
}

/// Relies on itertools' `join`: the items written in their order with
/// the separator between each adjacent pair.
#[verifier::external_body]
fn join_strings(items: &Vec<String>, sep: &str) -> (r: String)
    ensures
        r@ == join_with(items@.map_values(|s: String| s@), sep@),
{
    items.iter().join(sep)
}

impl SyncError {
    /// The real branch names joined with a comma, for reporting an
    /// unknown branch; nothing for the other causes.
    pub fn available_branches_joined(&self) -> (r: Option<String>)
        ensures
            match self {
                SyncError::UnknownBranch { available, .. } => r matches Some(s) && s@ == join_with(
                    available@.map_values(|b: String| b@),
                    ", "@,
                ),
                _ => r is None,
            },
    {
        match self {
            SyncError::UnknownBranch { available, .. } => Some(join_strings(available, ", ")),
            _ => None,
        }
    }
}

} // verus!
