//! The data model of the journal: commits, entries, and the ordering and
//! key-uniqueness notions the reconciler is specified with.
//!
//! Commit hashes, author names, messages and labels are kept as raw bytes;
//! timestamps are seconds, durations are minutes.

use vstd::prelude::*;

verus! {

/// Marks whether an entry was loaded from the persisted journal or newly
/// derived from a commit during the current synchronization.
#[derive(Clone, Copy, PartialEq, Eq, Structural, Debug)]
pub enum Origin {
    Loaded,
    Derived,
}

/// One commit of the fetched history: the hash is its natural key, the
/// timestamp is the author time in seconds.
#[derive(Clone, Debug, PartialEq, Eq)]
pub struct CommitRef {
    pub hash: Vec<u8>,
    pub timestamp: u64,
    pub author: Vec<u8>,
    pub message: Vec<u8>,
}

/// Mathematical model of a [`CommitRef`].
pub struct SpecCommit {
    pub hash: Seq<u8>,
    pub timestamp: u64,
    pub author: Seq<u8>,
    pub message: Seq<u8>,
}

impl View for CommitRef {
    type V = SpecCommit;

    open spec fn view(&self) -> SpecCommit {
        SpecCommit {
            hash: self.hash@,
            timestamp: self.timestamp,
            author: self.author@,
            message: self.message@,
        }
    }
}

/// One row of the journal: at most one entry exists per commit hash.
#[derive(Clone, Debug, PartialEq, Eq)]
pub struct JournalEntry {
    pub hash: Vec<u8>,
    pub minutes: u64,
    pub label: Option<Vec<u8>>,
    pub timestamp: u64,
    pub origin: Origin,
}

/// Mathematical model of a [`JournalEntry`].
pub struct SpecEntry {
    pub hash: Seq<u8>,
    pub minutes: u64,
    pub label: Option<Seq<u8>>,
    pub timestamp: u64,
    pub origin: Origin,
}

impl View for JournalEntry {
    type V = SpecEntry;

    open spec fn view(&self) -> SpecEntry {
        SpecEntry {
            hash: self.hash@,
            minutes: self.minutes,
            label: match self.label {
                Some(l) => Some(l@),
                None => None,
            },
            timestamp: self.timestamp,
            origin: self.origin,
        }
    }
}

/// The structured payload extracted from one commit message: a positive
/// duration in minutes and an optional label.
#[derive(Clone, Debug, PartialEq, Eq)]
pub struct TimeSpentAnnotation {
    pub minutes: u64,
    pub label: Option<Vec<u8>>,
}

/// Mathematical model of a [`TimeSpentAnnotation`].
pub struct SpecAnnotation {
    pub minutes: u64,
    pub label: Option<Seq<u8>>,
}

impl View for TimeSpentAnnotation {
    type V = SpecAnnotation;

    open spec fn view(&self) -> SpecAnnotation {
        SpecAnnotation {
            minutes: self.minutes,
            label: match self.label {
                Some(l) => Some(l@),
                None => None,
            },
        }
    }
}

/// Lexicographic order on byte strings: `a` comes no later than `b`.
pub open spec fn lex_le(a: Seq<u8>, b: Seq<u8>) -> bool
    decreases a.len(),
{
    if a.len() == 0 {
        true
    } else if b.len() == 0 {
        false
    } else if a[0] < b[0] {
        true
    } else if a[0] > b[0] {
        false
    } else {
        lex_le(a.drop_first(), b.drop_first())
    }
}

pub proof fn lemma_lex_le_total(a: Seq<u8>, b: Seq<u8>)
    ensures
        lex_le(a, b) || lex_le(b, a),
    decreases a.len(),
{
    if a.len() != 0 && b.len() != 0 && a[0] == b[0] {
        lemma_lex_le_total(a.drop_first(), b.drop_first());
    }
}

pub proof fn lemma_lex_le_antisymmetric(a: Seq<u8>, b: Seq<u8>)
    requires
        lex_le(a, b),
        lex_le(b, a),
    ensures
        a == b,
    decreases a.len(),
{
    if a.len() == 0 {
        assert(b.len() == 0);
        assert(a =~= b);
    } else {
        assert(b.len() != 0);
        lemma_lex_le_antisymmetric(a.drop_first(), b.drop_first());
        assert(a =~= seq![a[0]] + a.drop_first());
        assert(b =~= seq![b[0]] + b.drop_first());
    }
}

pub proof fn lemma_lex_le_transitive(a: Seq<u8>, b: Seq<u8>, c: Seq<u8>)
    requires
        lex_le(a, b),
        lex_le(b, c),
    ensures
        lex_le(a, c),
    decreases a.len(),
{
    if a.len() != 0 && b.len() != 0 && c.len() != 0 && a[0] == b[0] && b[0] == c[0] {
        lemma_lex_le_transitive(a.drop_first(), b.drop_first(), c.drop_first());
    }
}

/// The persisted order of the journal: commit timestamp ascending, ties
/// broken by commit hash lexical order.
pub open spec fn entry_le(a: SpecEntry, b: SpecEntry) -> bool {
    a.timestamp < b.timestamp || (a.timestamp == b.timestamp && lex_le(a.hash, b.hash))
}

/// The sequence is sorted in the persisted order.
pub open spec fn entries_sorted(s: Seq<SpecEntry>) -> bool {
    forall|i: int, j: int| 0 <= i < j < s.len() ==> entry_le(s[i], s[j])
}

/// No two entries of the sequence share a commit hash.
pub open spec fn unique_entry_hashes(s: Seq<SpecEntry>) -> bool {
    forall|i: int, j: int| 0 <= i < j < s.len() ==> s[i].hash != s[j].hash
}

/// No two commits of the sequence share a hash.
pub open spec fn unique_commit_hashes(s: Seq<SpecCommit>) -> bool {
    forall|i: int, j: int| 0 <= i < j < s.len() ==> s[i].hash != s[j].hash
}

/// Some entry of the sequence carries the given commit hash.
pub open spec fn has_hash(s: Seq<SpecEntry>, h: Seq<u8>) -> bool {
    exists|i: int| 0 <= i < s.len() && s[i].hash == h
}

/// Byte-string equality.
pub fn bytes_eq(a: &Vec<u8>, b: &Vec<u8>) -> (r: bool)
    ensures
        r == (a@ == b@),
{
    if a.len() != b.len() {
        assert(a@ != b@) by {
            assert(a@.len() != b@.len());
        }
        return false;
    }
    let n = a.len();
    let mut i: usize = 0;
    while i < n
        invariant
            n == a@.len() == b@.len(),
            i <= n,
            forall|k: int| 0 <= k < i ==> a@[k] == b@[k],
        decreases n - i,
    {
        if a[i] != b[i] {
            return false;
        }
        i += 1;
    }
    assert(a@ =~= b@);
    true
}

/// Decides the lexicographic order on byte strings.
pub fn bytes_le(a: &Vec<u8>, b: &Vec<u8>) -> (r: bool)
    ensures
        r == lex_le(a@, b@),
{
    let mut i: usize = 0;
    proof {
        assert(a@.skip(0) =~= a@);
        assert(b@.skip(0) =~= b@);
    }
    while i < a.len() && i < b.len()
        invariant
            i <= a@.len(),
            i <= b@.len(),
            lex_le(a@, b@) == lex_le(a@.skip(i as int), b@.skip(i as int)),
        decreases a@.len() - i,
    {
        let x = a[i];
        let y = b[i];
        proof {
            let sa = a@.skip(i as int);
            let sb = b@.skip(i as int);
            assert(sa[0] == a@[i as int]);
            assert(sb[0] == b@[i as int]);
            if x == y {
                assert(sa.drop_first() =~= a@.skip(i as int + 1));
                assert(sb.drop_first() =~= b@.skip(i as int + 1));
            }
        }
        if x < y {
            return true;
        }
        if x > y {
            return false;
        }
        i += 1;
    }
    proof {
        let sa = a@.skip(i as int);
        let sb = b@.skip(i as int);
        if i >= a.len() {
            assert(sa.len() == 0);
        } else {
            assert(sa.len() > 0);
            assert(sb.len() == 0);
        }
    }
    i >= a.len()
}

/// Decides the persisted order on entries.
pub fn entry_le_exec(a: &JournalEntry, b: &JournalEntry) -> (r: bool)
    ensures
        r == entry_le(a@, b@),
{
    if a.timestamp < b.timestamp {
        true
    } else if a.timestamp == b.timestamp {
        bytes_le(&a.hash, &b.hash)
    } else {
        false
    }
}

/// Copies a byte string.
pub fn clone_bytes(v: &Vec<u8>) -> (r: Vec<u8>)
    ensures
        r@ == v@,
{
    let mut r: Vec<u8> = Vec::new();
    let mut i: usize = 0;
    while i < v.len()
        invariant
            i <= v@.len(),
            r@ == v@.take(i as int),
        decreases v@.len() - i,
    {
        r.push(v[i]);
        proof {
            assert(v@.take(i as int + 1) =~= v@.take(i as int).push(v@[i as int]));
        }
        i += 1;
    }
    proof {
        assert(v@.take(v@.len() as int) =~= v@);
    }
    r
}

/// Copies a journal entry.
pub fn clone_entry(e: &JournalEntry) -> (r: JournalEntry)
    ensures
        r@ == e@,
{
    JournalEntry {
        hash: clone_bytes(&e.hash),
        minutes: e.minutes,
        label: match &e.label {
            Some(l) => Some(clone_bytes(l)),
            None => None,
        },
        timestamp: e.timestamp,
        origin: e.origin,
    }
}

} // verus!
