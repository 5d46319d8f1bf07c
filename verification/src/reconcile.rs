//! The reconciler: merges commit-derived entries into the journal without
//! duplication or loss.
//!
//! A commit whose hash is already present is skipped without re-parsing;
//! a commit with a well-formed annotation yields a new entry; a malformed
//! annotation is recorded and counted; a message without a tag contributes
//! nothing. The merged set is the existing entries plus the new ones,
//! sorted by commit timestamp ascending with ties broken by hash lexical
//! order.

use vstd::prelude::*;
use vstd::seq_lib::lemma_multiset_commutative;
use vstd::seq_lib::group_to_multiset_ensures;

use crate::model::{CommitRef, JournalEntry, Origin, SpecCommit, SpecEntry, bytes_eq, clone_bytes,
    clone_entry, entries_sorted, entry_le, entry_le_exec, has_hash, lemma_lex_le_total,
    lemma_lex_le_transitive, unique_commit_hashes, unique_entry_hashes};
use crate::parse::{MalformedReason, ParseOutcome, SpecOutcome, parse, spec_parse};

verus! {

/// One commit whose annotation could not be parsed, and why.
#[derive(Clone, Debug, PartialEq, Eq)]
pub struct ParseFailure {
    pub hash: Vec<u8>,
    pub reason: MalformedReason,
}

/// Mathematical model of a [`ParseFailure`].
pub struct SpecFailure {
    pub hash: Seq<u8>,
    pub reason: MalformedReason,
}

impl View for ParseFailure {
    type V = SpecFailure;

    open spec fn view(&self) -> SpecFailure {
        SpecFailure { hash: self.hash@, reason: self.reason }
    }
}

/// The sole output of the reconciler: the merged, ordered entry set to
/// persist, the three counts, and the individual parse failures.
#[derive(Debug)]
pub struct ReconciliationResult {
    pub entries: Vec<JournalEntry>,
    pub added: usize,
    pub skipped: usize,
    pub failures: Vec<ParseFailure>,
}

/// Entry views of a sequence of entries.
pub open spec fn view_entries(s: Seq<JournalEntry>) -> Seq<SpecEntry> {
    s.map_values(|e: JournalEntry| e@)
}

/// Commit views of a sequence of commits.
pub open spec fn view_commits(s: Seq<CommitRef>) -> Seq<SpecCommit> {
    s.map_values(|c: CommitRef| c@)
}

/// Failure views of a sequence of failures.
pub open spec fn view_failures(s: Seq<ParseFailure>) -> Seq<SpecFailure> {
    s.map_values(|f: ParseFailure| f@)
}

/// The entry a commit with a well-formed annotation contributes.
pub open spec fn commit_entry(c: SpecCommit) -> SpecEntry {
    match spec_parse(c.message) {
        SpecOutcome::Annotation(a) => SpecEntry {
            hash: c.hash,
            minutes: a.minutes,
            label: a.label,
            timestamp: c.timestamp,
            origin: Origin::Derived,
        },
        _ => SpecEntry {
            hash: c.hash,
            minutes: 0,
            label: None,
            timestamp: c.timestamp,
            origin: Origin::Derived,
        },
    }
}

/// The commit is not yet in the journal and carries a well-formed
/// annotation.
pub open spec fn is_new_valid(ex: Seq<SpecEntry>, c: SpecCommit) -> bool {
    !has_hash(ex, c.hash) && spec_parse(c.message) is Annotation
}

/// The commit is not yet in the journal and carries a malformed
/// annotation.
pub open spec fn is_new_malformed(ex: Seq<SpecEntry>, c: SpecCommit) -> bool {
    !has_hash(ex, c.hash) && spec_parse(c.message) is Malformed
}

/// The entries derived from the commits not yet in the journal, in
/// commit order.
pub open spec fn derived_entries(ex: Seq<SpecEntry>, cs: Seq<SpecCommit>) -> Seq<SpecEntry>
    decreases cs.len(),
{
    if cs.len() == 0 {
        Seq::empty()
    } else {
        derived_entries(ex, cs.drop_last()) + if is_new_valid(ex, cs.last()) {
            seq![commit_entry(cs.last())]
        } else {
            Seq::empty()
        }
    }
}

/// How many commits were already present in the journal.
pub open spec fn skipped_count(ex: Seq<SpecEntry>, cs: Seq<SpecCommit>) -> nat
    decreases cs.len(),
{
    if cs.len() == 0 {
        0
    } else {
        skipped_count(ex, cs.drop_last()) + if has_hash(ex, cs.last().hash) {
            1nat
        } else {
            0nat
        }
    }
}

/// The record of a malformed commit.
pub open spec fn failure_of(c: SpecCommit) -> SpecFailure {
    SpecFailure {
        hash: c.hash,
        reason: match spec_parse(c.message) {
            SpecOutcome::Malformed(r) => r,
            _ => MalformedReason::MissingClose,
        },
    }
}

/// The parse failures among the commits not yet in the journal, in
/// commit order.
pub open spec fn parse_failures(ex: Seq<SpecEntry>, cs: Seq<SpecCommit>) -> Seq<SpecFailure>
    decreases cs.len(),
{
    if cs.len() == 0 {
        Seq::empty()
    } else {
        parse_failures(ex, cs.drop_last()) + if is_new_malformed(ex, cs.last()) {
            seq![failure_of(cs.last())]
        } else {
            Seq::empty()
        }
    }
}

/// Insertion of an entry into a sorted sequence, before the first entry
/// it precedes or equals.
pub open spec fn insert_sorted(e: SpecEntry, s: Seq<SpecEntry>) -> Seq<SpecEntry>
    decreases s.len(),
{
    if s.len() == 0 {
        seq![e]
    } else if entry_le(e, s[0]) {
        seq![e] + s
    } else {
        seq![s[0]] + insert_sorted(e, s.drop_first())
    }
}

/// Insertion sort of an entry sequence into the persisted order.
pub open spec fn sort_entries(s: Seq<SpecEntry>) -> Seq<SpecEntry>
    decreases s.len(),
{
    if s.len() == 0 {
        Seq::empty()
    } else {
        insert_sorted(s.last(), sort_entries(s.drop_last()))
    }
}

/// The canonical merged output: existing entries plus derived entries,
/// in the persisted order.
pub open spec fn merged_entries(ex: Seq<SpecEntry>, cs: Seq<SpecCommit>) -> Seq<SpecEntry> {
    sort_entries(ex + derived_entries(ex, cs))
}

/// The persisted order is total.
pub proof fn lemma_entry_le_total(a: SpecEntry, b: SpecEntry)
    ensures
        entry_le(a, b) || entry_le(b, a),
{
    lemma_lex_le_total(a.hash, b.hash);
}

/// The persisted order is transitive.
pub proof fn lemma_entry_le_trans(a: SpecEntry, b: SpecEntry, c: SpecEntry)
    requires
        entry_le(a, b),
        entry_le(b, c),
    ensures
        entry_le(a, c),
{
    if a.timestamp == b.timestamp && b.timestamp == c.timestamp {
        lemma_lex_le_transitive(a.hash, b.hash, c.hash);
    }
}

pub proof fn lemma_insert_sorted(e: SpecEntry, s: Seq<SpecEntry>)
    requires
        entries_sorted(s),
    ensures
        entries_sorted(insert_sorted(e, s)),
        insert_sorted(e, s).to_multiset() == s.to_multiset().insert(e),
        insert_sorted(e, s).len() == s.len() + 1,
    decreases s.len(),
{
    broadcast use group_to_multiset_ensures;
    broadcast use vstd::multiset::group_multiset_axioms;

    let r = insert_sorted(e, s);
    if s.len() == 0 {
        assert(seq![e] =~= Seq::<SpecEntry>::empty().push(e));
        assert(r.to_multiset() =~= s.to_multiset().insert(e));
    } else if entry_le(e, s[0]) {
        lemma_multiset_commutative(seq![e], s);
        assert(seq![e] =~= Seq::<SpecEntry>::empty().push(e));
        assert(r.to_multiset() =~= s.to_multiset().insert(e));
        assert forall|i: int, j: int| 0 <= i < j < r.len() implies entry_le(r[i], r[j]) by {
            if i == 0 {
                if j > 0 {
                    assert(r[j] == s[j - 1]);
                    if j - 1 > 0 {
                        assert(entry_le(s[0], s[j - 1]));
                        lemma_entry_le_trans(e, s[0], s[j - 1]);
                    }
                }
            } else {
                assert(r[i] == s[i - 1] && r[j] == s[j - 1]);
            }
        }
    } else {
        lemma_entry_le_total(e, s[0]);
        let t = s.drop_first();
        assert(entries_sorted(t)) by {
            assert(forall|i: int, j: int|
                0 <= i < j < t.len() ==> entry_le(#[trigger] t[i], #[trigger] t[j]) == entry_le(
                    s[i + 1],
                    s[j + 1],
                ));
        }
        lemma_insert_sorted(e, t);
        let rt = insert_sorted(e, t);
        lemma_multiset_commutative(seq![s[0]], rt);
        assert(seq![s[0]] =~= Seq::<SpecEntry>::empty().push(s[0]));
        assert(s =~= seq![s[0]] + t);
        lemma_multiset_commutative(seq![s[0]], t);
        assert(r.to_multiset() =~= s.to_multiset().insert(e));
        assert forall|i: int, j: int| 0 <= i < j < r.len() implies entry_le(r[i], r[j]) by {
            if i == 0 {
                assert(r[0] == s[0]);
                assert(r[j] == rt[j - 1]);
                assert(rt.to_multiset().contains(rt[j - 1]));
                if t.to_multiset().contains(rt[j - 1]) {
                    assert(t.contains(rt[j - 1]));
                    let v = choose|v: int| 0 <= v < t.len() && t[v] == rt[j - 1];
                    assert(entry_le(s[0], s[v + 1]));
                } else {
                    assert(rt.to_multiset() == t.to_multiset().insert(e));
                    assert(rt[j - 1] == e);
                    assert(entry_le(s[0], e));
                }
            } else {
                assert(r[i] == rt[i - 1] && r[j] == rt[j - 1]);
            }
        }
    }
}

pub proof fn lemma_sort_entries(s: Seq<SpecEntry>)
    ensures
        entries_sorted(sort_entries(s)),
        sort_entries(s).to_multiset() == s.to_multiset(),
        sort_entries(s).len() == s.len(),
    decreases s.len(),
{
    broadcast use group_to_multiset_ensures;
    broadcast use vstd::multiset::group_multiset_axioms;

    if s.len() == 0 {
        assert(sort_entries(s).to_multiset() =~= s.to_multiset());
    } else {
        lemma_sort_entries(s.drop_last());
        lemma_insert_sorted(s.last(), sort_entries(s.drop_last()));
        assert(s =~= s.drop_last().push(s.last()));
        assert(s.drop_last().push(s.last()).to_multiset() == s.drop_last().to_multiset().insert(
            s.last(),
        ));
        assert(sort_entries(s).to_multiset() =~= s.to_multiset());
    }
}

/// Where the first fitting position is known, insertion is a splice.
pub proof fn lemma_insert_sorted_at(e: SpecEntry, s: Seq<SpecEntry>, j: int)
    requires
        0 <= j <= s.len(),
        forall|k: int| 0 <= k < j ==> !entry_le(e, #[trigger] s[k]),
        j < s.len() ==> entry_le(e, s[j]),
    ensures
        insert_sorted(e, s) == s.take(j) + seq![e] + s.skip(j),
    decreases s.len(),
{
    if s.len() == 0 {
        assert(insert_sorted(e, s) =~= s.take(j) + seq![e] + s.skip(j));
    } else if entry_le(e, s[0]) {
        assert(j == 0);
        assert(insert_sorted(e, s) =~= s.take(0) + seq![e] + s.skip(0));
    } else {
        assert(j > 0);
        let t = s.drop_first();
        assert(forall|k: int| 0 <= k < j - 1 ==> !entry_le(e, #[trigger] t[k]));
        lemma_insert_sorted_at(e, t, j - 1);
        assert(insert_sorted(e, s) =~= s.take(j) + seq![e] + s.skip(j)) by {
            assert(insert_sorted(e, s) == seq![s[0]] + (t.take(j - 1) + seq![e] + t.skip(j - 1)));
            assert(forall|k: int| 0 <= k < t.len() ==> t[k] == s[k + 1]);
        }
    }
}

/// Membership in the derived entries, characterized by the commits.
pub proof fn lemma_derived_contains(ex: Seq<SpecEntry>, cs: Seq<SpecCommit>)
    ensures
        forall|x: SpecEntry| #[trigger]
            derived_entries(ex, cs).contains(x) <==> exists|i: int|
                0 <= i < cs.len() && is_new_valid(ex, #[trigger] cs[i]) && x == commit_entry(
                    cs[i],
                ),
    decreases cs.len(),
{
    if cs.len() == 0 {
    } else {
        lemma_derived_contains(ex, cs.drop_last());
        let d = derived_entries(ex, cs);
        let dp = derived_entries(ex, cs.drop_last());
        assert forall|x: SpecEntry| #[trigger] d.contains(x) implies exists|i: int|
            0 <= i < cs.len() && is_new_valid(ex, #[trigger] cs[i]) && x == commit_entry(
                cs[i],
            ) by {
            let w = choose|w: int| 0 <= w < d.len() && d[w] == x;
            if w < dp.len() {
                assert(dp.contains(x));
                let i = choose|i: int|
                    0 <= i < cs.drop_last().len() && is_new_valid(ex, #[trigger] cs.drop_last()[i])
                        && x == commit_entry(cs.drop_last()[i]);
                assert(cs.drop_last()[i] == cs[i]);
                assert(is_new_valid(ex, cs[i]) && x == commit_entry(cs[i]));
            } else {
                assert(is_new_valid(ex, cs.last()));
                assert(x == commit_entry(cs.last()));
                assert(cs.last() == cs[cs.len() - 1]);
            }
        }
        assert forall|x: SpecEntry|
            (exists|i: int|
                0 <= i < cs.len() && is_new_valid(ex, #[trigger] cs[i]) && x == commit_entry(
                    cs[i],
                )) implies #[trigger] d.contains(x) by {
            let i = choose|i: int|
                0 <= i < cs.len() && is_new_valid(ex, #[trigger] cs[i]) && x == commit_entry(cs[i]);
            if i < cs.len() - 1 {
                assert(cs.drop_last()[i] == cs[i]);
                assert(dp.contains(x));
                let w = choose|w: int| 0 <= w < dp.len() && dp[w] == x;
                assert(d[w] == x);
            } else {
                assert(d[d.len() - 1] == x);
            }
        }
    }
}

/// The derived entries carry hashes that are new to the journal and
/// pairwise distinct; every derived hash is some commit's hash.
pub proof fn lemma_derived_hashes(ex: Seq<SpecEntry>, cs: Seq<SpecCommit>)
    requires
        unique_commit_hashes(cs),
    ensures
        forall|k: int|
            0 <= k < derived_entries(ex, cs).len() ==> !has_hash(
                ex,
                #[trigger] derived_entries(ex, cs)[k].hash,
            ),
        unique_entry_hashes(derived_entries(ex, cs)),
    decreases cs.len(),
{
    if cs.len() > 0 {
        assert(unique_commit_hashes(cs.drop_last())) by {
            assert(forall|i: int|
                0 <= i < cs.drop_last().len() ==> #[trigger] cs.drop_last()[i] == cs[i]);
        }
        lemma_derived_hashes(ex, cs.drop_last());
        let d = derived_entries(ex, cs);
        let dp = derived_entries(ex, cs.drop_last());
        if is_new_valid(ex, cs.last()) {
            assert(d =~= dp + seq![commit_entry(cs.last())]);
            lemma_derived_contains(ex, cs.drop_last());
            assert forall|i: int, j: int| 0 <= i < j < d.len() implies d[i].hash != d[j].hash by {
                if j == d.len() - 1 {
                    assert(d[j] == commit_entry(cs.last()));
                    assert(dp.contains(dp[i]));
                    let w = choose|w: int|
                        0 <= w < cs.drop_last().len() && is_new_valid(
                            ex,
                            #[trigger] cs.drop_last()[w],
                        ) && dp[i] == commit_entry(cs.drop_last()[w]);
                    assert(cs.drop_last()[w] == cs[w]);
                    assert(d[i].hash == cs[w].hash);
                    assert(d[j].hash == cs[cs.len() - 1].hash);
                } else {
                    assert(d[i] == dp[i] && d[j] == dp[j]);
                }
            }
        } else {
            assert(d =~= dp);
        }
    }
}

/// Tests whether the journal already holds an entry for the hash.
pub fn has_entry_hash(entries: &Vec<JournalEntry>, h: &Vec<u8>) -> (r: bool)
    ensures
        r == has_hash(view_entries(entries@), h@),
{
    let ghost vs = view_entries(entries@);
    let mut i: usize = 0;
    while i < entries.len()
        invariant
            i <= entries@.len(),
            vs == view_entries(entries@),
            vs.len() == entries@.len(),
            forall|k: int| 0 <= k < i ==> #[trigger] vs[k].hash != h@,
        decreases entries@.len() - i,
    {
        if bytes_eq(&entries[i].hash, h) {
            assert(vs[i as int].hash == h@);
            return true;
        }
        i += 1;
    }
    false
}

/// Inserts an entry into a sorted vector, keeping it sorted.
fn insert_entry(out: &mut Vec<JournalEntry>, e: JournalEntry)
    requires
        entries_sorted(view_entries(old(out)@)),
    ensures
        view_entries(final(out)@) == insert_sorted(e@, view_entries(old(out)@)),
        entries_sorted(view_entries(final(out)@)),
{
    let ghost s = view_entries(out@);
    let mut j: usize = 0;
    while j < out.len() && !entry_le_exec(&e, &out[j])
        invariant
            j <= out@.len(),
            s == view_entries(out@),
            s.len() == out@.len(),
            forall|k: int| 0 <= k < j ==> !entry_le(e@, #[trigger] s[k]),
        decreases out@.len() - j,
    {
        j += 1;
    }
    proof {
        lemma_insert_sorted_at(e@, s, j as int);
        lemma_insert_sorted(e@, s);
    }
    out.insert(j, e);
    proof {
        assert(view_entries(out@) =~= s.take(j as int) + seq![e@] + s.skip(j as int));
    }
}

/// Merges the commit-derived entries into the journal.
///
/// Commits already present are skipped without re-parsing; new commits
/// with a well-formed annotation are added; malformed annotations are
/// recorded one by one; messages without a tag contribute nothing. The
/// output is the existing entries plus the new ones, in the persisted
/// order, together with the three counts. No existing entry is ever
/// dropped, and no two output entries share a commit hash.
pub fn reconcile(existing: &Vec<JournalEntry>, commits: &Vec<CommitRef>) -> (r:
    ReconciliationResult)
    requires
        unique_entry_hashes(view_entries(existing@)),
        unique_commit_hashes(view_commits(commits@)),
    ensures
        view_entries(r.entries@) == merged_entries(
            view_entries(existing@),
            view_commits(commits@),
        ),
        r.added == derived_entries(view_entries(existing@), view_commits(commits@)).len(),
        r.skipped == skipped_count(view_entries(existing@), view_commits(commits@)),
        view_failures(r.failures@) == parse_failures(
            view_entries(existing@),
            view_commits(commits@),
        ),
        entries_sorted(view_entries(r.entries@)),
{
    let ghost exv = view_entries(existing@);
    let ghost csv = view_commits(commits@);
    let mut news: Vec<JournalEntry> = Vec::new();
    let mut failures: Vec<ParseFailure> = Vec::new();
    let mut skipped: usize = 0;
    let mut i: usize = 0;
    proof {
        assert(csv.take(0) =~= Seq::<SpecCommit>::empty());
        assert(view_entries(news@) =~= derived_entries(exv, csv.take(0)));
        assert(view_failures(failures@) =~= parse_failures(exv, csv.take(0)));
    }
    while i < commits.len()
        invariant
            i <= commits@.len(),
            skipped <= i,
            exv == view_entries(existing@),
            csv == view_commits(commits@),
            csv.len() == commits@.len(),
            unique_entry_hashes(exv),
            view_entries(news@) == derived_entries(exv, csv.take(i as int)),
            skipped == skipped_count(exv, csv.take(i as int)),
            view_failures(failures@) == parse_failures(exv, csv.take(i as int)),
        decreases commits@.len() - i,
    {
        let c = &commits[i];
        proof {
            assert(csv[i as int] == c@);
            assert(csv.take(i as int + 1).drop_last() =~= csv.take(i as int));
            assert(csv.take(i as int + 1).last() == csv[i as int]);
        }
        if has_entry_hash(existing, &c.hash) {
            skipped += 1;
            proof {
                assert(view_entries(news@) =~= derived_entries(exv, csv.take(i as int + 1)));
                assert(view_failures(failures@) =~= parse_failures(exv, csv.take(i as int + 1)));
            }
        } else {
            match parse(&c.message) {
                ParseOutcome::NotPresent => {
                    proof {
                        assert(view_entries(news@) =~= derived_entries(
                            exv,
                            csv.take(i as int + 1),
                        ));
                        assert(view_failures(failures@) =~= parse_failures(
                            exv,
                            csv.take(i as int + 1),
                        ));
                    }
                },
                ParseOutcome::Malformed(reason) => {
                    failures.push(ParseFailure { hash: clone_bytes(&c.hash), reason });
                    proof {
                        assert(view_entries(news@) =~= derived_entries(
                            exv,
                            csv.take(i as int + 1),
                        ));
                        assert(view_failures(failures@) =~= parse_failures(
                            exv,
                            csv.take(i as int + 1),
                        ));
                    }
                },
                ParseOutcome::Annotation(ann) => {
                    let entry = JournalEntry {
                        hash: clone_bytes(&c.hash),
                        minutes: ann.minutes,
                        label: ann.label,
                        timestamp: c.timestamp,
                        origin: Origin::Derived,
                    };
                    proof {
                        assert(entry@ == commit_entry(csv[i as int]));
                    }
                    news.push(entry);
                    proof {
                        assert(view_entries(news@) =~= derived_entries(
                            exv,
                            csv.take(i as int + 1),
                        ));
                        assert(view_failures(failures@) =~= parse_failures(
                            exv,
                            csv.take(i as int + 1),
                        ));
                    }
                },
            }
        }
        i += 1;
    }
    proof {
        assert(csv.take(csv.len() as int) =~= csv);
    }
    let added = news.len();
    let mut all: Vec<JournalEntry> = Vec::new();
    let mut i: usize = 0;
    proof {
        assert(view_entries(all@) =~= exv.take(0));
    }
    while i < existing.len()
        invariant
            i <= existing@.len(),
            exv == view_entries(existing@),
            exv.len() == existing@.len(),
            view_entries(all@) == exv.take(i as int),
        decreases existing@.len() - i,
    {
        let e = clone_entry(&existing[i]);
        proof {
            assert(e@ == exv[i as int]);
        }
        let ghost prev = all@;
        all.push(e);
        proof {
            assert(all@ == prev.push(e));
            assert(view_entries(prev).len() == prev.len());
            assert(exv.take(i as int).len() == i as int);
            assert(view_entries(all@).len() == all@.len());
            assert forall|k: int| 0 <= k < all@.len() implies #[trigger] view_entries(all@)[k]
                == exv.take(i as int + 1)[k] by {
                assert(view_entries(all@)[k] == all@[k]@);
                if k < prev.len() {
                    assert(all@[k] == prev[k]);
                    assert(view_entries(prev)[k] == exv.take(i as int)[k]);
                } else {
                    assert(all@[k] == e);
                }
            }
            assert(view_entries(all@) =~= exv.take(i as int + 1));
        }
        i += 1;
    }
    proof {
        assert(exv.take(exv.len() as int) =~= exv);
    }
    let ghost dv = view_entries(news@);
    let mut i: usize = 0;
    while i < news.len()
        invariant
            i <= news@.len(),
            dv == view_entries(news@),
            dv.len() == news@.len(),
            view_entries(all@) == exv + dv.take(i as int),
        decreases news@.len() - i,
    {
        let e = clone_entry(&news[i]);
        proof {
            assert(e@ == dv[i as int]);
        }
        let ghost prev = all@;
        all.push(e);
        proof {
            assert(all@ == prev.push(e));
            assert(view_entries(prev).len() == prev.len());
            assert((exv + dv.take(i as int)).len() == exv.len() + i as int);
            assert(view_entries(all@).len() == all@.len());
            assert forall|k: int| 0 <= k < all@.len() implies #[trigger] view_entries(all@)[k] == (
            exv + dv.take(i as int + 1))[k] by {
                assert(view_entries(all@)[k] == all@[k]@);
                if k < prev.len() {
                    assert(all@[k] == prev[k]);
                    assert(view_entries(prev)[k] == (exv + dv.take(i as int))[k]);
                } else {
                    assert(all@[k] == e);
                    assert((exv + dv.take(i as int + 1))[k] == dv.take(i as int + 1)[k - exv.len()]);
                }
            }
            assert(view_entries(all@) =~= exv + dv.take(i as int + 1));
        }
        i += 1;
    }
    proof {
        assert(dv.take(dv.len() as int) =~= dv);
    }
    let ghost allv = view_entries(all@);
    let mut entries: Vec<JournalEntry> = Vec::new();
    let mut i: usize = 0;
    proof {
        assert(allv.take(0) =~= Seq::<SpecEntry>::empty());
        assert(view_entries(entries@) =~= sort_entries(allv.take(0)));
    }
    while i < all.len()
        invariant
            i <= all@.len(),
            allv == view_entries(all@),
            allv.len() == all@.len(),
            view_entries(entries@) == sort_entries(allv.take(i as int)),
            entries_sorted(view_entries(entries@)),
        decreases all@.len() - i,
    {
        proof {
            assert(allv.take(i as int + 1).drop_last() =~= allv.take(i as int));
            assert(allv.take(i as int + 1).last() == allv[i as int]);
        }
        let e = clone_entry(&all[i]);
        insert_entry(&mut entries, e);
        i += 1;
    }
    proof {
        assert(allv.take(allv.len() as int) =~= allv);
    }
    ReconciliationResult { entries, added, skipped, failures }
}

} // verus!
