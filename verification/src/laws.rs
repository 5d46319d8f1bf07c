//! The guarantees of the reconciler, stated and proved over its
//! mathematical model: uniqueness of output hashes, monotonicity of the
//! journal, determinism under reordering of the commit list, and
//! idempotence of a repeated run.

use vstd::prelude::*;
use vstd::seq_lib::lemma_multiset_commutative;
use vstd::seq_lib::group_to_multiset_ensures;

use crate::model::{SpecCommit, SpecEntry, entries_sorted, entry_le, has_hash,
    lemma_lex_le_antisymmetric, unique_commit_hashes, unique_entry_hashes};
use crate::reconcile::{commit_entry, derived_entries, failure_of, is_new_malformed, is_new_valid,
    lemma_derived_contains, lemma_derived_hashes, lemma_sort_entries, merged_entries,
    parse_failures, skipped_count, sort_entries, SpecFailure};

verus! {

/// Entries with pairwise distinct hashes are pairwise distinct.
proof fn lemma_unique_hashes_nodup(s: Seq<SpecEntry>)
    requires
        unique_entry_hashes(s),
    ensures
        s.no_duplicates(),
{
}

/// Sequences with the same multiset have the same members.
proof fn lemma_ms_members<A>(a: Seq<A>, b: Seq<A>)
    requires
        a.to_multiset() == b.to_multiset(),
    ensures
        forall|x: A| a.contains(x) == b.contains(x),
{
    broadcast use group_to_multiset_ensures;

    assert forall|x: A| a.contains(x) == b.contains(x) by {
        assert(a.contains(x) <==> a.to_multiset().count(x) > 0);
        assert(b.contains(x) <==> b.to_multiset().count(x) > 0);
    }
}

/// Duplicate-free sequences with the same members have the same multiset.
proof fn lemma_nodup_members_ms<A>(a: Seq<A>, b: Seq<A>)
    requires
        a.no_duplicates(),
        b.no_duplicates(),
        forall|x: A| a.contains(x) == b.contains(x),
    ensures
        a.to_multiset() == b.to_multiset(),
{
    broadcast use group_to_multiset_ensures;

    a.lemma_multiset_has_no_duplicates();
    b.lemma_multiset_has_no_duplicates();
    assert forall|x: A| a.to_multiset().count(x) == b.to_multiset().count(x) by {
        if a.contains(x) {
        } else {
            assert(a.to_multiset().count(x) == 0);
            assert(b.to_multiset().count(x) == 0);
        }
    }
    assert(a.to_multiset() =~= b.to_multiset());
}

/// Hash uniqueness carries over any rearrangement.
proof fn lemma_ms_unique_hashes(a: Seq<SpecEntry>, b: Seq<SpecEntry>)
    requires
        a.to_multiset() == b.to_multiset(),
        unique_entry_hashes(a),
    ensures
        unique_entry_hashes(b),
{
    broadcast use group_to_multiset_ensures;

    lemma_unique_hashes_nodup(a);
    a.lemma_multiset_has_no_duplicates();
    b.lemma_multiset_has_no_duplicates_conv();
    assert forall|i: int, j: int| 0 <= i < j < b.len() implies b[i].hash != b[j].hash by {
        assert(b[i] != b[j]);
        assert(b.contains(b[i]) && b.contains(b[j]));
        lemma_ms_members(a, b);
        let v = choose|v: int| 0 <= v < a.len() && a[v] == b[i];
        let w = choose|w: int| 0 <= w < a.len() && a[w] == b[j];
        assert(v != w);
    }
}

/// The existing entries together with the derived entries still have
/// pairwise distinct hashes.
proof fn lemma_base_unique(ex: Seq<SpecEntry>, cs: Seq<SpecCommit>)
    requires
        unique_entry_hashes(ex),
        unique_commit_hashes(cs),
    ensures
        unique_entry_hashes(ex + derived_entries(ex, cs)),
{
    let d = derived_entries(ex, cs);
    lemma_derived_hashes(ex, cs);
    let base = ex + d;
    assert forall|i: int, j: int| 0 <= i < j < base.len() implies base[i].hash != base[j].hash by {
        if i < ex.len() && j >= ex.len() {
            assert(base[j] == d[j - ex.len()]);
            assert(!has_hash(ex, d[j - ex.len()].hash));
            if base[i].hash == base[j].hash {
                assert(ex[i].hash == d[j - ex.len()].hash);
                assert(has_hash(ex, d[j - ex.len()].hash));
            }
        }
    }
}

/// UNIQUENESS. No two entries of the reconciler's output share a commit
/// hash.
pub proof fn lemma_reconcile_unique(ex: Seq<SpecEntry>, cs: Seq<SpecCommit>)
    requires
        unique_entry_hashes(ex),
        unique_commit_hashes(cs),
    ensures
        unique_entry_hashes(merged_entries(ex, cs)),
{
    let base = ex + derived_entries(ex, cs);
    lemma_base_unique(ex, cs);
    lemma_sort_entries(base);
    lemma_ms_unique_hashes(base, merged_entries(ex, cs));
}

/// MONOTONICITY. Every existing entry appears in the reconciler's
/// output, whatever the commit list.
pub proof fn lemma_reconcile_monotonic(ex: Seq<SpecEntry>, cs: Seq<SpecCommit>)
    ensures
        forall|e: SpecEntry| ex.contains(e) ==> #[trigger] merged_entries(ex, cs).contains(e),
{
    let base = ex + derived_entries(ex, cs);
    lemma_sort_entries(base);
    assert forall|e: SpecEntry| ex.contains(e) implies #[trigger] merged_entries(
        ex,
        cs,
    ).contains(e) by {
        let i = choose|i: int| 0 <= i < ex.len() && ex[i] == e;
        assert(base[i] == e);
        assert(base.contains(e));
        lemma_ms_members(base, merged_entries(ex, cs));
    }
}

/// Two sorted entry sequences with the same multiset and duplicate-free
/// hashes are equal: the persisted order is deterministic.
pub proof fn lemma_sorted_ms_equal(a: Seq<SpecEntry>, b: Seq<SpecEntry>)
    requires
        entries_sorted(a),
        entries_sorted(b),
        unique_entry_hashes(a),
        a.to_multiset() == b.to_multiset(),
    ensures
        a == b,
    decreases a.len(),
{
    broadcast use group_to_multiset_ensures;

    if a.len() == 0 {
        assert(a.to_multiset().len() == 0);
        assert(b.len() == 0);
        assert(a =~= b);
    } else {
        assert(a.to_multiset().len() == a.len());
        assert(b.to_multiset().len() == b.len());
        assert(b.len() == a.len());
        assert(a.to_multiset().contains(a[0]));
        assert(b.contains(a[0]));
        let j = choose|j: int| 0 <= j < b.len() && b[j] == a[0];
        assert(b.to_multiset().contains(b[0]));
        assert(a.contains(b[0]));
        let i = choose|i: int| 0 <= i < a.len() && a[i] == b[0];
        assert(entry_le(b[0], b[j]) || j == 0);
        assert(entry_le(a[0], a[i]) || i == 0);
        assert(entry_le(a[0], b[0]) || i == 0);
        assert(entry_le(b[0], a[0]) || j == 0);
        if a[0] != b[0] {
            assert(i != 0 && j != 0);
            assert(entry_le(a[0], b[0]) && entry_le(b[0], a[0]));
            assert(a[0].timestamp == b[0].timestamp);
            lemma_lex_le_antisymmetric(a[0].hash, b[0].hash);
            assert(a[0].hash == b[0].hash);
            assert(a[i].hash == a[0].hash);
            assert(false);
        }
        let at = a.drop_first();
        let bt = b.drop_first();
        assert(a.remove(0) =~= at);
        assert(b.remove(0) =~= bt);
        assert(at.to_multiset() == a.to_multiset().remove(a[0]));
        assert(bt.to_multiset() == b.to_multiset().remove(b[0]));
        assert(entries_sorted(at)) by {
            assert(forall|p: int, q: int|
                0 <= p < q < at.len() ==> entry_le(#[trigger] at[p], #[trigger] at[q]) == entry_le(
                    a[p + 1],
                    a[q + 1],
                ));
        }
        assert(entries_sorted(bt)) by {
            assert(forall|p: int, q: int|
                0 <= p < q < bt.len() ==> entry_le(#[trigger] bt[p], #[trigger] bt[q]) == entry_le(
                    b[p + 1],
                    b[q + 1],
                ));
        }
        assert(unique_entry_hashes(at)) by {
            assert(forall|p: int, q: int|
                0 <= p < q < at.len() ==> (#[trigger] at[p]).hash == a[p + 1].hash && (
                #[trigger] at[q]).hash == a[q + 1].hash);
        }
        lemma_sorted_ms_equal(at, bt);
        assert(a =~= b) by {
            assert(forall|k: int| 1 <= k < a.len() ==> a[k] == at[k - 1] && b[k] == bt[k - 1]);
        }
    }
}

/// The commits of the list that are already present in the journal.
spec fn skipped_commits(ex: Seq<SpecEntry>, cs: Seq<SpecCommit>) -> Seq<SpecCommit>
    decreases cs.len(),
{
    if cs.len() == 0 {
        Seq::empty()
    } else {
        skipped_commits(ex, cs.drop_last()) + if has_hash(ex, cs.last().hash) {
            seq![cs.last()]
        } else {
            Seq::empty()
        }
    }
}

/// The skipped count counts the skipped commits, which are exactly the
/// members of the list already present in the journal.
proof fn lemma_skipped_commits(ex: Seq<SpecEntry>, cs: Seq<SpecCommit>)
    ensures
        skipped_count(ex, cs) == skipped_commits(ex, cs).len(),
        forall|x: SpecCommit| #[trigger]
            skipped_commits(ex, cs).contains(x) <==> (cs.contains(x) && has_hash(ex, x.hash)),
    decreases cs.len(),
{
    if cs.len() == 0 {
    } else {
        lemma_skipped_commits(ex, cs.drop_last());
        let sk = skipped_commits(ex, cs);
        let skp = skipped_commits(ex, cs.drop_last());
        assert forall|x: SpecCommit| #[trigger] sk.contains(x) implies (cs.contains(x) && has_hash(
            ex,
            x.hash,
        )) by {
            let w = choose|w: int| 0 <= w < sk.len() && sk[w] == x;
            if w < skp.len() {
                assert(skp.contains(x));
                let v = choose|v: int| 0 <= v < cs.drop_last().len() && cs.drop_last()[v] == x;
                assert(cs[v] == x);
            } else {
                assert(x == cs.last());
                assert(cs[cs.len() - 1] == x);
            }
        }
        assert forall|x: SpecCommit| (cs.contains(x) && has_hash(ex, x.hash)) implies #[trigger] sk
            .contains(x) by {
            let v = choose|v: int| 0 <= v < cs.len() && cs[v] == x;
            if v < cs.len() - 1 {
                assert(cs.drop_last()[v] == x);
                assert(cs.drop_last().contains(x));
                assert(skp.contains(x));
                let w = choose|w: int| 0 <= w < skp.len() && skp[w] == x;
                assert(sk[w] == x);
            } else {
                assert(x == cs.last());
                assert(sk[sk.len() - 1] == x);
            }
        }
    }
}

/// A sub-selection of a hash-unique commit list is duplicate-free.
proof fn lemma_skipped_commits_nodup(ex: Seq<SpecEntry>, cs: Seq<SpecCommit>)
    requires
        unique_commit_hashes(cs),
    ensures
        skipped_commits(ex, cs).no_duplicates(),
    decreases cs.len(),
{
    if cs.len() > 0 {
        assert(unique_commit_hashes(cs.drop_last())) by {
            assert(forall|i: int|
                0 <= i < cs.drop_last().len() ==> #[trigger] cs.drop_last()[i] == cs[i]);
        }
        lemma_skipped_commits_nodup(ex, cs.drop_last());
        lemma_skipped_commits(ex, cs.drop_last());
        let sk = skipped_commits(ex, cs);
        let skp = skipped_commits(ex, cs.drop_last());
        if has_hash(ex, cs.last().hash) {
            assert(sk =~= skp + seq![cs.last()]);
            assert forall|i: int, j: int| 0 <= i < j < sk.len() implies sk[i] != sk[j] by {
                if j == sk.len() - 1 {
                    assert(sk[i] == skp[i]);
                    assert(skp.contains(skp[i]));
                    assert(cs.drop_last().contains(skp[i]));
                    let v = choose|v: int|
                        0 <= v < cs.drop_last().len() && cs.drop_last()[v] == skp[i];
                    assert(cs[v] == skp[i]);
                    assert(cs[v].hash != cs[cs.len() - 1].hash);
                    assert(sk[j] == cs.last());
                }
            }
        } else {
            assert(sk =~= skp);
        }
    }
}

/// The parse failures are exactly the records of the new malformed
/// commits.
proof fn lemma_failures_contains(ex: Seq<SpecEntry>, cs: Seq<SpecCommit>)
    ensures
        forall|x: SpecFailure| #[trigger]
            parse_failures(ex, cs).contains(x) <==> exists|c: SpecCommit|
                #[trigger] cs.contains(c) && is_new_malformed(ex, c) && x == failure_of(c),
    decreases cs.len(),
{
    if cs.len() == 0 {
    } else {
        lemma_failures_contains(ex, cs.drop_last());
        let f = parse_failures(ex, cs);
        let fp = parse_failures(ex, cs.drop_last());
        assert forall|x: SpecFailure| #[trigger] f.contains(x) implies exists|c: SpecCommit|
            #[trigger] cs.contains(c) && is_new_malformed(ex, c) && x == failure_of(c) by {
            let w = choose|w: int| 0 <= w < f.len() && f[w] == x;
            if w < fp.len() {
                assert(fp.contains(x));
                let c = choose|c: SpecCommit|
                    #[trigger] cs.drop_last().contains(c) && is_new_malformed(ex, c) && x
                        == failure_of(c);
                let v = choose|v: int| 0 <= v < cs.drop_last().len() && cs.drop_last()[v] == c;
                assert(cs[v] == c);
                assert(cs.contains(c));
            } else {
                assert(x == failure_of(cs.last()));
                assert(cs[cs.len() - 1] == cs.last());
                assert(cs.contains(cs.last()));
            }
        }
        assert forall|x: SpecFailure|
            (exists|c: SpecCommit|
                #[trigger] cs.contains(c) && is_new_malformed(ex, c) && x == failure_of(
                    c,
                )) implies #[trigger] f.contains(x) by {
            let c = choose|c: SpecCommit|
                #[trigger] cs.contains(c) && is_new_malformed(ex, c) && x == failure_of(c);
            let v = choose|v: int| 0 <= v < cs.len() && cs[v] == c;
            if v < cs.len() - 1 {
                assert(cs.drop_last()[v] == c);
                assert(cs.drop_last().contains(c));
                assert(fp.contains(x));
                let w = choose|w: int| 0 <= w < fp.len() && fp[w] == x;
                assert(f[w] == x);
            } else {
                assert(f[f.len() - 1] == x);
            }
        }
    }
}

/// The failure records of a hash-unique commit list are duplicate-free.
proof fn lemma_failures_nodup(ex: Seq<SpecEntry>, cs: Seq<SpecCommit>)
    requires
        unique_commit_hashes(cs),
    ensures
        parse_failures(ex, cs).no_duplicates(),
    decreases cs.len(),
{
    if cs.len() > 0 {
        assert(unique_commit_hashes(cs.drop_last())) by {
            assert(forall|i: int|
                0 <= i < cs.drop_last().len() ==> #[trigger] cs.drop_last()[i] == cs[i]);
        }
        lemma_failures_nodup(ex, cs.drop_last());
        lemma_failures_contains(ex, cs.drop_last());
        let f = parse_failures(ex, cs);
        let fp = parse_failures(ex, cs.drop_last());
        if is_new_malformed(ex, cs.last()) {
            assert(f =~= fp + seq![failure_of(cs.last())]);
            assert forall|i: int, j: int| 0 <= i < j < f.len() implies f[i] != f[j] by {
                if j == f.len() - 1 {
                    assert(f[i] == fp[i]);
                    assert(fp.contains(fp[i]));
                    let c = choose|c: SpecCommit|
                        #[trigger] cs.drop_last().contains(c) && is_new_malformed(ex, c) && fp[i]
                            == failure_of(c);
                    let v = choose|v: int| 0 <= v < cs.drop_last().len() && cs.drop_last()[v] == c;
                    assert(cs[v] == c);
                    assert(cs[v].hash != cs[cs.len() - 1].hash);
                    assert(fp[i].hash == c.hash);
                    assert(f[j].hash == cs.last().hash);
                }
            }
        } else {
            assert(f =~= fp);
        }
    }
}

/// The derived entries of a hash-unique commit list are duplicate-free.
proof fn lemma_derived_nodup(ex: Seq<SpecEntry>, cs: Seq<SpecCommit>)
    requires
        unique_commit_hashes(cs),
    ensures
        derived_entries(ex, cs).no_duplicates(),
{
    lemma_derived_hashes(ex, cs);
    lemma_unique_hashes_nodup(derived_entries(ex, cs));
}

/// DETERMINISM. Reconciling the same journal against any permutation of
/// the same commit list yields the same ordered output and the same
/// counts; the failure records are the same up to order.
pub proof fn lemma_reconcile_deterministic(
    ex: Seq<SpecEntry>,
    cs1: Seq<SpecCommit>,
    cs2: Seq<SpecCommit>,
)
    requires
        unique_entry_hashes(ex),
        unique_commit_hashes(cs1),
        unique_commit_hashes(cs2),
        cs1.to_multiset() == cs2.to_multiset(),
    ensures
        merged_entries(ex, cs1) == merged_entries(ex, cs2),
        derived_entries(ex, cs1).len() == derived_entries(ex, cs2).len(),
        skipped_count(ex, cs1) == skipped_count(ex, cs2),
        parse_failures(ex, cs1).to_multiset() == parse_failures(ex, cs2).to_multiset(),
{
    broadcast use group_to_multiset_ensures;

    lemma_ms_members(cs1, cs2);
    let d1 = derived_entries(ex, cs1);
    let d2 = derived_entries(ex, cs2);
    lemma_derived_contains(ex, cs1);
    lemma_derived_contains(ex, cs2);
    lemma_derived_nodup(ex, cs1);
    lemma_derived_nodup(ex, cs2);
    assert forall|x: SpecEntry| d1.contains(x) == d2.contains(x) by {
        if d1.contains(x) {
            let i = choose|i: int|
                0 <= i < cs1.len() && is_new_valid(ex, #[trigger] cs1[i]) && x == commit_entry(
                    cs1[i],
                );
            assert(cs1.contains(cs1[i]));
            assert(cs2.contains(cs1[i]));
            let j = choose|j: int| 0 <= j < cs2.len() && cs2[j] == cs1[i];
            assert(is_new_valid(ex, cs2[j]) && x == commit_entry(cs2[j]));
        }
        if d2.contains(x) {
            let i = choose|i: int|
                0 <= i < cs2.len() && is_new_valid(ex, #[trigger] cs2[i]) && x == commit_entry(
                    cs2[i],
                );
            assert(cs2.contains(cs2[i]));
            assert(cs1.contains(cs2[i]));
            let j = choose|j: int| 0 <= j < cs1.len() && cs1[j] == cs2[i];
            assert(is_new_valid(ex, cs1[j]) && x == commit_entry(cs1[j]));
        }
    }
    lemma_nodup_members_ms(d1, d2);
    assert(d1.to_multiset().len() == d1.len());
    assert(d2.to_multiset().len() == d2.len());
    assert(d1.len() == d2.len());
    let base1 = ex + d1;
    let base2 = ex + d2;
    lemma_multiset_commutative(ex, d1);
    lemma_multiset_commutative(ex, d2);
    assert(base1.to_multiset() == base2.to_multiset());
    lemma_base_unique(ex, cs1);
    lemma_sort_entries(base1);
    lemma_sort_entries(base2);
    lemma_ms_unique_hashes(base1, merged_entries(ex, cs1));
    lemma_sorted_ms_equal(merged_entries(ex, cs1), merged_entries(ex, cs2));
    lemma_skipped_commits(ex, cs1);
    lemma_skipped_commits(ex, cs2);
    lemma_skipped_commits_nodup(ex, cs1);
    lemma_skipped_commits_nodup(ex, cs2);
    assert forall|x: SpecCommit|
        skipped_commits(ex, cs1).contains(x) == skipped_commits(ex, cs2).contains(x) by {
        assert(cs1.contains(x) == cs2.contains(x));
    }
    lemma_nodup_members_ms(skipped_commits(ex, cs1), skipped_commits(ex, cs2));
    assert(skipped_commits(ex, cs1).to_multiset().len() == skipped_commits(ex, cs1).len());
    assert(skipped_commits(ex, cs2).to_multiset().len() == skipped_commits(ex, cs2).len());
    assert(skipped_commits(ex, cs1).len() == skipped_commits(ex, cs2).len());
    let f1 = parse_failures(ex, cs1);
    let f2 = parse_failures(ex, cs2);
    lemma_failures_contains(ex, cs1);
    lemma_failures_contains(ex, cs2);
    lemma_failures_nodup(ex, cs1);
    lemma_failures_nodup(ex, cs2);
    assert forall|x: SpecFailure| f1.contains(x) == f2.contains(x) by {
        if f1.contains(x) {
            let c = choose|c: SpecCommit|
                #[trigger] cs1.contains(c) && is_new_malformed(ex, c) && x == failure_of(c);
            assert(cs2.contains(c));
        }
        if f2.contains(x) {
            let c = choose|c: SpecCommit|
                #[trigger] cs2.contains(c) && is_new_malformed(ex, c) && x == failure_of(c);
            assert(cs1.contains(c));
        }
    }
    lemma_nodup_members_ms(f1, f2);
}

/// A commit list without new malformed commits yields no failures, and
/// conversely.
proof fn lemma_failures_empty_iff(ex: Seq<SpecEntry>, cs: Seq<SpecCommit>)
    ensures
        parse_failures(ex, cs).len() == 0 <==> forall|i: int|
            0 <= i < cs.len() ==> !is_new_malformed(ex, #[trigger] cs[i]),
    decreases cs.len(),
{
    if cs.len() > 0 {
        lemma_failures_empty_iff(ex, cs.drop_last());
        let dl = cs.drop_last();
        assert(forall|i: int| 0 <= i < dl.len() ==> #[trigger] dl[i] == cs[i]);
        assert(cs.last() == cs[cs.len() - 1]);
        if parse_failures(ex, cs).len() == 0 {
            assert(parse_failures(ex, dl).len() == 0);
            assert forall|i: int| 0 <= i < cs.len() implies !is_new_malformed(
                ex,
                #[trigger] cs[i],
            ) by {
                if i < cs.len() - 1 {
                    assert(!is_new_malformed(ex, dl[i]));
                }
            }
        }
        if forall|i: int| 0 <= i < cs.len() ==> !is_new_malformed(ex, #[trigger] cs[i]) {
            assert forall|i: int| 0 <= i < dl.len() implies !is_new_malformed(
                ex,
                #[trigger] dl[i],
            ) by {
                assert(dl[i] == cs[i]);
            }
            assert(parse_failures(ex, dl).len() == 0);
            assert(!is_new_malformed(ex, cs.last()));
        }
    }
}

/// A journal that already holds every commit's entry derives nothing.
proof fn lemma_second_run(ex2: Seq<SpecEntry>, ex: Seq<SpecEntry>, cs: Seq<SpecCommit>)
    requires
        forall|i: int|
            0 <= i < cs.len() ==> has_hash(ex2, (#[trigger] cs[i]).hash) == (has_hash(
                ex,
                cs[i].hash,
            ) || is_new_valid(ex, cs[i])),
    ensures
        derived_entries(ex2, cs).len() == 0,
        skipped_count(ex2, cs) == skipped_count(ex, cs) + derived_entries(ex, cs).len(),
        forall|i: int|
            0 <= i < cs.len() && !is_new_malformed(ex, #[trigger] cs[i]) ==> !is_new_malformed(
                ex2,
                cs[i],
            ),
    decreases cs.len(),
{
    if cs.len() > 0 {
        assert(forall|i: int| 0 <= i < cs.drop_last().len() ==> #[trigger] cs.drop_last()[i]
            == cs[i]);
        lemma_second_run(ex2, ex, cs.drop_last());
        assert(cs.last() == cs[cs.len() - 1]);
    }
}

/// IDEMPOTENCE. Reconciling the output of a failure-free run against the
/// same commits adds nothing, fails nothing, skips every commit that was
/// skipped or added before, and leaves the entries unchanged.
pub proof fn lemma_reconcile_idempotent(ex: Seq<SpecEntry>, cs: Seq<SpecCommit>)
    requires
        unique_entry_hashes(ex),
        unique_commit_hashes(cs),
        parse_failures(ex, cs).len() == 0,
    ensures
        derived_entries(merged_entries(ex, cs), cs).len() == 0,
        parse_failures(merged_entries(ex, cs), cs).len() == 0,
        skipped_count(merged_entries(ex, cs), cs) == skipped_count(ex, cs) + derived_entries(
            ex,
            cs,
        ).len(),
        merged_entries(merged_entries(ex, cs), cs) == merged_entries(ex, cs),
{
    broadcast use group_to_multiset_ensures;

    let d = derived_entries(ex, cs);
    let base = ex + d;
    let out = merged_entries(ex, cs);
    lemma_sort_entries(base);
    lemma_derived_contains(ex, cs);
    lemma_ms_members(base, out);
    assert forall|i: int| 0 <= i < cs.len() implies has_hash(out, (#[trigger] cs[i]).hash) == (
    has_hash(ex, cs[i].hash) || is_new_valid(ex, cs[i])) by {
        let c = cs[i];
        if has_hash(ex, c.hash) {
            let v = choose|v: int| 0 <= v < ex.len() && ex[v].hash == c.hash;
            assert(base[v] == ex[v]);
            assert(base.contains(ex[v]));
            assert(out.contains(ex[v]));
            let w = choose|w: int| 0 <= w < out.len() && out[w] == ex[v];
            assert(has_hash(out, c.hash));
        } else if is_new_valid(ex, c) {
            assert(d.contains(commit_entry(c)));
            let v = choose|v: int| 0 <= v < d.len() && d[v] == commit_entry(c);
            assert(base[ex.len() + v] == d[v]);
            assert(base.contains(commit_entry(c)));
            assert(out.contains(commit_entry(c)));
            let w = choose|w: int| 0 <= w < out.len() && out[w] == commit_entry(c);
            assert(out[w].hash == c.hash);
            assert(has_hash(out, c.hash));
        } else {
            if has_hash(out, c.hash) {
                let w = choose|w: int| 0 <= w < out.len() && out[w].hash == c.hash;
                assert(out.contains(out[w]));
                assert(base.contains(out[w]));
                let v = choose|v: int| 0 <= v < base.len() && base[v] == out[w];
                if v < ex.len() {
                    assert(ex[v].hash == c.hash);
                    assert(has_hash(ex, c.hash));
                } else {
                    assert(d[v - ex.len()] == out[w]);
                    assert(d.contains(out[w]));
                    let u = choose|u: int|
                        0 <= u < cs.len() && is_new_valid(ex, #[trigger] cs[u]) && out[w]
                            == commit_entry(cs[u]);
                    assert(cs[u].hash == c.hash);
                    assert(cs[u].hash == cs[i].hash);
                    if u != i {
                        assert(false);
                    }
                    assert(is_new_valid(ex, c));
                }
                assert(false);
            }
        }
    }
    lemma_second_run(out, ex, cs);
    lemma_failures_empty_iff(ex, cs);
    lemma_failures_empty_iff(out, cs);
    let d2 = derived_entries(out, cs);
    assert(d2 =~= Seq::<SpecEntry>::empty());
    assert(out + d2 =~= out);
    lemma_reconcile_unique(ex, cs);
    lemma_sort_entries(out);
    lemma_ms_unique_hashes(out, sort_entries(out));
    lemma_sorted_ms_equal(sort_entries(out), out);
}

} // verus!
