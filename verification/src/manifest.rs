//! The manifest hash does not depend on the order of the walk.
//!
//! The walk of the vault visits files in whatever order the filesystem
//! lists them; the entries are sorted before hashing, so a vault that did
//! not change hashes the same on every run, and the next start-up can skip
//! the full reconcile.
use vstd::prelude::*;

use crate::reconcile::{entry_lt, entry_slot, entry_view, manifest_of, sorted_entries, ManifestEntry};
use crate::text::{lemma_seq_lt_irreflexive, lemma_seq_lt_total, lemma_seq_lt_transitive};

verus! {

type Entry = (Seq<char>, u128, u64);

/// No entry sorts before an earlier one.
pub open spec fn entries_sorted(s: Seq<(Seq<char>, u128, u64)>) -> bool {
    forall|i: int, j: int| 0 <= i < j < s.len() ==> !entry_lt(#[trigger] s[j], #[trigger] s[i])
}

proof fn lemma_lt_irreflexive(a: Entry)
    ensures
        !entry_lt(a, a),
{
    lemma_seq_lt_irreflexive(a.0);
}

proof fn lemma_lt_transitive(a: Entry, b: Entry, c: Entry)
    requires
        entry_lt(a, b),
        entry_lt(b, c),
    ensures
        entry_lt(a, c),
{
    if crate::text::seq_lt(a.0, b.0) && crate::text::seq_lt(b.0, c.0) {
        lemma_seq_lt_transitive(a.0, b.0, c.0);
    }
}

proof fn lemma_lt_total(a: Entry, b: Entry)
    ensures
        entry_lt(a, b) || entry_lt(b, a) || a == b,
{
    lemma_seq_lt_total(a.0, b.0);
}

proof fn lemma_slot(s: Seq<Entry>, x: Entry, i: int)
    requires
        0 <= i <= s.len(),
    ensures
        i <= entry_slot(s, x, i) <= s.len(),
        forall|k: int| i <= k < entry_slot(s, x, i) ==> !entry_lt(x, #[trigger] s[k]),
        entry_slot(s, x, i) < s.len() ==> entry_lt(x, s[entry_slot(s, x, i)]),
    decreases s.len() - i,
{
    if i < s.len() && !entry_lt(x, s[i]) {
        lemma_slot(s, x, i + 1);
    }
}

proof fn lemma_sorted_entries(es: Seq<Entry>)
    ensures
        entries_sorted(sorted_entries(es)),
        sorted_entries(es).to_multiset() == es.to_multiset(),
    decreases es.len(),
{
    broadcast use vstd::seq_lib::to_multiset_insert, vstd::seq_lib::to_multiset_build;

    if es.len() == 0 {
        assert(es =~= Seq::<Entry>::empty());
    } else {
        let s = sorted_entries(es.drop_last());
        lemma_sorted_entries(es.drop_last());
        let x = es.last();
        let p = entry_slot(s, x, 0);
        lemma_slot(s, x, 0);
        let t = s.insert(p, x);
        assert(sorted_entries(es) == t);
        assert forall|i: int, j: int| 0 <= i < j < t.len() implies !entry_lt(#[trigger] t[j], #[trigger] t[i]) by {
            if j < p {
                assert(t[i] == s[i] && t[j] == s[j]);
            } else if j == p {
                assert(t[i] == s[i] && t[j] == x);
                assert(!entry_lt(x, s[i]));
            } else if i < p {
                assert(t[i] == s[i] && t[j] == s[j - 1]);
            } else if i == p {
                assert(t[j] == s[j - 1]);
                assert(entry_lt(x, s[p]));
                if j - 1 > p {
                    assert(!entry_lt(s[j - 1], s[p]));
                }
                if entry_lt(s[j - 1], x) {
                    lemma_lt_transitive(s[j - 1], x, s[p]);
                    if j - 1 == p {
                        lemma_lt_irreflexive(s[p]);
                    }
                }
            } else {
                assert(t[i] == s[i - 1] && t[j] == s[j - 1]);
            }
        }
        assert(es =~= es.drop_last().push(x));
    }
}

proof fn lemma_sorted_unique(a: Seq<Entry>, b: Seq<Entry>)
    requires
        entries_sorted(a),
        entries_sorted(b),
        a.to_multiset() == b.to_multiset(),
    ensures
        a == b,
    decreases a.len(),
{
    broadcast use vstd::seq_lib::to_multiset_len, vstd::seq_lib::to_multiset_contains, vstd::seq_lib::to_multiset_remove;

    assert(a.len() == a.to_multiset().len());
    assert(b.len() == b.to_multiset().len());
    if a.len() == 0 {
        assert(a =~= b);
    } else {
        assert(a.to_multiset().count(a[0]) > 0);
        assert(b.contains(a[0]));
        assert(b.to_multiset().count(b[0]) > 0);
        assert(a.contains(b[0]));
        let j = choose|j: int| 0 <= j < b.len() && b[j] == a[0];
        let i = choose|i: int| 0 <= i < a.len() && a[i] == b[0];
        if j > 0 {
            assert(!entry_lt(b[j], b[0]));
        }
        if i > 0 {
            assert(!entry_lt(a[i], a[0]));
        }
        lemma_lt_total(a[0], b[0]);
        assert(a[0] == b[0]);
        let a1 = a.remove(0);
        let b1 = b.remove(0);
        assert(a1.to_multiset() == a.to_multiset().remove(a[0]));
        assert(b1.to_multiset() == b.to_multiset().remove(b[0]));
        assert forall|x: int, y: int| 0 <= x < y < a1.len() implies !entry_lt(#[trigger] a1[y], #[trigger] a1[x]) by {
            assert(a1[x] == a[x + 1] && a1[y] == a[y + 1]);
        }
        assert forall|x: int, y: int| 0 <= x < y < b1.len() implies !entry_lt(#[trigger] b1[y], #[trigger] b1[x]) by {
            assert(b1[x] == b[x + 1] && b1[y] == b[y + 1]);
        }
        lemma_sorted_unique(a1, b1);
        assert forall|k: int| 0 <= k < a.len() implies a[k] == b[k] by {
            if k > 0 {
                assert(a[k] == a1[k - 1] && b[k] == b1[k - 1]);
            }
        }
        assert(a =~= b);
    }
}

/// Two walks that saw the same files with the same times and sizes, in
/// any order, give the same manifest hash.
pub proof fn law_manifest_ignores_walk_order(e1: Seq<ManifestEntry>, e2: Seq<ManifestEntry>)
    requires
        e1.map_values(|e: ManifestEntry| entry_view(e)).to_multiset() == e2.map_values(
            |e: ManifestEntry| entry_view(e),
        ).to_multiset(),
    ensures
        manifest_of(e1) == manifest_of(e2),
{
    let v1 = e1.map_values(|e: ManifestEntry| entry_view(e));
    let v2 = e2.map_values(|e: ManifestEntry| entry_view(e));
    lemma_sorted_entries(v1);
    lemma_sorted_entries(v2);
    lemma_sorted_unique(sorted_entries(v1), sorted_entries(v2));
}

} // verus!
