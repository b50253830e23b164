//! Stable orderings of table rows by a text key.
//!
//! SQLite's `ORDER BY` on text compares code points; rows with equal keys
//! are kept here in table order. An ordering is given as the positions of
//! the rows, built the way an insertion sort builds it: each row goes just
//! after every earlier row it does not sort before.
use vstd::prelude::*;

use crate::index::strs_view;
use crate::query::{asc_slot, desc_slot};
use crate::text::{compare_str, Lex};

verus! {

/// The keys at the given positions.
pub open spec fn keys_at(keys: Seq<Seq<char>>, pos: Seq<int>) -> Seq<Seq<char>> {
    pos.map_values(|i: int| keys[i])
}

/// Positions as integers.
pub open spec fn as_ints(v: Seq<usize>) -> Seq<int> {
    v.map_values(|i: usize| i as int)
}

/// The positions of `keys` in ascending key order; equal keys keep their
/// order.
pub open spec fn ascending(keys: Seq<Seq<char>>) -> Seq<int>
    decreases keys.len(),
{
    if keys.len() == 0 {
        Seq::empty()
    } else {
        let s = ascending(keys.drop_last());
        s.insert(asc_slot(keys_at(keys, s), keys.last(), 0), keys.len() - 1)
    }
}

/// The positions of `keys` in descending key order; equal keys keep their
/// order.
pub open spec fn descending(keys: Seq<Seq<char>>) -> Seq<int>
    decreases keys.len(),
{
    if keys.len() == 0 {
        Seq::empty()
    } else {
        let s = descending(keys.drop_last());
        s.insert(desc_slot(keys_at(keys, s), keys.last(), 0), keys.len() - 1)
    }
}

proof fn lemma_asc_slot_bound(keys: Seq<Seq<char>>, k: Seq<char>, i: int)
    requires
        0 <= i,
    ensures
        i <= keys.len() ==> i <= asc_slot(keys, k, i) <= keys.len(),
        i > keys.len() ==> asc_slot(keys, k, i) == keys.len(),
    decreases keys.len() - i,
{
    if i < keys.len() {
        lemma_asc_slot_bound(keys, k, i + 1);
    }
}

proof fn lemma_desc_slot_bound(keys: Seq<Seq<char>>, k: Seq<char>, i: int)
    requires
        0 <= i,
    ensures
        i <= keys.len() ==> i <= desc_slot(keys, k, i) <= keys.len(),
        i > keys.len() ==> desc_slot(keys, k, i) == keys.len(),
    decreases keys.len() - i,
{
    if i < keys.len() {
        lemma_desc_slot_bound(keys, k, i + 1);
    }
}

/// The ascending positions are the positions of `keys`, each once.
pub proof fn lemma_ascending_positions(keys: Seq<Seq<char>>)
    ensures
        ascending(keys).len() == keys.len(),
        forall|j: int| 0 <= j < keys.len() ==> 0 <= #[trigger] ascending(keys)[j] < keys.len(),
        ascending(keys).no_duplicates(),
    decreases keys.len(),
{
    if keys.len() > 0 {
        let s = ascending(keys.drop_last());
        lemma_ascending_positions(keys.drop_last());
        let p = asc_slot(keys_at(keys, s), keys.last(), 0);
        lemma_asc_slot_bound(keys_at(keys, s), keys.last(), 0);
        let t = s.insert(p, keys.len() - 1);
        assert forall|j: int| 0 <= j < t.len() implies 0 <= #[trigger] t[j] < keys.len() by {
            if j < p {
                assert(t[j] == s[j]);
            } else if j > p {
                assert(t[j] == s[j - 1]);
            }
        }
        assert forall|a: int, b: int| 0 <= a < b < t.len() implies t[a] != t[b] by {
            if a < p && b < p {
                assert(t[a] == s[a] && t[b] == s[b]);
            } else if a < p && b > p {
                assert(t[a] == s[a] && t[b] == s[b - 1]);
            } else if a > p {
                assert(t[a] == s[a - 1] && t[b] == s[b - 1]);
            } else if a == p {
                assert(t[b] == s[b - 1]);
            } else {
                assert(t[a] == s[a]);
            }
        }
    }
}

/// The descending positions are the positions of `keys`, each once.
pub proof fn lemma_descending_positions(keys: Seq<Seq<char>>)
    ensures
        descending(keys).len() == keys.len(),
        forall|j: int| 0 <= j < keys.len() ==> 0 <= #[trigger] descending(keys)[j] < keys.len(),
        descending(keys).no_duplicates(),
    decreases keys.len(),
{
    if keys.len() > 0 {
        let s = descending(keys.drop_last());
        lemma_descending_positions(keys.drop_last());
        let p = desc_slot(keys_at(keys, s), keys.last(), 0);
        lemma_desc_slot_bound(keys_at(keys, s), keys.last(), 0);
        let t = s.insert(p, keys.len() - 1);
        assert forall|j: int| 0 <= j < t.len() implies 0 <= #[trigger] t[j] < keys.len() by {
            if j < p {
                assert(t[j] == s[j]);
            } else if j > p {
                assert(t[j] == s[j - 1]);
            }
        }
        assert forall|a: int, b: int| 0 <= a < b < t.len() implies t[a] != t[b] by {
            if a < p && b < p {
                assert(t[a] == s[a] && t[b] == s[b]);
            } else if a < p && b > p {
                assert(t[a] == s[a] && t[b] == s[b - 1]);
            } else if a > p {
                assert(t[a] == s[a - 1] && t[b] == s[b - 1]);
            } else if a == p {
                assert(t[b] == s[b - 1]);
            } else {
                assert(t[a] == s[a]);
            }
        }
    }
}

/// Whether `a` sorts strictly before `b`.
pub fn text_before(a: &str, b: &str) -> (r: bool)
    ensures
        r == crate::text::seq_lt(a@, b@),
{
    match compare_str(a, b) {
        Lex::Before => true,
        _ => false,
    }
}

/// The positions of `keys` in ascending key order.
pub fn sort_ascending(keys: &Vec<String>) -> (order: Vec<usize>)
    ensures
        as_ints(order@) == ascending(strs_view(keys@)),
        forall|i: int| 0 <= i < order.len() ==> order@[i] < keys.len(),
{
    let ghost ks = strs_view(keys@);
    let mut order: Vec<usize> = Vec::new();
    let mut k: usize = 0;
    assert(as_ints(order@) =~= ascending(ks.take(0)));
    while k < keys.len()
        invariant
            k <= keys.len(),
            ks == strs_view(keys@),
            as_ints(order@) == ascending(ks.take(k as int)),
            forall|i: int| 0 <= i < order.len() ==> order@[i] < k,
        decreases keys.len() - k,
    {
        let ghost s = as_ints(order@);
        let ghost cur = keys_at(ks, s);
        let ghost t = ks.take(k + 1);
        assert(t.drop_last() =~= ks.take(k as int));
        assert(t.last() == ks[k as int]);
        assert(keys_at(t, s) =~= cur);
        assert(ks[k as int] == keys@[k as int]@);
        let mut p: usize = 0;
        while p < order.len() && !text_before(keys[k].as_str(), keys[order[p]].as_str())
            invariant
                p <= order.len(),
                k < keys.len(),
                ks == strs_view(keys@),
                s == as_ints(order@),
                cur == keys_at(ks, s),
                forall|i: int| 0 <= i < order.len() ==> order@[i] < k,
                asc_slot(cur, ks[k as int], 0) == asc_slot(cur, ks[k as int], p as int),
            decreases order.len() - p,
        {
            assert(cur[p as int] == ks[order@[p as int] as int]);
            p += 1;
        }
        proof {
            if p < order.len() {
                assert(cur[p as int] == ks[order@[p as int] as int]);
            }
        }
        order.insert(p, k);
        assert(as_ints(order@) =~= s.insert(p as int, k as int));
        k += 1;
    }
    assert(ks.take(ks.len() as int) =~= ks);
    order
}

/// The positions of `keys` in descending key order.
pub fn sort_descending(keys: &Vec<String>) -> (order: Vec<usize>)
    ensures
        as_ints(order@) == descending(strs_view(keys@)),
        forall|i: int| 0 <= i < order.len() ==> order@[i] < keys.len(),
{
    let ghost ks = strs_view(keys@);
    let mut order: Vec<usize> = Vec::new();
    let mut k: usize = 0;
    assert(as_ints(order@) =~= descending(ks.take(0)));
    while k < keys.len()
        invariant
            k <= keys.len(),
            ks == strs_view(keys@),
            as_ints(order@) == descending(ks.take(k as int)),
            forall|i: int| 0 <= i < order.len() ==> order@[i] < k,
        decreases keys.len() - k,
    {
        let ghost s = as_ints(order@);
        let ghost cur = keys_at(ks, s);
        let ghost t = ks.take(k + 1);
        assert(t.drop_last() =~= ks.take(k as int));
        assert(t.last() == ks[k as int]);
        assert(keys_at(t, s) =~= cur);
        assert(ks[k as int] == keys@[k as int]@);
        let mut p: usize = 0;
        while p < order.len() && !text_before(keys[order[p]].as_str(), keys[k].as_str())
            invariant
                p <= order.len(),
                k < keys.len(),
                ks == strs_view(keys@),
                s == as_ints(order@),
                cur == keys_at(ks, s),
                forall|i: int| 0 <= i < order.len() ==> order@[i] < k,
                desc_slot(cur, ks[k as int], 0) == desc_slot(cur, ks[k as int], p as int),
            decreases order.len() - p,
        {
            assert(cur[p as int] == ks[order@[p as int] as int]);
            p += 1;
        }
        proof {
            if p < order.len() {
                assert(cur[p as int] == ks[order@[p as int] as int]);
            }
        }
        order.insert(p, k);
        assert(as_ints(order@) =~= s.insert(p as int, k as int));
        k += 1;
    }
    assert(ks.take(ks.len() as int) =~= ks);
    order
}

} // verus!
