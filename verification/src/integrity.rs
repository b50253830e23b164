//! Checking that index tables loaded from storage are well formed.
//!
//! The operations on the index assume its keys are unique and its tag
//! table is closed under ancestors. Tables read back from disk are checked
//! against exactly that before they are used.
use vstd::prelude::*;

use crate::index::{file_paths, link_keys, meta_keys, note_ids, strs_view, find_str, Index};
use crate::tags::{is_ancestor_or_self, valid_tag_path, validate_path};
use crate::text::{chars_of, str_eq, string_from_range};

verus! {

/// Keys as (number, text) pairs.
pub open spec fn keys_view(ids: Seq<u128>, texts: Seq<String>) -> Seq<(u128, Seq<char>)> {
    Seq::new(ids.len(), |i: int| (ids[i], texts[i]@))
}

/// Whether the pairs (`ids[i]`, `texts[i]`) are pairwise distinct.
fn keys_distinct(ids: &Vec<u128>, texts: &Vec<String>) -> (r: bool)
    requires
        ids.len() == texts.len(),
    ensures
        r == keys_view(ids@, texts@).no_duplicates(),
{
    let ghost ks = keys_view(ids@, texts@);
    let mut i: usize = 0;
    while i < ids.len()
        invariant
            i <= ids.len() == texts.len(),
            ks == keys_view(ids@, texts@),
            forall|a: int, b: int| 0 <= a < i && 0 <= b < ks.len() && a != b ==> ks[a] != ks[b],
        decreases ids.len() - i,
    {
        let mut j: usize = 0;
        while j < ids.len()
            invariant
                j <= ids.len() == texts.len(),
                i < ids.len(),
                ks == keys_view(ids@, texts@),
                forall|a: int, b: int| 0 <= a < i && 0 <= b < ks.len() && a != b ==> ks[a] != ks[b],
                forall|b: int| 0 <= b < j && b != i ==> ks[i as int] != ks[b],
            decreases ids.len() - j,
        {
            if j != i && ids[i] == ids[j] && str_eq(texts[i].as_str(), texts[j].as_str()) {
                assert(ks[i as int] == ks[j as int]);
                return false;
            }
            j += 1;
        }
        i += 1;
    }
    true
}

/// Whether every proper ancestor of `d` (each prefix ending before a `/`)
/// is in `tags`.
fn ancestors_present(tags: &Vec<String>, d: &str) -> (r: bool)
    ensures
        r == forall|a: Seq<char>| is_ancestor_or_self(a, d@) ==> strs_view(tags@).contains(a) || a == d@,
{
    let cs = chars_of(d);
    let mut k: usize = 0;
    while k < cs.len()
        invariant
            k <= cs.len(),
            cs@ == d@,
            forall|m: int| 0 <= m < k && cs@[m] == '/' ==> strs_view(tags@).contains(#[trigger] cs@.take(m)),
        decreases cs.len() - k,
    {
        if cs[k] == '/' {
            let prefix = string_from_range(&cs, 0, k);
            assert(prefix@ == cs@.take(k as int));
            match find_str(tags, prefix.as_str()) {
                Some(i) => {
                    assert(strs_view(tags@)[i as int] == cs@.take(k as int));
                },
                None => {
                    proof {
                        let a = cs@.take(k as int);
                        assert(is_ancestor_or_self(a, d@));
                        assert(a != d@);
                    }
                    return false;
                },
            }
        }
        k += 1;
    }
    proof {
        assert forall|a: Seq<char>| is_ancestor_or_self(a, d@) implies strs_view(tags@).contains(a) || a == d@ by {
            if a != d@ {
                assert(cs@[a.len() as int] == '/');
                assert(cs@.take(a.len() as int) == a);
            }
        }
    }
    true
}

impl Index {
    /// Whether the tables are well formed ([`Index::wf`]).
    pub fn is_wf(&self) -> (r: bool)
        ensures
            r == self.wf(),
    {
        // Primary keys.
        let mut ids: Vec<u128> = Vec::new();
        let mut blank: Vec<String> = Vec::new();
        let mut k: usize = 0;
        while k < self.notes.len()
            invariant
                k <= self.notes.len(),
                ids.len() == k,
                blank.len() == k,
                forall|m: int| 0 <= m < k ==> ids@[m] == self.notes@[m].id.value && blank@[m]@ == Seq::<char>::empty(),
            decreases self.notes.len() - k,
        {
            ids.push(self.notes[k].id.value);
            let e = String::new();
            assert(e@ == Seq::<char>::empty());
            blank.push(e);
            assert(blank@[k as int]@ == Seq::<char>::empty());
            k += 1;
        }
        let notes_ok = keys_distinct(&ids, &blank);
        proof {
            let ks = keys_view(ids@, blank@);
            let ns = note_ids(self.notes@);
            assert(ks.no_duplicates() == ns.no_duplicates()) by {
                assert forall|a: int, b: int| 0 <= a < ks.len() && 0 <= b < ks.len() implies (ks[a] == ks[b]) == (ns[a] == ns[b]) by {}
            }
        }
        let mut zeros: Vec<u128> = Vec::new();
        let mut paths: Vec<String> = Vec::new();
        let mut k: usize = 0;
        while k < self.files.len()
            invariant
                k <= self.files.len(),
                zeros.len() == k,
                paths.len() == k,
                forall|m: int| 0 <= m < k ==> zeros@[m] == 0 && paths@[m]@ == self.files@[m].path@,
            decreases self.files.len() - k,
        {
            zeros.push(0);
            let p = self.files[k].path.clone();
            assert(p@ == self.files@[k as int].path@);
            paths.push(p);
            assert(paths@[k as int]@ == self.files@[k as int].path@);
            k += 1;
        }
        let files_ok = keys_distinct(&zeros, &paths);
        proof {
            let ks = keys_view(zeros@, paths@);
            let fs = file_paths(self.files@);
            assert(ks.no_duplicates() == fs.no_duplicates()) by {
                assert forall|a: int, b: int| 0 <= a < ks.len() && 0 <= b < ks.len() implies (ks[a] == ks[b]) == (fs[a] == fs[b]) by {}
            }
        }
        let mut srcs: Vec<u128> = Vec::new();
        let mut raws: Vec<String> = Vec::new();
        let mut k: usize = 0;
        while k < self.links.len()
            invariant
                k <= self.links.len(),
                srcs.len() == k,
                raws.len() == k,
                forall|m: int| 0 <= m < k ==> srcs@[m] == self.links@[m].source.value && raws@[m]@ == self.links@[m].raw@,
            decreases self.links.len() - k,
        {
            srcs.push(self.links[k].source.value);
            let raw = self.links[k].raw.clone();
            assert(raw@ == self.links@[k as int].raw@);
            raws.push(raw);
            assert(raws@[k as int]@ == self.links@[k as int].raw@);
            k += 1;
        }
        let links_ok = keys_distinct(&srcs, &raws);
        proof {
            let ks = keys_view(srcs@, raws@);
            let ls = link_keys(self.links@);
            assert(ks =~= ls);
        }
        let mut zeros2: Vec<u128> = Vec::new();
        let mut keys: Vec<String> = Vec::new();
        let mut k: usize = 0;
        while k < self.meta.len()
            invariant
                k <= self.meta.len(),
                zeros2.len() == k,
                keys.len() == k,
                forall|m: int| 0 <= m < k ==> zeros2@[m] == 0 && keys@[m]@ == self.meta@[m].key@,
            decreases self.meta.len() - k,
        {
            zeros2.push(0);
            let key = self.meta[k].key.clone();
            assert(key@ == self.meta@[k as int].key@);
            keys.push(key);
            assert(keys@[k as int]@ == self.meta@[k as int].key@);
            k += 1;
        }
        let meta_ok = keys_distinct(&zeros2, &keys);
        proof {
            let ks = keys_view(zeros2@, keys@);
            let ms = meta_keys(self.meta@);
            assert(ks.no_duplicates() == ms.no_duplicates()) by {
                assert forall|a: int, b: int| 0 <= a < ks.len() && 0 <= b < ks.len() implies (ks[a] == ks[b]) == (ms[a] == ms[b]) by {}
            }
        }
        // The tag table.
        let mut zeros3: Vec<u128> = Vec::new();
        let mut k: usize = 0;
        while k < self.tags.len()
            invariant
                k <= self.tags.len(),
                zeros3.len() == k,
                forall|m: int| 0 <= m < k ==> zeros3@[m] == 0,
            decreases self.tags.len() - k,
        {
            zeros3.push(0);
            k += 1;
        }
        let tags_distinct = keys_distinct(&zeros3, &self.tags);
        proof {
            let ks = keys_view(zeros3@, self.tags@);
            let ts = self.tag_paths();
            assert(ks.no_duplicates() == ts.no_duplicates()) by {
                assert forall|a: int, b: int| 0 <= a < ks.len() && 0 <= b < ks.len() implies (ks[a] == ks[b]) == (ts[a] == ts[b]) by {}
            }
        }
        let ghost ts = self.tag_paths();
        let mut tags_shaped = true;
        let mut k: usize = 0;
        while k < self.tags.len()
            invariant
                k <= self.tags.len(),
                ts == self.tag_paths(),
                tags_shaped == forall|m: int| 0 <= m < k ==> valid_tag_path(#[trigger] ts[m]) && (forall|a: Seq<char>|
                    is_ancestor_or_self(a, ts[m]) ==> ts.contains(a)),
            decreases self.tags.len() - k,
        {
            let valid = validate_path(self.tags[k].as_str()).is_ok();
            let closed = ancestors_present(&self.tags, self.tags[k].as_str());
            proof {
                assert(ts[k as int] == self.tags@[k as int]@);
                assert(ts.contains(ts[k as int]));
                if !closed {
                    let a = choose|a: Seq<char>| !(is_ancestor_or_self(a, ts[k as int]) ==> ts.contains(a) || a == ts[k as int]);
                    assert(is_ancestor_or_self(a, ts[k as int]) && !ts.contains(a));
                }
            }
            tags_shaped = tags_shaped && valid && closed;
            k += 1;
        }
        // The note/tag pairs.
        let mut nids: Vec<u128> = Vec::new();
        let mut tps: Vec<String> = Vec::new();
        let mut known = true;
        let ghost pairs = self.note_tag_pairs();
        let mut k: usize = 0;
        while k < self.note_tags.len()
            invariant
                k <= self.note_tags.len(),
                nids.len() == k,
                tps.len() == k,
                ts == self.tag_paths(),
                pairs == self.note_tag_pairs(),
                forall|m: int| 0 <= m < k ==> nids@[m] == self.note_tags@[m].note_id.value && tps@[m]@ == self.note_tags@[m].tag_path@,
                known == forall|m: int| 0 <= m < k ==> ts.contains((#[trigger] pairs[m]).1),
            decreases self.note_tags.len() - k,
        {
            nids.push(self.note_tags[k].note_id.value);
            let tp = self.note_tags[k].tag_path.clone();
            assert(tp@ == self.note_tags@[k as int].tag_path@);
            tps.push(tp);
            assert(tps@[k as int]@ == self.note_tags@[k as int].tag_path@);
            let present = match find_str(&self.tags, self.note_tags[k].tag_path.as_str()) {
                Some(i) => {
                    assert(ts[i as int] == self.note_tags@[k as int].tag_path@);
                    true
                },
                None => false,
            };
            proof {
                assert(pairs[k as int].1 == self.note_tags@[k as int].tag_path@);
            }
            known = known && present;
            k += 1;
        }
        let pairs_ok = keys_distinct(&nids, &tps);
        proof {
            assert(keys_view(nids@, tps@) =~= pairs);
        }
        let r = notes_ok && files_ok && links_ok && meta_ok && tags_distinct && tags_shaped && known && pairs_ok;
        proof {
            if tags_shaped {
                assert forall|i: int| 0 <= i < ts.len() implies valid_tag_path(#[trigger] ts[i]) by {}
                assert forall|d: Seq<char>, a: Seq<char>|
                    ts.contains(d) && is_ancestor_or_self(a, d) implies ts.contains(a) by {
                    let m = choose|m: int| 0 <= m < ts.len() && ts[m] == d;
                    assert(valid_tag_path(ts[m]));
                }
            }
            if !tags_shaped {
                let m = choose|m: int| 0 <= m < ts.len() && !(valid_tag_path(#[trigger] ts[m]) && (forall|a: Seq<char>|
                    is_ancestor_or_self(a, ts[m]) ==> ts.contains(a)));
                if valid_tag_path(ts[m]) {
                    let a = choose|a: Seq<char>| !(is_ancestor_or_self(a, ts[m]) ==> ts.contains(a));
                    assert(ts.contains(ts[m]));
                }
            }
        }
        r
    }
}

} // verus!
