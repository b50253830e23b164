//! Hierarchical tags.
//!
//! Tags are forward-slash-separated paths: `learning/mathematics/calculus`.
//! Inserting a leaf tag implicitly inserts every ancestor. The ancestor
//! relation (the closure of the hierarchy) is what powers the four-mode tag
//! query algebra in `query`.
use vstd::prelude::*;

use crate::ids::NoteId;
use crate::index::{find_str, note_tag_view, pairs_of, strs_view, Index, NoteTagRow};
use crate::links::index_of_from;
use crate::text::{chars_of, is_whitespace, is_ws, seq_eq, string_from_range, str_eq};

verus! {

/// Errors from the tag operations.
#[derive(Debug, PartialEq, Eq)]
pub enum TagError {
    Invalid(String),
}

/// `a` is `d` itself or one of its ancestors (`d` continues `a` with `/`).
pub open spec fn is_ancestor_or_self(a: Seq<char>, d: Seq<char>) -> bool {
    a == d || (a.len() < d.len() && d.take(a.len() as int) == a && d[a.len() as int] == '/')
}

/// A well-formed tag path: non-empty, no leading/trailing slash, no double
/// slash, no whitespace and no NUL.
pub open spec fn valid_tag_path(p: Seq<char>) -> bool {
    &&& p.len() > 0
    &&& p[0] != '/'
    &&& p.last() != '/'
    &&& forall|k: int| 0 <= k < p.len() - 1 ==> !(#[trigger] p[k] == '/' && p[k + 1] == '/')
    &&& forall|k: int| 0 <= k < p.len() ==> !is_ws(#[trigger] p[k]) && p[k] != '\0'
}

/// The `/`-separated segments of `p`.
pub open spec fn split_slash(p: Seq<char>) -> Seq<Seq<char>>
    decreases p.len(),
{
    match index_of_from(p, '/', 0) {
        Some(k) => {
            if 0 <= k < p.len() {
                seq![p.take(k)] + split_slash(p.skip(k + 1))
            } else {
                seq![p]
            }
        },
        None => seq![p],
    }
}

proof fn lemma_index_of_from_bounds(s: Seq<char>, c: char, k: int)
    requires
        0 <= k,
    ensures
        index_of_from(s, c, k) matches Some(p) ==> k <= p < s.len() && s[p] == c && forall|m: int|
            k <= m < p ==> s[m] != c,
        index_of_from(s, c, k) is None ==> forall|m: int| k <= m < s.len() ==> s[m] != c,
    decreases s.len() - k,
{
    if k >= 0 && k < s.len() && s[k] != c {
        lemma_index_of_from_bounds(s, c, k + 1);
    }
}

/// Whether the chars of `a` make an ancestor-or-self of the chars of `d`.
pub fn ancestor_or_self(a: &Vec<char>, d: &Vec<char>) -> (r: bool)
    ensures
        r == is_ancestor_or_self(a@, d@),
{
    if a.len() == d.len() {
        let mut k: usize = 0;
        while k < a.len()
            invariant
                a.len() == d.len(),
                k <= a.len(),
                forall|m: int| 0 <= m < k ==> a@[m] == d@[m],
            decreases a.len() - k,
        {
            if a[k] != d[k] {
                return false;
            }
            k += 1;
        }
        assert(a@ =~= d@);
        return true;
    }
    if a.len() > d.len() {
        return false;
    }
    let mut k: usize = 0;
    while k < a.len()
        invariant
            a.len() < d.len(),
            k <= a.len(),
            forall|m: int| 0 <= m < k ==> a@[m] == d@[m],
        decreases a.len() - k,
    {
        if a[k] != d[k] {
            assert(d@.take(a.len() as int)[k as int] != a@[k as int]);
            return false;
        }
        k += 1;
    }
    assert(d@.take(a.len() as int) =~= a@);
    d[a.len()] == '/'
}

/// Validate a tag path and split it into its segments.
pub fn validate_path(path: &str) -> (r: Result<Vec<String>, TagError>)
    ensures
        r is Ok <==> valid_tag_path(path@),
        r matches Ok(segs) ==> strs_view(segs@) == split_slash(path@),
{
    let v = chars_of(path);
    let n = v.len();
    if n == 0 {
        return Err(TagError::Invalid(String::from_str("empty path")));
    }
    if v[0] == '/' || v[n - 1] == '/' {
        return Err(TagError::Invalid(String::from_str("leading/trailing/double slash")));
    }
    let mut k: usize = 0;
    while k < n
        invariant
            n == v.len(),
            v@ == path@,
            n > 0,
            k <= n,
            forall|m: int| 0 <= m < k ==> !is_ws(#[trigger] v@[m]) && v@[m] != '\0',
            forall|m: int| 0 <= m < k && m < n - 1 ==> !(#[trigger] v@[m] == '/' && v@[m + 1] == '/'),
        decreases n - k,
    {
        if k + 1 < n && v[k] == '/' && v[k + 1] == '/' {
            proof {
                let q = path@;
                assert(q[k as int] == '/' && q[k + 1] == '/');
                if valid_tag_path(q) {
                    assert(!(q[k as int] == '/' && q[k + 1] == '/'));
                }
            }
            return Err(TagError::Invalid(String::from_str("leading/trailing/double slash")));
        }
        if is_whitespace(v[k]) || v[k] == '\0' {
            proof {
                let q = path@;
                assert(is_ws(q[k as int]) || q[k as int] == '\0');
                if valid_tag_path(q) {
                    assert(!is_ws(q[k as int]) && q[k as int] != '\0');
                }
            }
            return Err(TagError::Invalid(String::from_str("whitespace or NUL in segment")));
        }
        k += 1;
    }
    assert(v@.last() == v@[n - 1]);
    // Split into segments.
    let mut segs: Vec<String> = Vec::new();
    let mut start: usize = 0;
    let mut j: usize = 0;
    assert(v@.skip(0) =~= v@);
    while j < n
        invariant
            n == v.len(),
            v@ == path@,
            start <= j <= n,
            strs_view(segs@) + split_slash(v@.skip(start as int)) == split_slash(v@),
            forall|m: int| start <= m < j ==> v@[m] != '/',
        decreases n - j,
    {
        if v[j] == '/' {
            let ghost rest = v@.skip(start as int);
            proof {
                lemma_index_of_from_bounds(rest, '/', 0);
                assert(rest[j - start] == '/');
                assert(forall|m: int| 0 <= m < j - start ==> rest[m] != '/');
                if index_of_from(rest, '/', 0) != Some((j - start) as int) {
                    match index_of_from(rest, '/', 0) {
                        Some(q) => {
                            assert(rest[q] == '/');
                        },
                        None => {},
                    }
                }
                assert(rest.take(j - start) =~= v@.subrange(start as int, j as int));
                assert(rest.skip(j - start + 1) =~= v@.skip(j + 1));
            }
            let seg = string_from_range(&v, start, j);
            let ghost before = strs_view(segs@);
            segs.push(seg);
            assert(strs_view(segs@) =~= before.push(v@.subrange(start as int, j as int)));
            assert(split_slash(rest) == seq![v@.subrange(start as int, j as int)] + split_slash(
                v@.skip(j + 1),
            ));
            assert(before.push(v@.subrange(start as int, j as int)) + split_slash(v@.skip(j + 1))
                =~= before + (seq![v@.subrange(start as int, j as int)] + split_slash(
                v@.skip(j + 1),
            )));
            start = j + 1;
        }
        j += 1;
    }
    let ghost rest = v@.skip(start as int);
    proof {
        lemma_index_of_from_bounds(rest, '/', 0);
        if index_of_from(rest, '/', 0) is Some {
            let q = index_of_from(rest, '/', 0)->0;
            assert(rest[q] == v@[start + q]);
        }
        assert(split_slash(rest) == seq![rest]);
        assert(rest =~= v@.subrange(start as int, n as int));
    }
    let last = string_from_range(&v, start, n);
    let ghost before = strs_view(segs@);
    segs.push(last);
    assert(strs_view(segs@) =~= before + seq![rest]);
    Ok(segs)
}

/// `is_ancestor_or_self` is transitive.
pub proof fn lemma_ancestor_transitive(a: Seq<char>, b: Seq<char>, c: Seq<char>)
    requires
        is_ancestor_or_self(a, b),
        is_ancestor_or_self(b, c),
    ensures
        is_ancestor_or_self(a, c),
{
    if a != b && b != c {
        assert(c.take(a.len() as int) =~= c.take(b.len() as int).take(a.len() as int));
        assert(c[a.len() as int] == c.take(b.len() as int)[a.len() as int]);
    }
}

/// Every ancestor of a valid tag path is a valid tag path.
pub proof fn lemma_ancestor_valid(a: Seq<char>, p: Seq<char>)
    requires
        valid_tag_path(p),
        is_ancestor_or_self(a, p),
    ensures
        valid_tag_path(a),
{
    if a != p {
        if a.len() == 0 {
            assert(p[0] == '/');
        }
        assert(a[0] == p[0]);
        let k = a.len() as int;
        assert(a.last() == p[k - 1]);
        assert(p[k] == '/');
        assert forall|m: int| 0 <= m < a.len() - 1 implies !(#[trigger] a[m] == '/' && a[m + 1]
            == '/') by {
            assert(a[m] == p[m] && a[m + 1] == p[m + 1]);
        }
        assert forall|m: int| 0 <= m < a.len() implies !is_ws(#[trigger] a[m]) && a[m] != '\0' by {
            assert(a[m] == p[m]);
        }
    }
}

proof fn lemma_strs_push_contains(v: Seq<Seq<char>>, a: Seq<char>, x: Seq<char>)
    ensures
        v.push(a).contains(x) <==> v.contains(x) || x == a,
{
    if v.contains(x) {
        let i = choose|i: int| 0 <= i < v.len() && v[i] == x;
        assert(v.push(a)[i] == x);
    }
    if x == a {
        assert(v.push(a)[v.len() as int] == a);
    }
    if v.push(a).contains(x) {
        let i = choose|i: int| 0 <= i < v.push(a).len() && v.push(a)[i] == x;
        if i < v.len() {
            assert(v[i] == x);
        }
    }
}

/// Appends `s` to the tag list unless it is already there.
fn push_tag_if_absent(tags: &mut Vec<String>, s: String)
    requires
        strs_view(old(tags)@).no_duplicates(),
    ensures
        strs_view(final(tags)@).no_duplicates(),
        forall|x: Seq<char>|
            strs_view(final(tags)@).contains(x) <==> strs_view(old(tags)@).contains(x) || x == s@,
        strs_view(final(tags)@).len() >= strs_view(old(tags)@).len(),
        strs_view(final(tags)@).take(strs_view(old(tags)@).len() as int) == strs_view(old(tags)@),
{
    let ghost before = strs_view(tags@);
    match find_str(tags, s.as_str()) {
        Some(i) => {
            assert forall|x: Seq<char>| strs_view(tags@).contains(x) <==> before.contains(x) || x
                == s@ by {
                if x == s@ {
                    assert(before[i as int] == x);
                }
            }
            assert(before.take(before.len() as int) =~= before);
        },
        None => {
            tags.push(s);
            assert(strs_view(tags@) =~= before.push(s@));
            assert forall|x: Seq<char>| strs_view(tags@).contains(x) <==> before.contains(x) || x
                == s@ by {
                lemma_strs_push_contains(before, s@, x);
            }
            assert forall|i: int, j: int|
                0 <= i < j < strs_view(tags@).len() implies strs_view(tags@)[i] != strs_view(
                tags@,
            )[j] by {
                if j == before.len() {
                    assert(before[i] == strs_view(tags@)[i]);
                }
            }
            assert(strs_view(tags@).take(before.len() as int) =~= before);
        },
    }
}

/// Insert `path` and all of its ancestors into the tag table. Idempotent.
///
/// For `learning/math/calculus` the tags `learning`, `learning/math` and
/// `learning/math/calculus` exist afterwards; the closure relation between
/// them follows from the paths.
pub fn ensure_tag(index: &mut Index, path: &str) -> (r: Result<(), TagError>)
    requires
        old(index).wf(),
    ensures
        final(index).wf(),
        r is Ok <==> valid_tag_path(path@),
        r is Ok ==> forall|x: Seq<char>|
            #[trigger] final(index).tag_paths().contains(x) <==> old(index).tag_paths().contains(x)
                || is_ancestor_or_self(x, path@),
        r is Err ==> final(index).tag_paths() == old(index).tag_paths(),
        final(index).tag_paths().take(old(index).tag_paths().len() as int) == old(index).tag_paths(),
        final(index).tag_paths().len() >= old(index).tag_paths().len(),
        final(index).note_tags@ == old(index).note_tags@,
        final(index).notes@ == old(index).notes@,
        final(index).files@ == old(index).files@,
        final(index).links@ == old(index).links@,
        final(index).meta@ == old(index).meta@,
        final(index).reminders@ == old(index).reminders@,
{
    let checked = validate_path(path);
    if checked.is_err() {
        return Err(TagError::Invalid(String::from_str("invalid tag path")));
    }
    let v = chars_of(path);
    let ghost p = path@;
    let ghost old_tags = index.tag_paths();
    let n = v.len();
    let mut k: usize = 0;
    while k < n
        invariant
            v@ == p,
            n == v.len(),
            k <= n,
            valid_tag_path(p),
            index.tag_paths().no_duplicates(),
            forall|x: Seq<char>|
                index.tag_paths().contains(x) <==> old_tags.contains(x) || (x.len() < k
                    && is_ancestor_or_self(x, p) && x != p),
            index.tag_paths().take(old_tags.len() as int) == old_tags,
            index.tag_paths().len() >= old_tags.len(),
            index.note_tags@ == old(index).note_tags@,
            index.notes@ == old(index).notes@,
            index.files@ == old(index).files@,
            index.links@ == old(index).links@,
            index.meta@ == old(index).meta@,
            index.reminders@ == old(index).reminders@,
            old_tags == old(index).tag_paths(),
        decreases n - k,
    {
        if v[k] == '/' {
            let pre = string_from_range(&v, 0, k);
            let ghost mid = index.tag_paths();
            push_tag_if_absent(&mut index.tags, pre);
            proof {
                assert(p.take(k as int) =~= v@.subrange(0, k as int));
                assert forall|x: Seq<char>| index.tag_paths().contains(x) <==> old_tags.contains(x)
                    || (x.len() < k + 1 && is_ancestor_or_self(x, p) && x != p) by {
                    if x.len() == k && is_ancestor_or_self(x, p) && x != p {
                        assert(x =~= p.take(k as int));
                    }
                }
                assert(index.tag_paths().take(old_tags.len() as int) =~= mid.take(
                    old_tags.len() as int,
                ).take(old_tags.len() as int));
                assert(index.tag_paths().take(old_tags.len() as int) =~= index.tag_paths().take(
                    mid.len() as int,
                ).take(old_tags.len() as int));
            }
        } else {
            proof {
                assert forall|x: Seq<char>| index.tag_paths().contains(x) <==> old_tags.contains(x)
                    || (x.len() < k + 1 && is_ancestor_or_self(x, p) && x != p) by {
                    if x.len() == k && is_ancestor_or_self(x, p) && x != p {
                        assert(p[k as int] == '/');
                    }
                }
            }
        }
        k += 1;
    }
    let whole = String::from_str(path);
    let ghost mid = index.tag_paths();
    push_tag_if_absent(&mut index.tags, whole);
    proof {
        assert forall|x: Seq<char>| index.tag_paths().contains(x) <==> old_tags.contains(x)
            || is_ancestor_or_self(x, p) by {
            if is_ancestor_or_self(x, p) && x != p {
                assert(x.len() < n);
            }
        }
        assert(index.tag_paths().take(old_tags.len() as int) =~= index.tag_paths().take(
            mid.len() as int,
        ).take(old_tags.len() as int));
        lemma_tags_wf_after_insert(old(index), index, p);
    }
    Ok(())
}

/// Adding every ancestor of a valid path keeps the tag tables well-formed.
proof fn lemma_tags_wf_after_insert(before: &Index, after: &Index, p: Seq<char>)
    requires
        before.tags_wf(),
        valid_tag_path(p),
        after.tag_paths().no_duplicates(),
        forall|x: Seq<char>|
            #[trigger] after.tag_paths().contains(x) <==> before.tag_paths().contains(x)
                || is_ancestor_or_self(x, p),
        after.note_tags@ == before.note_tags@,
    ensures
        after.tags_wf(),
{
    assert(after.note_tag_pairs() == before.note_tag_pairs());
    assert forall|i: int| 0 <= i < after.tag_paths().len() implies valid_tag_path(
        #[trigger] after.tag_paths()[i],
    ) by {
        let t = after.tag_paths()[i];
        assert(after.tag_paths().contains(t));
        if before.tag_paths().contains(t) {
            let j = choose|j: int| 0 <= j < before.tag_paths().len() && before.tag_paths()[j] == t;
            assert(valid_tag_path(before.tag_paths()[j]));
        } else {
            lemma_ancestor_valid(t, p);
        }
    }
    assert forall|d: Seq<char>, a: Seq<char>|
        #![trigger after.tag_paths().contains(d), is_ancestor_or_self(a, d)]
        after.tag_paths().contains(d) && is_ancestor_or_self(a, d) implies after.tag_paths().contains(a) by {
        if before.tag_paths().contains(d) {
            assert(before.tag_paths().contains(a));
        } else {
            lemma_ancestor_transitive(a, d, p);
        }
    }
    assert forall|i: int|
        0 <= i < after.note_tag_pairs().len() implies after.tag_paths().contains(
        (#[trigger] after.note_tag_pairs()[i]).1,
    ) by {
        assert(before.tag_paths().contains(before.note_tag_pairs()[i].1));
        assert(after.note_tag_pairs()[i] == before.note_tag_pairs()[i]);
    }
}

/// Position of the (note, tag) pair in `rows`, if present.
fn find_pair(rows: &Vec<NoteTagRow>, id: &NoteId, path: &str) -> (r: Option<usize>)
    ensures
        match r {
            Some(i) => i < rows.len() && note_tag_view(rows@[i as int]) == (id.value, path@),
            None => !pairs_of(rows@).contains(
                (id.value, path@),
            ),
        },
{
    let mut k: usize = 0;
    while k < rows.len()
        invariant
            k <= rows.len(),
            forall|m: int| 0 <= m < k ==> note_tag_view(rows@[m]) != (id.value, path@),
        decreases rows.len() - k,
    {
        if rows[k].note_id.value == id.value && str_eq(rows[k].tag_path.as_str(), path) {
            return Some(k);
        }
        k += 1;
    }
    proof {
        let pairs = pairs_of(rows@);
        if pairs.contains((id.value, path@)) {
            let m = choose|m: int| 0 <= m < pairs.len() && pairs[m] == (id.value, path@);
            assert(note_tag_view(rows@[m]) == pairs[m]);
        }
    }
    None
}

/// Associate a note with a tag. Ensures the tag (and ancestors) exist.
/// Idempotent: re-adding a tag-note pair is a no-op.
pub fn add_tag_to_note(index: &mut Index, note_id: &NoteId, path: &str) -> (r: Result<
    (),
    TagError,
>)
    requires
        old(index).wf(),
    ensures
        final(index).wf(),
        r is Ok <==> valid_tag_path(path@),
        r is Ok ==> forall|x: Seq<char>|
            #[trigger] final(index).tag_paths().contains(x) <==> old(index).tag_paths().contains(x)
                || is_ancestor_or_self(x, path@),
        r is Ok ==> forall|x: (u128, Seq<char>)|
            #[trigger] final(index).note_tag_pairs().contains(x) <==> old(index).note_tag_pairs().contains(x)
                || x == (note_id.value, path@),
        r is Err ==> final(index).tag_paths() == old(index).tag_paths()
            && final(index).note_tag_pairs() == old(index).note_tag_pairs(),
        final(index).tag_paths().take(old(index).tag_paths().len() as int) == old(index).tag_paths(),
        final(index).tag_paths().len() >= old(index).tag_paths().len(),
        final(index).note_tag_pairs().take(old(index).note_tag_pairs().len() as int) == old(
            index,
        ).note_tag_pairs(),
        final(index).note_tag_pairs().len() >= old(index).note_tag_pairs().len(),
        final(index).notes@ == old(index).notes@,
        final(index).files@ == old(index).files@,
        final(index).links@ == old(index).links@,
        final(index).meta@ == old(index).meta@,
        final(index).reminders@ == old(index).reminders@,
{
    ensure_tag(index, path)?;
    let ghost before = index.note_tag_pairs();
    match find_pair(&index.note_tags, note_id, path) {
        Some(i) => {
            assert(index.note_tag_pairs().take(before.len() as int) =~= before);
            assert forall|x: (u128, Seq<char>)| index.note_tag_pairs().contains(x) <==> before.contains(
                x,
            ) || x == (note_id.value, path@) by {
                if x == (note_id.value, path@) {
                    assert(before[i as int] == x);
                }
            }
        },
        None => {
            let row = NoteTagRow { note_id: *note_id, tag_path: String::from_str(path) };
            let ghost mid = *index;
            index.note_tags.push(row);
            proof {
                assert(index.note_tag_pairs() =~= before.push((note_id.value, path@)));
                assert(index.note_tag_pairs().take(before.len() as int) =~= before);
                assert forall|x: (u128, Seq<char>)| index.note_tag_pairs().contains(x) <==> before.contains(
                    x,
                ) || x == (note_id.value, path@) by {
                    if before.contains(x) {
                        let j = choose|j: int| 0 <= j < before.len() && before[j] == x;
                        assert(index.note_tag_pairs()[j] == x);
                    }
                    if x == (note_id.value, path@) {
                        assert(index.note_tag_pairs()[before.len() as int] == x);
                    }
                    if index.note_tag_pairs().contains(x) {
                        let j = choose|j: int|
                            0 <= j < index.note_tag_pairs().len() && index.note_tag_pairs()[j] == x;
                        if j < before.len() {
                            assert(before[j] == x);
                        }
                    }
                }
                assert forall|i: int, j: int|
                    0 <= i < j < index.note_tag_pairs().len() implies index.note_tag_pairs()[i]
                    != index.note_tag_pairs()[j] by {
                    if j == before.len() {
                        assert(before[i] == index.note_tag_pairs()[i]);
                    }
                }
                assert(index.tag_paths() == mid.tag_paths());
                assert(index.tag_paths().contains(path@)) by {
                    assert(is_ancestor_or_self(path@, path@));
                }
                assert forall|i: int|
                    0 <= i < index.note_tag_pairs().len() implies index.tag_paths().contains(
                    (#[trigger] index.note_tag_pairs()[i]).1,
                ) by {
                    if i < before.len() {
                        assert(index.note_tag_pairs()[i] == mid.note_tag_pairs()[i]);
                    }
                }
            }
        },
    }
    Ok(())
}

/// Remove a (note, tag) association if it exists. Does not delete the tag
/// itself; `purge_orphan_tags` does that.
pub fn remove_tag_from_note(index: &mut Index, note_id: &NoteId, path: &str) -> (r: Result<
    (),
    TagError,
>)
    requires
        old(index).wf(),
    ensures
        final(index).wf(),
        r is Ok,
        forall|x: (u128, Seq<char>)|
            #[trigger] final(index).note_tag_pairs().contains(x) <==> old(
                index,
            ).note_tag_pairs().contains(x) && x != (note_id.value, path@),
        final(index).tag_paths() == old(index).tag_paths(),
        final(index).notes@ == old(index).notes@,
        final(index).files@ == old(index).files@,
        final(index).links@ == old(index).links@,
        final(index).meta@ == old(index).meta@,
        final(index).reminders@ == old(index).reminders@,
{
    let ghost target = (note_id.value, path@);
    let ghost before = index.note_tag_pairs();
    let mut kept: Vec<NoteTagRow> = Vec::new();
    let mut k: usize = 0;
    while k < index.note_tags.len()
        invariant
            k <= index.note_tags.len(),
            index.note_tag_pairs() == before,
            target == (note_id.value, path@),
            before.no_duplicates(),
            pairs_of(kept@).no_duplicates(),
            forall|x: (u128, Seq<char>)|
                #[trigger] pairs_of(kept@).contains(x) <==> before.take(
                    k as int,
                ).contains(x) && x != target,
        decreases index.note_tags.len() - k,
    {
        let row = &index.note_tags[k];
        let ghost kv = pairs_of(kept@);
        let ghost cur = before[k as int];
        assert(cur == note_tag_view(index.note_tags@[k as int]));
        let ghost pre0 = before.take(k as int);
        let ghost pre1 = before.take(k + 1);
        assert(pre1 =~= pre0.push(cur));
        if row.note_id.value == note_id.value && str_eq(row.tag_path.as_str(), path) {
            assert(cur == target);
            assert forall|x: (u128, Seq<char>)|
                #[trigger] pairs_of(kept@).contains(x) <==> pre1.contains(x) && x != target by {
                if pre1.contains(x) && x != target {
                    let j = choose|j: int| 0 <= j < k + 1 && pre1[j] == x;
                    assert(pre0[j] == x);
                }
                if pre0.contains(x) {
                    let j = choose|j: int| 0 <= j < k && pre0[j] == x;
                    assert(pre1[j] == x);
                }
            }
        } else {
            assert(cur != target);
            let c = NoteTagRow { note_id: row.note_id, tag_path: row.tag_path.clone() };
            assert(note_tag_view(c) == cur);
            kept.push(c);
            let ghost kv2 = pairs_of(kept@);
            assert(kv2 =~= kv.push(cur));
            assert(!pre0.contains(cur)) by {
                if pre0.contains(cur) {
                    let j = choose|j: int| 0 <= j < k && pre0[j] == cur;
                    assert(before[j] == before[k as int]);
                }
            }
            assert forall|i: int, j: int| 0 <= i < j < kv2.len() implies kv2[i] != kv2[j] by {
                if j == kv.len() {
                    assert(kv.contains(kv[i]));
                }
            }
            assert forall|x: (u128, Seq<char>)|
                #[trigger] kv2.contains(x) <==> pre1.contains(x) && x != target by {
                if kv2.contains(x) {
                    let j = choose|j: int| 0 <= j < kv2.len() && kv2[j] == x;
                    if j < kv.len() {
                        assert(kv.contains(x));
                        let m = choose|m: int| 0 <= m < k && pre0[m] == x;
                        assert(pre1[m] == x);
                    } else {
                        assert(pre1[k as int] == x);
                    }
                }
                if pre1.contains(x) && x != target {
                    let j = choose|j: int| 0 <= j < k + 1 && pre1[j] == x;
                    if j < k {
                        assert(pre0[j] == x);
                        assert(kv.contains(x));
                        let m = choose|m: int| 0 <= m < kv.len() && kv[m] == x;
                        assert(kv2[m] == x);
                    } else {
                        assert(kv2[kv.len() as int] == x);
                    }
                }
            }
        }
        k += 1;
    }
    assert(before.take(before.len() as int) =~= before);
    let ghost mid = *index;
    index.note_tags = kept;
    proof {
        assert forall|i: int|
            0 <= i < index.note_tag_pairs().len() implies index.tag_paths().contains(
            (#[trigger] index.note_tag_pairs()[i]).1,
        ) by {
            let x = index.note_tag_pairs()[i];
            assert(index.note_tag_pairs().contains(x));
            let j = choose|j: int| 0 <= j < before.len() && before[j] == x;
            assert(mid.tag_paths().contains(mid.note_tag_pairs()[j].1));
        }
    }
    Ok(())
}

/// The tags of note `id` in `pairs`, in table order.
pub open spec fn paths_of_note(pairs: Seq<(u128, Seq<char>)>, id: u128) -> Seq<Seq<char>>
    decreases pairs.len(),
{
    if pairs.len() == 0 {
        Seq::empty()
    } else {
        let rest = paths_of_note(pairs.drop_last(), id);
        if pairs.last().0 == id {
            rest.push(pairs.last().1)
        } else {
            rest
        }
    }
}

/// List the tags explicitly assigned to a note (not their ancestors, which
/// the closure supplies at query time).
pub fn list_tags_for_note(index: &Index, note_id: &NoteId) -> (r: Result<Vec<String>, TagError>)
    ensures
        r matches Ok(v) && strs_view(v@) == paths_of_note(index.note_tag_pairs(), note_id.value),
{
    let mut out: Vec<String> = Vec::new();
    let mut k: usize = 0;
    while k < index.note_tags.len()
        invariant
            k <= index.note_tags.len(),
            strs_view(out@) == paths_of_note(index.note_tag_pairs().take(k as int), note_id.value),
        decreases index.note_tags.len() - k,
    {
        let ghost pre = index.note_tag_pairs().take(k + 1);
        assert(pre.drop_last() =~= index.note_tag_pairs().take(k as int));
        if index.note_tags[k].note_id.value == note_id.value {
            let ghost before = strs_view(out@);
            out.push(index.note_tags[k].tag_path.clone());
            assert(strs_view(out@) =~= before.push(index.note_tags@[k as int].tag_path@));
        }
        k += 1;
    }
    assert(index.note_tag_pairs().take(index.note_tags.len() as int) =~= index.note_tag_pairs());
    Ok(out)
}

/// Some assigned tag lies in the branch of `t`.
pub open spec fn tag_used(pairs: Seq<(u128, Seq<char>)>, t: Seq<char>) -> bool {
    exists|i: int| 0 <= i < pairs.len() && is_ancestor_or_self(t, #[trigger] pairs[i].1)
}

/// Some other tag of `tags` lies below `t`.
pub open spec fn has_strict_descendant(tags: Seq<Seq<char>>, t: Seq<char>) -> bool {
    exists|j: int| 0 <= j < tags.len() && #[trigger] tags[j] != t && is_ancestor_or_self(t, tags[j])
}

/// A tag that `purge_orphan_tags` removes in one pass.
pub open spec fn is_orphan(tags: Seq<Seq<char>>, pairs: Seq<(u128, Seq<char>)>, t: Seq<char>) -> bool {
    !tag_used(pairs, t) && !has_strict_descendant(tags, t)
}

fn used_exec(rows: &Vec<NoteTagRow>, t: &Vec<char>) -> (r: bool)
    ensures
        r == tag_used(pairs_of(rows@), t@),
{
    let ghost pairs = pairs_of(rows@);
    let mut k: usize = 0;
    while k < rows.len()
        invariant
            k <= rows.len(),
            pairs == pairs_of(rows@),
            forall|m: int| 0 <= m < k ==> !is_ancestor_or_self(t@, #[trigger] pairs[m].1),
        decreases rows.len() - k,
    {
        let d = chars_of(rows[k].tag_path.as_str());
        if ancestor_or_self(t, &d) {
            assert(pairs[k as int].1 == d@);
            return true;
        }
        assert(pairs[k as int].1 == d@);
        k += 1;
    }
    false
}

fn strict_descendant_exec(tags: &Vec<String>, t: &Vec<char>) -> (r: bool)
    ensures
        r == has_strict_descendant(strs_view(tags@), t@),
{
    let ghost tv = strs_view(tags@);
    let mut k: usize = 0;
    while k < tags.len()
        invariant
            k <= tags.len(),
            tv == strs_view(tags@),
            forall|m: int| 0 <= m < k ==> !(#[trigger] tv[m] != t@ && is_ancestor_or_self(t@, tv[m])),
        decreases tags.len() - k,
    {
        let d = chars_of(tags[k].as_str());
        assert(tv[k as int] == d@);
        if ancestor_or_self(t, &d) && !seq_eq(&d, t) {
            return true;
        }
        k += 1;
    }
    false
}

/// With no orphan left, every remaining tag is used.
proof fn lemma_no_orphan_all_used(
    tags: Seq<Seq<char>>,
    pairs: Seq<(u128, Seq<char>)>,
    t: Seq<char>,
    bound: nat,
)
    requires
        tags.contains(t),
        forall|i: int| 0 <= i < tags.len() ==> (#[trigger] tags[i]).len() <= bound,
        forall|i: int| 0 <= i < tags.len() ==> !is_orphan(tags, pairs, #[trigger] tags[i]),
    ensures
        tag_used(pairs, t),
    decreases bound - t.len(),
{
    let i = choose|i: int| 0 <= i < tags.len() && tags[i] == t;
    assert(!is_orphan(tags, pairs, tags[i]));
    if !tag_used(pairs, t) {
        assert(has_strict_descendant(tags, t));
        let j = choose|j: int| 0 <= j < tags.len() && #[trigger] tags[j] != t && is_ancestor_or_self(t, tags[j]);
        let d = tags[j];
        assert(d.len() > t.len());
        assert(d.len() <= bound);
        lemma_no_orphan_all_used(tags, pairs, d, bound);
        let m = choose|m: int| 0 <= m < pairs.len() && is_ancestor_or_self(d, #[trigger] pairs[m].1);
        lemma_ancestor_transitive(t, d, pairs[m].1);
        assert(tag_used(pairs, t));
    }
}

/// The largest length among `tags`.
pub open spec fn max_len(tags: Seq<Seq<char>>) -> nat
    decreases tags.len(),
{
    if tags.len() == 0 {
        0
    } else {
        let r = max_len(tags.drop_last());
        if tags.last().len() > r {
            tags.last().len()
        } else {
            r
        }
    }
}

proof fn lemma_max_len(tags: Seq<Seq<char>>)
    ensures
        forall|i: int| 0 <= i < tags.len() ==> (#[trigger] tags[i]).len() <= max_len(tags),
    decreases tags.len(),
{
    if tags.len() > 0 {
        lemma_max_len(tags.drop_last());
        assert forall|i: int| 0 <= i < tags.len() implies (#[trigger] tags[i]).len() <= max_len(
            tags,
        ) by {
            if i < tags.len() - 1 {
                assert(tags[i] == tags.drop_last()[i]);
            }
        }
    }
}

/// Remove every tag that has neither notes referencing it (directly or via
/// any descendant) nor descendants. Returns the paths that were removed.
///
/// Loops until a pass removes nothing, so orphan-cascading (a leaf goes,
/// then its parent has no descendants, then its parent's parent...)
/// converges in one call.
pub fn purge_orphan_tags(index: &mut Index) -> (r: Result<Vec<String>, TagError>)
    requires
        old(index).wf(),
    ensures
        final(index).wf(),
        forall|x: Seq<char>|
            #[trigger] final(index).tag_paths().contains(x) <==> old(index).tag_paths().contains(x)
                && tag_used(old(index).note_tag_pairs(), x),
        r matches Ok(removed) && strs_view(removed@).no_duplicates() && (forall|x: Seq<char>|
            #[trigger] strs_view(removed@).contains(x) <==> old(index).tag_paths().contains(x)
                && !tag_used(old(index).note_tag_pairs(), x)),
        final(index).note_tags@ == old(index).note_tags@,
        final(index).notes@ == old(index).notes@,
        final(index).files@ == old(index).files@,
        final(index).links@ == old(index).links@,
        final(index).meta@ == old(index).meta@,
        final(index).reminders@ == old(index).reminders@,
{
    let ghost orig = index.tag_paths();
    let ghost pairs = index.note_tag_pairs();
    let mut all_removed: Vec<String> = Vec::new();
    loop
        invariant
            index.wf(),
            index.note_tag_pairs() == pairs,
            index.note_tags@ == old(index).note_tags@,
            index.notes@ == old(index).notes@,
            index.files@ == old(index).files@,
            index.links@ == old(index).links@,
            index.meta@ == old(index).meta@,
            index.reminders@ == old(index).reminders@,
            orig == old(index).tag_paths(),
            pairs == old(index).note_tag_pairs(),
            forall|x: Seq<char>| #[trigger] index.tag_paths().contains(x) ==> orig.contains(x),
            forall|x: Seq<char>| orig.contains(x) && tag_used(pairs, x) ==> #[trigger] index.tag_paths().contains(x),
            strs_view(all_removed@).no_duplicates(),
            forall|x: Seq<char>|
                #[trigger] strs_view(all_removed@).contains(x) <==> orig.contains(x)
                    && !index.tag_paths().contains(x),
        ensures
            index.wf(),
            index.note_tag_pairs() == pairs,
            index.note_tags@ == old(index).note_tags@,
            index.notes@ == old(index).notes@,
            index.files@ == old(index).files@,
            index.links@ == old(index).links@,
            index.meta@ == old(index).meta@,
            index.reminders@ == old(index).reminders@,
            forall|x: Seq<char>| #[trigger] index.tag_paths().contains(x) ==> orig.contains(x),
            forall|x: Seq<char>| orig.contains(x) && tag_used(pairs, x) ==> #[trigger] index.tag_paths().contains(x),
            strs_view(all_removed@).no_duplicates(),
            forall|x: Seq<char>|
                #[trigger] strs_view(all_removed@).contains(x) <==> orig.contains(x)
                    && !index.tag_paths().contains(x),
            forall|i: int| 0 <= i < index.tag_paths().len() ==> !is_orphan(index.tag_paths(), pairs, #[trigger] index.tag_paths()[i]),
        decreases index.tags.len(),
    {
        let ghost cur = index.tag_paths();
        // One pass: keep the non-orphans, collect the orphans.
        let mut kept: Vec<String> = Vec::new();
        let mut gone: Vec<String> = Vec::new();
        let mut k: usize = 0;
        while k < index.tags.len()
            invariant
                k <= index.tags.len(),
                cur == index.tag_paths(),
                index.note_tag_pairs() == pairs,
                cur.no_duplicates(),
                strs_view(kept@) + strs_view(gone@) =~~= strs_view(kept@) + strs_view(gone@),
                strs_view(kept@).len() + strs_view(gone@).len() == k,
                forall|x: Seq<char>| #[trigger] strs_view(kept@).contains(x) <==> cur.take(k as int).contains(x) && !is_orphan(cur, pairs, x),
                forall|x: Seq<char>| #[trigger] strs_view(gone@).contains(x) <==> cur.take(k as int).contains(x) && is_orphan(cur, pairs, x),
                strs_view(kept@).no_duplicates(),
                strs_view(gone@).no_duplicates(),
                strs_view(kept@).subrange(0, strs_view(kept@).len() as int) == strs_view(kept@),
            decreases index.tags.len() - k,
        {
            let t = chars_of(index.tags[k].as_str());
            let ghost tv = cur[k as int];
            assert(tv == t@);
            let orphan = !used_exec(&index.note_tags, &t) && !strict_descendant_exec(&index.tags, &t);
            assert(orphan == is_orphan(cur, pairs, tv));
            assert(cur.take(k + 1) =~= cur.take(k as int).push(tv));
            assert(!cur.take(k as int).contains(tv)) by {
                if cur.take(k as int).contains(tv) {
                    let pre = cur.take(k as int);
                    let j = choose|j: int| 0 <= j < k && pre[j] == tv;
                    assert(cur[j] == cur[k as int]);
                }
            }
            let c = index.tags[k].clone();
            if orphan {
                let ghost g = strs_view(gone@);
                gone.push(c);
                proof {
                    assert(strs_view(gone@) =~= g.push(tv));
                    assert forall|x: Seq<char>| #[trigger] strs_view(gone@).contains(x) <==> cur.take(k + 1).contains(x) && is_orphan(cur, pairs, x) by {
                        lemma_strs_push_contains(g, tv, x);
                        lemma_seq_push_contains(cur.take(k as int), tv, x);
                    }
                    assert forall|x: Seq<char>| #[trigger] strs_view(kept@).contains(x) <==> cur.take(k + 1).contains(x) && !is_orphan(cur, pairs, x) by {
                        lemma_seq_push_contains(cur.take(k as int), tv, x);
                    }
                    assert forall|i: int, j: int| 0 <= i < j < strs_view(gone@).len() implies strs_view(gone@)[i] != strs_view(gone@)[j] by {
                        if j == g.len() {
                            assert(g.contains(g[i]));
                        }
                    }
                }
            } else {
                let ghost g = strs_view(kept@);
                kept.push(c);
                proof {
                    assert(strs_view(kept@) =~= g.push(tv));
                    assert forall|x: Seq<char>| #[trigger] strs_view(kept@).contains(x) <==> cur.take(k + 1).contains(x) && !is_orphan(cur, pairs, x) by {
                        lemma_strs_push_contains(g, tv, x);
                        lemma_seq_push_contains(cur.take(k as int), tv, x);
                    }
                    assert forall|x: Seq<char>| #[trigger] strs_view(gone@).contains(x) <==> cur.take(k + 1).contains(x) && is_orphan(cur, pairs, x) by {
                        lemma_seq_push_contains(cur.take(k as int), tv, x);
                    }
                    assert forall|i: int, j: int| 0 <= i < j < strs_view(kept@).len() implies strs_view(kept@)[i] != strs_view(kept@)[j] by {
                        if j == g.len() {
                            assert(g.contains(g[i]));
                        }
                    }
                }
            }
            k += 1;
        }
        assert(cur.take(cur.len() as int) =~= cur);
        if gone.len() == 0 {
            assert forall|i: int| 0 <= i < cur.len() implies !is_orphan(cur, pairs, #[trigger] cur[i]) by {
                if is_orphan(cur, pairs, cur[i]) {
                    assert(cur.contains(cur[i]));
                    assert(strs_view(gone@).contains(cur[i]));
                }
            }
            break;
        }
        // Apply the pass.
        let ghost before = *index;
        let ghost removed_before = strs_view(all_removed@);
        index.tags = kept;
        proof {
            let now = index.tag_paths();
            assert(now == strs_view(kept@));
            lemma_purge_pass_wf(&before, index, pairs);
        }
        let mut m: usize = 0;
        let ghost gv = strs_view(gone@);
        while m < gone.len()
            invariant
                m <= gone.len(),
                gv == strs_view(gone@),
                gv.no_duplicates(),
                strs_view(all_removed@).no_duplicates(),
                forall|x: Seq<char>| #[trigger] strs_view(all_removed@).contains(x) <==> removed_before.contains(x) || gv.take(m as int).contains(x),
                forall|x: Seq<char>| gv.contains(x) ==> !#[trigger] removed_before.contains(x),
            decreases gone.len() - m,
        {
            let ghost rv = strs_view(all_removed@);
            let ghost x0 = gv[m as int];
            all_removed.push(gone[m].clone());
            proof {
                assert(strs_view(all_removed@) =~= rv.push(x0));
                assert(gv.take(m + 1) =~= gv.take(m as int).push(x0));
                assert(!gv.take(m as int).contains(x0)) by {
                    if gv.take(m as int).contains(x0) {
                        let pre = gv.take(m as int);
                        let j = choose|j: int| 0 <= j < m && pre[j] == x0;
                        assert(gv[j] == gv[m as int]);
                    }
                }
                assert(gv.contains(x0));
                assert forall|x: Seq<char>| #[trigger] strs_view(all_removed@).contains(x) <==> removed_before.contains(x) || gv.take(m + 1).contains(x) by {
                    lemma_strs_push_contains(rv, x0, x);
                    lemma_seq_push_contains(gv.take(m as int), x0, x);
                }
                assert forall|i: int, j: int| 0 <= i < j < strs_view(all_removed@).len() implies strs_view(all_removed@)[i] != strs_view(all_removed@)[j] by {
                    if j == rv.len() {
                        assert(rv.contains(rv[i]));
                        if rv[i] == x0 {
                            assert(!removed_before.contains(x0));
                            assert(gv.take(m as int).contains(x0));
                        }
                    }
                }
            }
            m += 1;
        }
        assert(gv.take(gv.len() as int) =~= gv);
        proof {
            assert forall|x: Seq<char>| #[trigger] index.tag_paths().contains(x) implies orig.contains(x) by {
                if index.tag_paths().contains(x) {
                    assert(strs_view(kept@).contains(x));
                    assert(cur.contains(x));
                }
            }
            assert forall|x: Seq<char>| orig.contains(x) && tag_used(pairs, x) implies #[trigger] index.tag_paths().contains(x) by {
                assert(cur.contains(x));
                assert(!is_orphan(cur, pairs, x));
                assert(strs_view(kept@).contains(x));
            }
            assert forall|x: Seq<char>| #[trigger] strs_view(all_removed@).contains(x) <==> orig.contains(x) && !index.tag_paths().contains(x) by {
                if gv.contains(x) {
                    assert(cur.contains(x));
                    assert(is_orphan(cur, pairs, x));
                    assert(!strs_view(kept@).contains(x));
                }
                if orig.contains(x) && !index.tag_paths().contains(x) && !removed_before.contains(x) {
                    assert(cur.contains(x));
                    assert(!strs_view(kept@).contains(x));
                    assert(is_orphan(cur, pairs, x));
                    assert(gv.contains(x));
                }
            }
        }
    }
    proof {
        let fin = index.tag_paths();
        lemma_max_len(fin);
        assert forall|x: Seq<char>| #[trigger] index.tag_paths().contains(x) <==> orig.contains(x) && tag_used(pairs, x) by {
            if fin.contains(x) {
                lemma_no_orphan_all_used(fin, pairs, x, max_len(fin));
            }
        }
    }
    Ok(all_removed)
}

proof fn lemma_seq_push_contains<A>(v: Seq<A>, a: A, x: A)
    ensures
        v.push(a).contains(x) <==> v.contains(x) || x == a,
{
    if v.contains(x) {
        let i = choose|i: int| 0 <= i < v.len() && v[i] == x;
        assert(v.push(a)[i] == x);
    }
    if x == a {
        assert(v.push(a)[v.len() as int] == a);
    }
    if v.push(a).contains(x) {
        let i = choose|i: int| 0 <= i < v.push(a).len() && v.push(a)[i] == x;
        if i < v.len() {
            assert(v[i] == x);
        }
    }
}

/// Removing the orphans of one pass keeps the tag tables well-formed.
proof fn lemma_purge_pass_wf(before: &Index, after: &Index, pairs: Seq<(u128, Seq<char>)>)
    requires
        before.wf(),
        before.note_tag_pairs() == pairs,
        after.note_tags@ == before.note_tags@,
        after.notes@ == before.notes@,
        after.files@ == before.files@,
        after.links@ == before.links@,
        after.meta@ == before.meta@,
        after.tag_paths().no_duplicates(),
        forall|x: Seq<char>| #[trigger] after.tag_paths().contains(x) <==> before.tag_paths().contains(x) && !is_orphan(before.tag_paths(), pairs, x),
    ensures
        after.wf(),
{
    let cur = before.tag_paths();
    assert(after.note_tag_pairs() == before.note_tag_pairs());
    assert forall|i: int| 0 <= i < after.tag_paths().len() implies valid_tag_path(#[trigger] after.tag_paths()[i]) by {
        let t = after.tag_paths()[i];
        assert(after.tag_paths().contains(t));
        let j = choose|j: int| 0 <= j < cur.len() && cur[j] == t;
        assert(valid_tag_path(cur[j]));
    }
    assert forall|d: Seq<char>, a: Seq<char>|
        #![trigger after.tag_paths().contains(d), is_ancestor_or_self(a, d)]
        after.tag_paths().contains(d) && is_ancestor_or_self(a, d) implies after.tag_paths().contains(a) by {
        assert(cur.contains(d));
        assert(cur.contains(a));
        if a != d {
            let j = choose|j: int| 0 <= j < cur.len() && cur[j] == d;
            assert(cur[j] != a && is_ancestor_or_self(a, cur[j]));
            assert(has_strict_descendant(cur, a));
        } else {
        }
    }
    assert forall|i: int| 0 <= i < after.note_tag_pairs().len() implies after.tag_paths().contains((#[trigger] after.note_tag_pairs()[i]).1) by {
        let p = pairs[i].1;
        assert(cur.contains(p));
        assert(is_ancestor_or_self(p, pairs[i].1));
        assert(tag_used(pairs, p));
    }
}

// ───────────────────────── closure ─────────────────────────────────────

/// The number of `/` in `p`.
pub open spec fn slash_count(p: Seq<char>) -> nat
    decreases p.len(),
{
    if p.len() == 0 {
        0
    } else {
        slash_count(p.drop_last()) + if p.last() == '/' { 1nat } else { 0nat }
    }
}

/// The closure rows (`a`, `d`, depth) for ancestor `a` and each tag of `ds`
/// it is an ancestor-or-self of, in `ds` order; depth counts the levels
/// between them.
pub open spec fn closure_under(a: Seq<char>, ds: Seq<Seq<char>>) -> Seq<(Seq<char>, Seq<char>, int)>
    decreases ds.len(),
{
    if ds.len() == 0 {
        Seq::empty()
    } else {
        let rest = closure_under(a, ds.drop_last());
        let d = ds.last();
        if is_ancestor_or_self(a, d) {
            rest.push((a, d, slash_count(d) - slash_count(a)))
        } else {
            rest
        }
    }
}

/// The closure table of a tag table: for each tag in table order, its rows
/// from [`closure_under`].
pub open spec fn closure_table(as_: Seq<Seq<char>>, ds: Seq<Seq<char>>) -> Seq<(Seq<char>, Seq<char>, int)>
    decreases as_.len(),
{
    if as_.len() == 0 {
        Seq::empty()
    } else {
        closure_table(as_.drop_last(), ds) + closure_under(as_.last(), ds)
    }
}

fn slashes(v: &Vec<char>) -> (r: usize)
    ensures
        r == slash_count(v@),
        r <= v.len(),
{
    let mut n: usize = 0;
    let mut k: usize = 0;
    while k < v.len()
        invariant
            k <= v.len(),
            n == slash_count(v@.take(k as int)),
            n <= k,
        decreases v.len() - k,
    {
        assert(v@.take(k + 1).drop_last() =~= v@.take(k as int));
        if v[k] == '/' {
            n += 1;
        }
        k += 1;
    }
    assert(v@.take(v.len() as int) =~= v@);
    n
}

/// The rows of the tag hierarchy's closure: every (ancestor, descendant,
/// depth) with both in the tag table, self rows (depth 0) included.
pub fn tag_closure(index: &Index) -> (r: Vec<(String, String, usize)>)
    ensures
        r@.map_values(|t: (String, String, usize)| (t.0@, t.1@, t.2 as int)) == closure_table(
            index.tag_paths(),
            index.tag_paths(),
        ),
{
    let ghost ps = index.tag_paths();
    let mut out: Vec<(String, String, usize)> = Vec::new();
    let mut i: usize = 0;
    while i < index.tags.len()
        invariant
            i <= index.tags.len(),
            ps == index.tag_paths(),
            ps == strs_view(index.tags@),
            out@.map_values(|t: (String, String, usize)| (t.0@, t.1@, t.2 as int)) == closure_table(
                ps.take(i as int),
                ps,
            ),
        decreases index.tags.len() - i,
    {
        let a = chars_of(index.tags[i].as_str());
        let sa = slashes(&a);
        let ghost head = out@.map_values(|t: (String, String, usize)| (t.0@, t.1@, t.2 as int));
        assert(ps[i as int] == a@);
        let mut j: usize = 0;
        while j < index.tags.len()
            invariant
                j <= index.tags.len(),
                i < index.tags.len(),
                ps == strs_view(index.tags@),
                a@ == ps[i as int],
                sa == slash_count(a@),
                out@.map_values(|t: (String, String, usize)| (t.0@, t.1@, t.2 as int)) == head + closure_under(
                    a@,
                    ps.take(j as int),
                ),
            decreases index.tags.len() - j,
        {
            let d = chars_of(index.tags[j].as_str());
            assert(ps[j as int] == d@);
            assert(ps.take(j + 1).drop_last() =~= ps.take(j as int));
            assert(ps.take(j + 1).last() == d@);
            if ancestor_or_self(&a, &d) {
                let sd = slashes(&d);
                proof {
                    if a@ != d@ {
                        assert(d@.take(a@.len() as int) == a@);
                        lemma_slash_count_prefix(d@, a@.len() as int);
                    }
                }
                let ghost before = out@;
                out.push((index.tags[i].clone(), index.tags[j].clone(), sd - sa));
                assert(out@.map_values(|t: (String, String, usize)| (t.0@, t.1@, t.2 as int)) =~= before.map_values(|t: (String, String, usize)| (t.0@, t.1@, t.2 as int)).push((a@, d@, (sd - sa) as int)));
            }
            j += 1;
        }
        assert(ps.take(ps.len() as int) =~= ps);
        assert(ps.take(i + 1).drop_last() =~= ps.take(i as int));
        assert(ps.take(i + 1).last() == ps[i as int]);
        i += 1;
    }
    assert(ps.take(ps.len() as int) =~= ps);
    out
}

proof fn lemma_slash_count_prefix(d: Seq<char>, k: int)
    requires
        0 <= k <= d.len(),
    ensures
        slash_count(d.take(k)) <= slash_count(d),
    decreases d.len(),
{
    if k < d.len() {
        lemma_slash_count_prefix(d.drop_last(), k);
        assert(d.drop_last().take(k) =~= d.take(k));
    } else {
        assert(d.take(k) =~= d);
    }
}

// ───────────────────────── idempotence ─────────────────────────────────

proof fn lemma_grown_without_new<A>(a: Seq<A>, b: Seq<A>)
    requires
        b.no_duplicates(),
        b.len() >= a.len(),
        b.take(a.len() as int) == a,
        forall|x: A| b.contains(x) ==> a.contains(x),
    ensures
        b == a,
{
    if b.len() > a.len() {
        let x = b[a.len() as int];
        assert(b.contains(x));
        let j = choose|j: int| 0 <= j < a.len() && a[j] == x;
        assert(b.take(a.len() as int)[j] == b[j]);
    }
    assert(b =~= a);
}

/// Ensuring a tag that is already there adds nothing: calling
/// [`ensure_tag`] twice with one path leaves the tag table as the first
/// call left it.
pub proof fn law_ensure_tag_idempotent(t0: Seq<Seq<char>>, t1: Seq<Seq<char>>, t2: Seq<Seq<char>>, p: Seq<char>)
    requires
        t2.no_duplicates(),
        forall|x: Seq<char>| #[trigger] t1.contains(x) <==> t0.contains(x) || is_ancestor_or_self(x, p),
        forall|x: Seq<char>| #[trigger] t2.contains(x) <==> t1.contains(x) || is_ancestor_or_self(x, p),
        t2.len() >= t1.len(),
        t2.take(t1.len() as int) == t1,
    ensures
        t2 == t1,
{
    assert forall|x: Seq<char>| t2.contains(x) implies t1.contains(x) by {
        if is_ancestor_or_self(x, p) {
            assert(t1.contains(x));
        }
    }
    lemma_grown_without_new(t1, t2);
}

/// Tagging a note twice with one tag is the same as once: the second
/// [`add_tag_to_note`] leaves the note/tag table as the first left it.
pub proof fn law_add_tag_idempotent(
    p0: Seq<(u128, Seq<char>)>,
    p1: Seq<(u128, Seq<char>)>,
    p2: Seq<(u128, Seq<char>)>,
    pair: (u128, Seq<char>),
)
    requires
        p2.no_duplicates(),
        forall|x: (u128, Seq<char>)| #[trigger] p1.contains(x) <==> p0.contains(x) || x == pair,
        forall|x: (u128, Seq<char>)| #[trigger] p2.contains(x) <==> p1.contains(x) || x == pair,
        p2.len() >= p1.len(),
        p2.take(p1.len() as int) == p1,
    ensures
        p2 == p1,
{
    assert forall|x: (u128, Seq<char>)| p2.contains(x) implies p1.contains(x) by {
        if x == pair {
            assert(p1.contains(x));
        }
    }
    lemma_grown_without_new(p1, p2);
}

} // verus!
