//! Keeping the index in step with the vault.
//!
//! The vault directory is authoritative. A reconcile pass takes what a walk
//! of `notes/` saw, diffs it against `file_state`, and applies inserts,
//! updates and deletes to the note rows; it then brings each note's tag
//! associations and wikilink rows in line with its file and drops tags
//! nothing uses any more.
use vstd::prelude::*;

use crate::ids::NoteId;
use crate::ids::{ulid_text_valid, ulid_text_value};
use crate::frontmatter::{
    frontmatter_view, opt_text, Frontmatter,
    frontmatter_of, has_anchor_marks, has_explicit_tag, split_parts, yaml_document, FrontmatterView,
};
use crate::index::{
    file_paths, link_keys, manifest_readable, note_ids, pairs_of, stored_manifest, strs_view, FileStateRow, Index,
    LinkRow, NoteRow, NoteTagRow, ReconcileSummary,
};
use crate::links::{opt_view, wikilinks, Wikilink, WikilinkView};
use crate::tags::{
    tag_used,
    add_tag_to_note, is_ancestor_or_self, list_tags_for_note, paths_of_note, remove_tag_from_note,
    valid_tag_path,
};
use crate::text::{chars_of, compare_str, seq_lt, str_eq, string_from_chars, string_from_range, Lex};
use vstd::string::StringSliceAdditionalSpecFns;
use vstd::utf8::encode_utf8;
use vstd::utf8::{decode_utf8, valid_utf8};

verus! {

/// A note's tags in the table, as plain pairs, contain `(id, t)` exactly
/// when `t` is among the note's tags.
proof fn lemma_paths_of_note(pairs: Seq<(u128, Seq<char>)>, id: u128, t: Seq<char>)
    ensures
        paths_of_note(pairs, id).contains(t) <==> pairs.contains((id, t)),
    decreases pairs.len(),
{
    if pairs.len() > 0 {
        let front = pairs.drop_last();
        lemma_paths_of_note(front, id, t);
        let rest = paths_of_note(front, id);
        if pairs.last().0 == id {
            crate::query::lemma_push_contains(rest, pairs.last().1, t);
        }
        assert(pairs =~= front.push(pairs.last()));
        crate::query::lemma_push_contains(front, pairs.last(), (id, t));
    }
}

fn contains_str(v: &Vec<String>, s: &str) -> (r: bool)
    ensures
        r == strs_view(v@).contains(s@),
{
    match crate::index::find_str(v, s) {
        Some(i) => {
            assert(strs_view(v@)[i as int] == s@);
            true
        },
        None => false,
    }
}

impl Index {
    /// Bring a note's tag associations in line with `desired`: tags not yet
    /// associated are added (with their ancestors), associations no longer
    /// wanted are removed. A malformed tag is skipped rather than failing
    /// the whole pass.
    pub fn sync_note_tags(&mut self, id: &NoteId, desired: &Vec<String>)
        requires
            old(self).wf(),
        ensures
            final(self).wf(),
            forall|x: (u128, Seq<char>)|
                #[trigger] final(self).note_tag_pairs().contains(x) <==> (x.0 != id.value
                    && old(self).note_tag_pairs().contains(x)) || (x.0 == id.value && strs_view(
                    desired@,
                ).contains(x.1) && valid_tag_path(x.1)),
            forall|x: Seq<char>|
                #[trigger] final(self).tag_paths().contains(x) <==> old(self).tag_paths().contains(x)
                    || exists|t: Seq<char>|
                    strs_view(desired@).contains(t) && valid_tag_path(t) && is_ancestor_or_self(
                        x,
                        t,
                    ),
            final(self).notes@ == old(self).notes@,
            final(self).files@ == old(self).files@,
            final(self).links@ == old(self).links@,
            final(self).meta@ == old(self).meta@,
            final(self).reminders@ == old(self).reminders@,
    {
        let ghost before = *self;
        let ghost want = strs_view(desired@);
        let current = match list_tags_for_note(self, id) {
            Ok(v) => v,
            Err(_) => Vec::new(),
        };
        let ghost cur = strs_view(current@);
        assert forall|t: Seq<char>| cur.contains(t) <==> before.note_tag_pairs().contains((id.value, t)) by {
            lemma_paths_of_note(before.note_tag_pairs(), id.value, t);
        }
        let mut k: usize = 0;
        while k < desired.len()
            invariant
                k <= desired.len(),
                want == strs_view(desired@),
                self.wf(),
                cur == strs_view(current@),
                forall|t: Seq<char>| cur.contains(t) <==> before.note_tag_pairs().contains((id.value, t)),
                forall|x: (u128, Seq<char>)|
                    #[trigger] self.note_tag_pairs().contains(x) <==> before.note_tag_pairs().contains(x)
                        || (x.0 == id.value && want.take(k as int).contains(x.1) && valid_tag_path(x.1)),
                forall|x: Seq<char>|
                    #[trigger] self.tag_paths().contains(x) <==> before.tag_paths().contains(x)
                        || exists|t: Seq<char>|
                        want.take(k as int).contains(t) && valid_tag_path(t) && is_ancestor_or_self(x, t),
                self.notes@ == before.notes@,
                self.files@ == before.files@,
                self.links@ == before.links@,
                self.meta@ == before.meta@,
                self.reminders@ == before.reminders@,
                before.wf(),
            decreases desired.len() - k,
        {
            let ghost mid = *self;
            let t = &desired[k];
            let ghost tv = want[k as int];
            assert(tv == t@);
            assert(want.take(k + 1) =~= want.take(k as int).push(tv));
            let called = !contains_str(&current, t.as_str());
            let ok = if called {
                add_tag_to_note(self, id, t.as_str()).is_ok()
            } else {
                false
            };
            proof {
                if called && ok {
                    assert(valid_tag_path(tv));
                } else {
                    assert(self.tag_paths() == mid.tag_paths());
                    assert(called ==> !valid_tag_path(tv));
                    assert(!called ==> cur.contains(tv));
                }
            }
            proof {
                assert forall|x: (u128, Seq<char>)|
                    #[trigger] self.note_tag_pairs().contains(x) <==> before.note_tag_pairs().contains(x)
                        || (x.0 == id.value && want.take(k + 1).contains(x.1) && valid_tag_path(x.1)) by {
                    crate::query::lemma_push_contains(want.take(k as int), tv, x.1);
                    if x == (id.value, tv) && valid_tag_path(tv) && cur.contains(tv) {
                        assert(before.note_tag_pairs().contains((id.value, tv)));
                    }
                    if x.0 == id.value && before.note_tag_pairs().contains(x) {
                        let i = choose|i: int| 0 <= i < before.note_tag_pairs().len() && before.note_tag_pairs()[i] == x;
                        assert(before.tag_paths().contains(x.1));
                        let j = choose|j: int| 0 <= j < before.tag_paths().len() && before.tag_paths()[j] == x.1;
                        assert(valid_tag_path(before.tag_paths()[j]));
                    }
                }
                assert forall|x: Seq<char>|
                    #[trigger] self.tag_paths().contains(x) <==> before.tag_paths().contains(x)
                        || exists|u: Seq<char>|
                        want.take(k + 1).contains(u) && valid_tag_path(u) && is_ancestor_or_self(x, u) by {
                    assert(mid.tag_paths().contains(x) <==> before.tag_paths().contains(x)
                        || exists|t: Seq<char>|
                        want.take(k as int).contains(t) && valid_tag_path(t) && is_ancestor_or_self(x, t));
                    if exists|u: Seq<char>|
                        want.take(k as int).contains(u) && valid_tag_path(u) && is_ancestor_or_self(x, u) {
                        let u = choose|u: Seq<char>|
                            want.take(k as int).contains(u) && valid_tag_path(u) && is_ancestor_or_self(x, u);
                        crate::query::lemma_push_contains(want.take(k as int), tv, u);
                        assert(want.take(k + 1).contains(u));
                    }
                    if exists|u: Seq<char>|
                        want.take(k + 1).contains(u) && valid_tag_path(u) && is_ancestor_or_self(x, u) {
                        let u = choose|u: Seq<char>|
                            want.take(k + 1).contains(u) && valid_tag_path(u) && is_ancestor_or_self(x, u);
                        crate::query::lemma_push_contains(want.take(k as int), tv, u);
                    }
                    crate::query::lemma_push_contains(want.take(k as int), tv, tv);
                    assert(want.take(k + 1).contains(tv));
                    if valid_tag_path(tv) && is_ancestor_or_self(x, tv) && cur.contains(tv) {
                        assert(before.note_tag_pairs().contains((id.value, tv)));
                        let i = choose|i: int|
                            0 <= i < before.note_tag_pairs().len() && before.note_tag_pairs()[i] == (id.value, tv);
                        assert(before.tag_paths().contains(before.note_tag_pairs()[i].1));
                        assert(before.tag_paths().contains(tv));
                        assert(before.tag_paths().contains(x));
                    }
                }
            }
            k += 1;
        }
        assert(want.take(desired.len() as int) =~= want);
        let ghost added = *self;
        let mut j: usize = 0;
        while j < current.len()
            invariant
                j <= current.len(),
                want == strs_view(desired@),
                self.wf(),
                cur == strs_view(current@),
                forall|t: Seq<char>| cur.contains(t) <==> before.note_tag_pairs().contains((id.value, t)),
                forall|x: (u128, Seq<char>)|
                    #[trigger] self.note_tag_pairs().contains(x) <==> added.note_tag_pairs().contains(x)
                        && !(x.0 == id.value && cur.take(j as int).contains(x.1) && !want.contains(x.1)),
                self.tag_paths() == added.tag_paths(),
                self.notes@ == before.notes@,
                self.files@ == before.files@,
                self.links@ == before.links@,
                self.meta@ == before.meta@,
                self.reminders@ == before.reminders@,
            decreases current.len() - j,
        {
            let c = &current[j];
            let ghost cv = cur[j as int];
            assert(cv == c@);
            assert(cur.take(j + 1) =~= cur.take(j as int).push(cv));
            if !contains_str(desired, c.as_str()) {
                let _ = remove_tag_from_note(self, id, c.as_str());
            }
            proof {
                assert forall|x: (u128, Seq<char>)|
                    #[trigger] self.note_tag_pairs().contains(x) <==> added.note_tag_pairs().contains(x)
                        && !(x.0 == id.value && cur.take(j + 1).contains(x.1) && !want.contains(x.1)) by {
                    crate::query::lemma_push_contains(cur.take(j as int), cv, x.1);
                }
            }
            j += 1;
        }
        assert(cur.take(current.len() as int) =~= cur);
        proof {
            assert forall|x: (u128, Seq<char>)|
                #[trigger] self.note_tag_pairs().contains(x) <==> (x.0 != id.value
                    && before.note_tag_pairs().contains(x)) || (x.0 == id.value && want.contains(x.1)
                    && valid_tag_path(x.1)) by {
                if x.0 == id.value && before.note_tag_pairs().contains(x) {
                    assert(cur.contains(x.1));
                    let i = choose|i: int| 0 <= i < before.note_tag_pairs().len() && before.note_tag_pairs()[i] == x;
                    assert(before.tag_paths().contains(x.1));
                    let q = choose|q: int| 0 <= q < before.tag_paths().len() && before.tag_paths()[q] == x.1;
                    assert(valid_tag_path(before.tag_paths()[q]));
                }
            }
        }
    }
}

// ───────────────────────── wikilink rows ───────────────────────────────

/// `r` carries the title `text`.
pub open spec fn titled(r: NoteRow, text: Seq<char>) -> bool {
    match r.title {
        Some(t) => t@ == text,
        None => false,
    }
}

/// The id of the first note (in table order) titled `text`.
pub open spec fn first_titled(notes: Seq<NoteRow>, text: Seq<char>) -> Option<u128>
    decreases notes.len(),
{
    if notes.len() == 0 {
        None
    } else if titled(notes[0], text) {
        Some(notes[0].id.value)
    } else {
        first_titled(notes.drop_first(), text)
    }
}

/// Where a link's target text points: the note whose ULID it is, if that
/// note is indexed; else the first note with exactly that title; else
/// nowhere (a dangling link).
pub open spec fn resolve_target(notes: Seq<NoteRow>, text: Seq<char>) -> Option<u128> {
    if ulid_text_valid(text) && note_ids(notes).contains(ulid_text_value(text, 26) as u128) {
        Some(ulid_text_value(text, 26) as u128)
    } else {
        first_titled(notes, text)
    }
}

proof fn lemma_first_titled(notes: Seq<NoteRow>, text: Seq<char>)
    ensures
        first_titled(notes, text) matches Some(x) ==> exists|i: int|
            0 <= i < notes.len() && #[trigger] titled(notes[i], text) && notes[i].id.value == x,
        (forall|i: int| 0 <= i < notes.len() ==> !#[trigger] titled(notes[i], text)) ==> first_titled(notes, text) is None,
    decreases notes.len(),
{
    if notes.len() > 0 {
        let rest = notes.drop_first();
        lemma_first_titled(rest, text);
        if first_titled(notes, text) is Some && !titled(notes[0], text) {
            let i = choose|i: int| 0 <= i < rest.len() && #[trigger] titled(rest[i], text) && rest[i].id.value == first_titled(rest, text)->0;
            assert(notes[i + 1] == rest[i]);
        }
        if forall|i: int| 0 <= i < notes.len() ==> !#[trigger] titled(notes[i], text) {
            assert forall|i: int| 0 <= i < rest.len() implies !#[trigger] titled(rest[i], text) by {
                assert(notes[i + 1] == rest[i]);
            }
        }
    }
}

/// Link targets follow the notes they are resolved against: a link that
/// names an indexed note's id points at that note whatever its title; a
/// link whose text is no indexed id and no note's title dangles; and a
/// resolved link always points at an indexed note.
pub proof fn law_link_targets_follow_notes(notes: Seq<NoteRow>, text: Seq<char>)
    ensures
        ulid_text_valid(text) && note_ids(notes).contains(ulid_text_value(text, 26) as u128) ==> resolve_target(
            notes,
            text,
        ) == Some(ulid_text_value(text, 26) as u128),
        !(ulid_text_valid(text) && note_ids(notes).contains(ulid_text_value(text, 26) as u128)) && (forall|i: int|
            0 <= i < notes.len() ==> !#[trigger] titled(notes[i], text)) ==> resolve_target(notes, text) is None,
        resolve_target(notes, text) matches Some(x) ==> note_ids(notes).contains(x),
{
    lemma_first_titled(notes, text);
    if !(ulid_text_valid(text) && note_ids(notes).contains(ulid_text_value(text, 26) as u128)) {
        if first_titled(notes, text) is Some {
            let i = choose|i: int| 0 <= i < notes.len() && #[trigger] titled(notes[i], text) && notes[i].id.value
                == first_titled(notes, text)->0;
            assert(note_ids(notes)[i] == notes[i].id.value);
        }
    }
}

/// A `note_link` row as plain values: source, raw span, target text,
/// alias, resolved target.
pub open spec fn link_view(r: LinkRow) -> (u128, Seq<char>, Seq<char>, Option<Seq<char>>, Option<u128>) {
    (r.source.value, r.raw@, r.target_text@, opt_view(r.alias), match r.target_id {
        Some(n) => Some(n.value),
        None => None,
    })
}

/// The `note_link` table as plain values.
pub open spec fn link_views(rows: Seq<LinkRow>) -> Seq<(u128, Seq<char>, Seq<char>, Option<Seq<char>>, Option<u128>)> {
    rows.map_values(|r: LinkRow| link_view(r))
}

/// The last wikilink of `ws` with raw span `raw`.
pub open spec fn last_with_raw(ws: Seq<WikilinkView>, raw: Seq<char>) -> Option<WikilinkView>
    decreases ws.len(),
{
    if ws.len() == 0 {
        None
    } else if ws.last().raw == raw {
        Some(ws.last())
    } else {
        last_with_raw(ws.drop_last(), raw)
    }
}

/// The row note `id` keeps for the links `ws` under raw span `x.1`: the
/// last link with that span, resolved against `notes`.
pub open spec fn own_link_row(
    notes: Seq<NoteRow>,
    id: u128,
    ws: Seq<WikilinkView>,
    x: (u128, Seq<char>, Seq<char>, Option<Seq<char>>, Option<u128>),
) -> bool {
    &&& x.0 == id
    &&& match last_with_raw(ws, x.1) {
        Some(w) => x == (id, w.raw, w.target_text, w.alias, resolve_target(notes, w.target_text)),
        None => false,
    }
}

/// The wikilinks as plain values.
pub open spec fn wikilink_views(ws: Seq<Wikilink>) -> Seq<WikilinkView> {
    ws.map_values(|w: Wikilink| w@)
}

fn clone_opt(o: &Option<String>) -> (r: Option<String>)
    ensures
        opt_view(r) == opt_view(*o),
{
    match o {
        Some(s) => Some(s.clone()),
        None => None,
    }
}

fn first_titled_exec(notes: &Vec<NoteRow>, text: &str) -> (r: Option<NoteId>)
    ensures
        match r {
            Some(n) => first_titled(notes@, text@) == Some(n.value),
            None => first_titled(notes@, text@) is None,
        },
{
    let mut k: usize = 0;
    assert(notes@.skip(0) =~= notes@);
    while k < notes.len()
        invariant
            k <= notes.len(),
            first_titled(notes@, text@) == first_titled(notes@.skip(k as int), text@),
        decreases notes.len() - k,
    {
        let ghost rest = notes@.skip(k as int);
        assert(rest[0] == notes@[k as int]);
        assert(rest.drop_first() =~= notes@.skip(k + 1));
        let hit = match &notes[k].title {
            Some(t) => str_eq(t.as_str(), text),
            None => false,
        };
        if hit {
            return Some(notes[k].id);
        }
        k += 1;
    }
    assert(notes@.skip(k as int).len() == 0);
    None
}

fn has_note(notes: &Vec<NoteRow>, v: u128) -> (r: bool)
    ensures
        r == note_ids(notes@).contains(v),
{
    let mut k: usize = 0;
    while k < notes.len()
        invariant
            k <= notes.len(),
            forall|m: int| 0 <= m < k ==> (#[trigger] notes@[m]).id.value != v,
        decreases notes.len() - k,
    {
        if notes[k].id.value == v {
            assert(note_ids(notes@)[k as int] == v);
            return true;
        }
        k += 1;
    }
    proof {
        if note_ids(notes@).contains(v) {
            let m = choose|m: int| 0 <= m < note_ids(notes@).len() && note_ids(notes@)[m] == v;
            assert(notes@[m].id.value == v);
        }
    }
    false
}

impl Index {
    /// Resolve a link's target text: by ULID first, then by exact title.
    pub fn resolve_link(&self, text: &str) -> (r: Option<NoteId>)
        ensures
            match r {
                Some(n) => resolve_target(self.notes@, text@) == Some(n.value),
                None => resolve_target(self.notes@, text@) is None,
            },
    {
        match NoteId::parse(text) {
            Ok(n) => {
                if has_note(&self.notes, n.value) {
                    return Some(n);
                }
            },
            Err(_) => {},
        }
        first_titled_exec(&self.notes, text)
    }

    /// Bring note `id`'s `note_link` rows in line with the wikilinks of its
    /// body: one row per distinct raw span (the last occurrence wins), each
    /// resolved against the notes now indexed; rows for spans no longer in
    /// the body go. Other notes' rows are untouched.
    pub fn sync_note_links(&mut self, id: &NoteId, wikilinks: &Vec<Wikilink>)
        requires
            old(self).wf(),
        ensures
            final(self).wf(),
            forall|x: (u128, Seq<char>, Seq<char>, Option<Seq<char>>, Option<u128>)|
                #[trigger] link_views(final(self).links@).contains(x) <==> (x.0 != id.value
                    && link_views(old(self).links@).contains(x)) || own_link_row(
                    old(self).notes@,
                    id.value,
                    wikilink_views(wikilinks@),
                    x,
                ),
            final(self).notes@ == old(self).notes@,
            final(self).files@ == old(self).files@,
            final(self).tags@ == old(self).tags@,
            final(self).note_tags@ == old(self).note_tags@,
            final(self).meta@ == old(self).meta@,
            final(self).reminders@ == old(self).reminders@,
    {
        let ghost before = self.links@;
        let ghost bv = link_views(before);
        let ghost ws = wikilink_views(wikilinks@);
        // Keep every other note's rows, in order.
        let mut others: Vec<LinkRow> = Vec::new();
        let mut k: usize = 0;
        while k < self.links.len()
            invariant
                k <= self.links.len(),
                self.links@ == before,
                bv == link_views(before),
                link_keys(before).no_duplicates(),
                forall|x| #[trigger] link_views(others@).contains(x) <==> bv.take(k as int).contains(x) && x.0 != id.value,
                forall|i: int| 0 <= i < others.len() ==> exists|j: int| 0 <= j < k && link_view(#[trigger] others@[i]) == link_view(before[j]),
                link_keys(others@).no_duplicates(),
            decreases self.links.len() - k,
        {
            let r = &self.links[k];
            let ghost xv = bv[k as int];
            assert(xv == link_view(*r));
            assert(bv.take(k + 1) =~= bv.take(k as int).push(xv));
            if r.source.value != id.value {
                let c = LinkRow {
                    source: r.source,
                    raw: r.raw.clone(),
                    target_text: r.target_text.clone(),
                    alias: clone_opt(&r.alias),
                    target_id: r.target_id,
                };
                let ghost prev = others@;
                others.push(c);
                proof {
                    assert(link_views(others@) =~= link_views(prev).push(xv));
                    assert(link_keys(others@) =~= link_keys(prev).push((r.source.value, r.raw@)));
                    assert forall|x| #[trigger] link_views(others@).contains(x) <==> bv.take(k + 1).contains(x) && x.0 != id.value by {
                        crate::query::lemma_push_contains(link_views(prev), xv, x);
                        crate::query::lemma_push_contains(bv.take(k as int), xv, x);
                    }
                    assert forall|i: int| 0 <= i < others.len() implies exists|j: int| 0 <= j < k + 1 && link_view(#[trigger] others@[i]) == link_view(before[j]) by {
                        if i < prev.len() {
                            assert(others@[i] == prev[i]);
                            let j = choose|j: int| 0 <= j < k && link_view(prev[i]) == link_view(before[j]);
                            assert(link_view(others@[i]) == link_view(before[j]));
                        } else {
                            assert(link_view(others@[i]) == link_view(before[k as int]));
                        }
                    }
                    assert forall|a: int, b: int| 0 <= a < b < link_keys(others@).len() implies link_keys(others@)[a] != link_keys(others@)[b] by {
                        if b == prev.len() {
                            let j = choose|j: int| 0 <= j < k && link_view(prev[a]) == link_view(before[j]);
                            assert(link_keys(others@)[a] == link_keys(before)[j]);
                            assert(link_keys(others@)[b] == link_keys(before)[k as int]);
                        }
                    }
                }
            } else {
                proof {
                    assert forall|x| #[trigger] link_views(others@).contains(x) <==> bv.take(k + 1).contains(x) && x.0 != id.value by {
                        crate::query::lemma_push_contains(bv.take(k as int), xv, x);
                    }
                }
            }
            k += 1;
        }
        assert(bv.take(before.len() as int) =~= bv);
        // This note's rows, one per distinct raw span.
        let mut mine: Vec<LinkRow> = Vec::new();
        let mut q: usize = 0;
        while q < wikilinks.len()
            invariant
                q <= wikilinks.len(),
                ws == wikilink_views(wikilinks@),
                self.links@ == before,
                forall|x| #[trigger] link_views(mine@).contains(x) <==> own_link_row(self.notes@, id.value, ws.take(q as int), x),
                forall|i: int| 0 <= i < mine.len() ==> (#[trigger] mine@[i]).source.value == id.value,
                link_keys(mine@).no_duplicates(),
            decreases wikilinks.len() - q,
        {
            let w = &wikilinks[q];
            let ghost wv = ws[q as int];
            assert(wv == w@);
            let row = LinkRow {
                source: *id,
                raw: w.raw.clone(),
                target_text: w.target_text.clone(),
                alias: clone_opt(&w.alias),
                target_id: self.resolve_link(w.target_text.as_str()),
            };
            let ghost rv = link_view(row);
            assert(rv == (id.value, wv.raw, wv.target_text, wv.alias, resolve_target(self.notes@, wv.target_text)));
            let ghost pre = ws.take(q as int);
            let ghost post = ws.take(q + 1);
            assert(post.drop_last() =~= pre);
            assert(post.last() == wv);
            let ghost prev = mine@;
            let at = find_raw(&mine, w.raw.as_str());
            if at.is_some() {
                let p = at.unwrap();
                mine.set(p, row);
                proof {
                    assert(link_keys(mine@) =~= link_keys(prev));
                    assert forall|x| #[trigger] link_views(mine@).contains(x) <==> own_link_row(self.notes@, id.value, post, x) by {
                        if link_views(mine@).contains(x) {
                            let i = choose|i: int| 0 <= i < link_views(mine@).len() && link_views(mine@)[i] == x;
                            if i != p {
                                assert(link_views(prev)[i] == x);
                                assert(link_views(prev).contains(x));
                                assert(x.1 != wv.raw) by {
                                    assert(link_keys(prev)[i] != link_keys(prev)[p as int]);
                                }
                            }
                        }
                        if own_link_row(self.notes@, id.value, post, x) {
                            if x.1 == wv.raw {
                                assert(link_views(mine@)[p as int] == x);
                            } else {
                                assert(own_link_row(self.notes@, id.value, pre, x));
                                assert(link_views(prev).contains(x));
                                let i = choose|i: int| 0 <= i < link_views(prev).len() && link_views(prev)[i] == x;
                                assert(i != p);
                                assert(link_views(mine@)[i] == x);
                            }
                        }
                    }
                }
            } else {
                mine.push(row);
                proof {
                    assert(link_views(mine@) =~= link_views(prev).push(rv));
                    assert(link_keys(mine@) =~= link_keys(prev).push((id.value, wv.raw)));
                    assert forall|a: int, b: int| 0 <= a < b < link_keys(mine@).len() implies link_keys(mine@)[a] != link_keys(mine@)[b] by {
                        if b == prev.len() {
                            assert(prev[a].raw@ != wv.raw);
                        }
                    }
                    assert forall|x| #[trigger] link_views(mine@).contains(x) <==> own_link_row(self.notes@, id.value, post, x) by {
                        crate::query::lemma_push_contains(link_views(prev), rv, x);
                        if link_views(prev).contains(x) {
                            let i = choose|i: int| 0 <= i < link_views(prev).len() && link_views(prev)[i] == x;
                            assert(prev[i].raw@ != wv.raw);
                        }
                        if own_link_row(self.notes@, id.value, post, x) && x.1 != wv.raw {
                            assert(own_link_row(self.notes@, id.value, pre, x));
                        }
                        if own_link_row(self.notes@, id.value, pre, x) {
                            assert(x.1 != wv.raw) by {
                                if x.1 == wv.raw {
                                    assert(link_views(prev).contains(x));
                                    let i = choose|i: int| 0 <= i < link_views(prev).len() && link_views(prev)[i] == x;
                                    assert(prev[i].raw@ == wv.raw);
                                }
                            }
                        }
                    }
                }
            }
            q += 1;
        }
        assert(ws.take(wikilinks.len() as int) =~= ws);
        let ghost ov = others@;
        let ghost mv = mine@;
        let mut all = others;
        let mut m2 = mine;
        all.append(&mut m2);
        self.links = all;
        proof {
            assert(self.links@ =~= ov + mv);
            assert(link_views(self.links@) =~= link_views(ov) + link_views(mv));
            assert(link_keys(self.links@) =~= link_keys(ov) + link_keys(mv));
            assert forall|x| #[trigger] link_views(self.links@).contains(x) <==> (x.0 != id.value && bv.contains(x)) || own_link_row(self.notes@, id.value, ws, x) by {
                lemma_concat_contains(link_views(ov), link_views(mv), x);
            }
            assert forall|a: int, b: int| 0 <= a < b < link_keys(self.links@).len() implies link_keys(self.links@)[a] != link_keys(self.links@)[b] by {
                if a < ov.len() && b >= ov.len() {
                    let x = link_views(ov)[a];
                    assert(link_views(ov).contains(x));
                    assert(mv[b - ov.len()].source.value == id.value);
                }
            }
        }
    }
}

/// Position of the row with raw span `raw`.
fn find_raw(rows: &Vec<LinkRow>, raw: &str) -> (r: Option<usize>)
    ensures
        match r {
            Some(p) => p < rows.len() && rows@[p as int].raw@ == raw@,
            None => forall|i: int| 0 <= i < rows.len() ==> (#[trigger] rows@[i]).raw@ != raw@,
        },
{
    let mut p: usize = 0;
    while p < rows.len()
        invariant
            p <= rows.len(),
            forall|i: int| 0 <= i < p ==> (#[trigger] rows@[i]).raw@ != raw@,
        decreases rows.len() - p,
    {
        if str_eq(rows[p].raw.as_str(), raw) {
            return Some(p);
        }
        p += 1;
    }
    None
}

proof fn lemma_concat_contains<A>(a: Seq<A>, b: Seq<A>, x: A)
    ensures
        (a + b).contains(x) <==> a.contains(x) || b.contains(x),
{
    if a.contains(x) {
        let i = choose|i: int| 0 <= i < a.len() && a[i] == x;
        assert((a + b)[i] == x);
    }
    if b.contains(x) {
        let i = choose|i: int| 0 <= i < b.len() && b[i] == x;
        assert((a + b)[a.len() + i] == x);
    }
    if (a + b).contains(x) {
        let i = choose|i: int| 0 <= i < (a + b).len() && (a + b)[i] == x;
        if i < a.len() {
            assert(a[i] == x);
        } else {
            assert(b[i - a.len()] == x);
        }
    }
}

// ───────────────────────── what the walk saw ───────────────────────────

/// Metadata of a scanned file.
#[derive(Debug, Clone, Copy)]
pub struct FileMeta {
    /// Modification time, seconds since the epoch (0 when unknown).
    pub mtime: i64,
    /// Size in bytes.
    pub size: i64,
}

/// What the vault walk saw of one `.md` file under `notes/`.
#[derive(Debug, Clone)]
pub struct ScannedFile {
    /// Vault-relative path, e.g. `notes/2026/05/04/<id>.md`.
    pub rel: String,
    /// The file's bytes; `None` when it could not be read.
    pub bytes: Option<Vec<u8>>,
    /// The file's metadata; `None` when it could not be read.
    pub meta: Option<FileMeta>,
}

/// The SHA-256 digest of `data`.
pub uninterp spec fn sha256_digest(data: Seq<u8>) -> Seq<u8>;

/// SHA-256 of `data` (`sha2::Sha256::digest`): a 32-byte digest that
/// depends on the data alone.
#[verifier::external_body]
pub(crate) fn sha256(data: &[u8]) -> (r: Vec<u8>)
    ensures
        r@ == sha256_digest(data@),
        r@.len() == 32,
{
    <sha2::Sha256 as sha2::Digest>::digest(data).to_vec()
}

/// The bytes as text, when they are valid UTF-8 (`std::str::from_utf8`);
/// otherwise the decoder's message.
#[verifier::external_body]
pub(crate) fn utf8_text(bytes: &[u8]) -> (r: Result<String, String>)
    ensures
        r is Ok <==> valid_utf8(bytes@),
        r matches Ok(s) ==> s@ == decode_utf8(bytes@),
{
    match std::str::from_utf8(bytes) {
        Ok(s) => Ok(s.to_string()),
        Err(e) => Err(e.to_string()),
    }
}

/// The first line of `s` (what `s.lines().next().unwrap_or("")` gives):
/// the text before the first `\n`, without a `\r` just before it.
pub open spec fn first_line(s: Seq<char>) -> Seq<char> {
    match crate::links::index_of_from(s, '\n', 0) {
        Some(k) => if k > 0 && s[k - 1] == '\r' {
            s.take(k - 1)
        } else {
            s.take(k)
        },
        None => s,
    }
}

/// The first line of a note body, used as its preview.
pub fn first_line_of(s: &str) -> (r: String)
    ensures
        r@ == first_line(s@),
{
    let v = chars_of(s);
    let mut k: usize = 0;
    while k < v.len() && v[k] != '\n'
        invariant
            k <= v.len(),
            v@ == s@,
            crate::links::index_of_from(s@, '\n', 0) == crate::links::index_of_from(s@, '\n', k as int),
        decreases v.len() - k,
    {
        k += 1;
    }
    if k < v.len() {
        if k > 0 && v[k - 1] == '\r' {
            let r = string_from_range(&v, 0, k - 1);
            assert(v@.subrange(0, k - 1) =~= s@.take(k - 1));
            r
        } else {
            let r = string_from_range(&v, 0, k);
            assert(v@.subrange(0, k as int) =~= s@.take(k as int));
            r
        }
    } else {
        string_from_chars(&v)
    }
}

/// The note a scanned file holds, with its body: `None` when the file
/// could not be read, is not UTF-8, does not parse, or has no metadata
/// (the walk skips such files but still counts them as seen).
pub open spec fn scanned_note(f: ScannedFile) -> Option<(FrontmatterView, Seq<char>)> {
    match (f.bytes, f.meta) {
        (Some(b), Some(_)) => if valid_utf8(b@) {
            parsed_source(decode_utf8(b@))
        } else {
            None
        },
        _ => None,
    }
}

/// What [`crate::frontmatter::parse`] makes of a source: its frontmatter
/// and body, or `None` when it fails.
pub open spec fn parsed_source(t: Seq<char>) -> Option<(FrontmatterView, Seq<char>)> {
    match split_parts(t) {
        Some((y, b)) => if has_anchor_marks(y) || has_explicit_tag(y) {
            None
        } else {
            match yaml_document(y) {
                Some(doc) => match frontmatter_of(doc) {
                    Some(v) => Some((v, b)),
                    None => None,
                },
                None => None,
            }
        },
        None => None,
    }
}

/// The stored digest of the `file_state` row for `p`.
pub open spec fn stored_digest(rows: Seq<FileStateRow>, p: Seq<char>) -> Option<Seq<u8>>
    decreases rows.len(),
{
    if rows.len() == 0 {
        None
    } else if rows[0].path@ == p {
        Some(rows[0].sha256@)
    } else {
        stored_digest(rows.drop_first(), p)
    }
}

/// The paths of the scanned files.
pub open spec fn scan_rels(files: Seq<ScannedFile>) -> Seq<Seq<char>> {
    files.map_values(|f: ScannedFile| f.rel@)
}

/// The digest of a scanned file's bytes.
pub open spec fn scanned_digest(f: ScannedFile) -> Seq<u8> {
    match f.bytes {
        Some(b) => sha256_digest(b@),
        None => Seq::empty(),
    }
}

/// How many parsed files are new to `file_state`.
pub open spec fn count_inserted(files: Seq<ScannedFile>, old: Seq<FileStateRow>) -> nat
    decreases files.len(),
{
    if files.len() == 0 {
        0
    } else {
        count_inserted(files.drop_last(), old) + if scanned_note(files.last()) is Some
            && !file_paths(old).contains(files.last().rel@) {
            1nat
        } else {
            0nat
        }
    }
}

/// How many parsed files were known with a different digest.
pub open spec fn count_updated(files: Seq<ScannedFile>, old: Seq<FileStateRow>) -> nat
    decreases files.len(),
{
    if files.len() == 0 {
        0
    } else {
        count_updated(files.drop_last(), old) + if scanned_note(files.last()) is Some
            && file_paths(old).contains(files.last().rel@) && stored_digest(old, files.last().rel@)
            != Some(scanned_digest(files.last())) {
            1nat
        } else {
            0nat
        }
    }
}

/// How many known paths the walk did not see.
pub open spec fn count_deleted(old: Seq<Seq<char>>, rels: Seq<Seq<char>>) -> nat
    decreases old.len(),
{
    if old.len() == 0 {
        0
    } else {
        count_deleted(old.drop_last(), rels) + if rels.contains(old.last()) {
            0nat
        } else {
            1nat
        }
    }
}

/// Some parsed scanned file has path `p`.
pub open spec fn parsed_at(files: Seq<ScannedFile>, p: Seq<char>) -> bool {
    exists|i: int| 0 <= i < files.len() && (#[trigger] files[i]).rel@ == p && scanned_note(files[i]) is Some
}

// ───────────────────────── the manifest ────────────────────────────────

/// One `.md` file as the manifest sees it: path, modification time in
/// nanoseconds, size in bytes.
#[derive(Debug, Clone)]
pub struct ManifestEntry {
    pub rel: String,
    pub mtime_nanos: u128,
    pub size: u64,
}

/// An entry as plain values.
pub open spec fn entry_view(e: ManifestEntry) -> (Seq<char>, u128, u64) {
    (e.rel@, e.mtime_nanos, e.size)
}

/// Tuple order on entries: by path, then time, then size.
pub open spec fn entry_lt(a: (Seq<char>, u128, u64), b: (Seq<char>, u128, u64)) -> bool {
    ||| seq_lt(a.0, b.0)
    ||| (a.0 == b.0 && a.1 < b.1)
    ||| (a.0 == b.0 && a.1 == b.1 && a.2 < b.2)
}

/// The first position from `i` on whose entry sorts after `x`.
pub open spec fn entry_slot(s: Seq<(Seq<char>, u128, u64)>, x: (Seq<char>, u128, u64), i: int) -> int
    decreases s.len() - i,
{
    if i < 0 || i >= s.len() {
        s.len() as int
    } else if entry_lt(x, s[i]) {
        i
    } else {
        entry_slot(s, x, i + 1)
    }
}

/// The entries in tuple order.
pub open spec fn sorted_entries(es: Seq<(Seq<char>, u128, u64)>) -> Seq<(Seq<char>, u128, u64)>
    decreases es.len(),
{
    if es.len() == 0 {
        Seq::empty()
    } else {
        let s = sorted_entries(es.drop_last());
        s.insert(entry_slot(s, es.last(), 0), es.last())
    }
}

/// `n` little-endian bytes of `v`.
pub open spec fn le_bytes(v: nat, n: nat) -> Seq<u8>
    decreases n,
{
    if n == 0 {
        Seq::empty()
    } else {
        seq![(v % 256) as u8] + le_bytes(v / 256, (n - 1) as nat)
    }
}

/// The bytes hashed for the entries, in the order given: each path, a NUL,
/// the time (16 bytes, little-endian), the size (8 bytes, little-endian)
/// and a NUL.
pub open spec fn manifest_message(es: Seq<(Seq<char>, u128, u64)>) -> Seq<u8>
    decreases es.len(),
{
    if es.len() == 0 {
        Seq::empty()
    } else {
        let e = es.last();
        manifest_message(es.drop_last()) + encode_utf8(e.0) + seq![0u8] + le_bytes(e.1 as nat, 16)
            + le_bytes(e.2 as nat, 8) + seq![0u8]
    }
}

/// The manifest hash of a walk.
pub open spec fn manifest_of(entries: Seq<ManifestEntry>) -> Seq<u8> {
    sha256_digest(manifest_message(sorted_entries(entries.map_values(|e: ManifestEntry| entry_view(e)))))
}

fn push_le(out: &mut Vec<u8>, v: u128, n: usize)
    requires
        n <= 16,
    ensures
        final(out)@ == old(out)@ + le_bytes(v as nat, n as nat),
{
    let ghost start = out@;
    let mut x = v;
    let mut k: usize = 0;
    while k < n
        invariant
            k <= n,
            out@ + le_bytes(x as nat, (n - k) as nat) == start + le_bytes(v as nat, n as nat),
        decreases n - k,
    {
        let ghost prev = out@;
        let ghost ox = x;
        proof {
            lemma_le_bytes_split(v as nat, k as nat, x as nat, (n - k) as nat);
        }
        out.push((x % 256) as u8);
        x = x / 256;
        assert(out@ + le_bytes(x as nat, (n - k - 1) as nat) =~= prev + le_bytes(ox as nat, (n - k) as nat));
        k += 1;
    }
    assert(le_bytes(x as nat, 0) =~= Seq::<u8>::empty());
    assert(out@ =~= out@ + le_bytes(x as nat, 0));
}

proof fn lemma_le_bytes_split(v: nat, k: nat, x: nat, m: nat)
    requires
        m > 0,
    ensures
        le_bytes(x, m) == seq![(x % 256) as u8] + le_bytes(x / 256, (m - 1) as nat),
{
}

fn entry_before(a: &ManifestEntry, b: &ManifestEntry) -> (r: bool)
    ensures
        r == entry_lt(entry_view(*a), entry_view(*b)),
{
    match compare_str(a.rel.as_str(), b.rel.as_str()) {
        Lex::Before => true,
        Lex::After => false,
        Lex::Same => a.mtime_nanos < b.mtime_nanos || (a.mtime_nanos == b.mtime_nanos && a.size < b.size),
    }
}

/// Positions of `entries` in tuple order.
fn entry_order(entries: &Vec<ManifestEntry>) -> (order: Vec<usize>)
    ensures
        forall|i: int| 0 <= i < order.len() ==> order@[i] < entries.len(),
        order@.map_values(|i: usize| entry_view(entries@[i as int])) == sorted_entries(
            entries@.map_values(|e: ManifestEntry| entry_view(e)),
        ),
{
    let ghost ev = entries@.map_values(|e: ManifestEntry| entry_view(e));
    let mut order: Vec<usize> = Vec::new();
    let mut k: usize = 0;
    assert(order@.map_values(|i: usize| ev[i as int]) =~= sorted_entries(ev.take(0)));
    while k < entries.len()
        invariant
            k <= entries.len(),
            ev == entries@.map_values(|e: ManifestEntry| entry_view(e)),
            forall|i: int| 0 <= i < order.len() ==> order@[i] < k,
            order@.map_values(|i: usize| ev[i as int]) == sorted_entries(ev.take(k as int)),
        decreases entries.len() - k,
    {
        let ghost before = order@.map_values(|i: usize| ev[i as int]);
        let mut p: usize = 0;
        while p < order.len() && !entry_before(&entries[k], &entries[order[p]])
            invariant
                p <= order.len(),
                k < entries.len(),
                ev == entries@.map_values(|e: ManifestEntry| entry_view(e)),
                forall|i: int| 0 <= i < order.len() ==> order@[i] < k,
                before == order@.map_values(|i: usize| ev[i as int]),
                entry_slot(before, ev[k as int], 0) == entry_slot(before, ev[k as int], p as int),
            decreases order.len() - p,
        {
            p += 1;
        }
        assert(p < order.len() ==> entry_slot(before, ev[k as int], p as int) == p);
        order.insert(p, k);
        assert(order@.map_values(|i: usize| ev[i as int]) =~= before.insert(p as int, ev[k as int]));
        assert(ev.take(k + 1).drop_last() =~= ev.take(k as int));
        assert(ev.take(k + 1).last() == ev[k as int]);
        k += 1;
    }
    assert(ev.take(entries.len() as int) =~= ev);
    assert(order@.map_values(|i: usize| entry_view(entries@[i as int])) =~= order@.map_values(|i: usize| ev[i as int]));
    order
}

fn push_bytes(msg: &mut Vec<u8>, s: &str)
    ensures
        final(msg)@ == old(msg)@ + encode_utf8(s@),
{
    let b = s.as_bytes();
    let ghost start = msg@;
    let mut q: usize = 0;
    while q < b.len()
        invariant
            q <= b.len(),
            msg@ == start + b@.take(q as int),
        decreases b.len() - q,
    {
        msg.push(b[q]);
        assert(b@.take(q + 1) =~= b@.take(q as int).push(b@[q as int]));
        q += 1;
    }
    assert(b@.take(b.len() as int) =~= b@);
}

/// A fingerprint of the vault: SHA-256 over each `.md` file's (path,
/// modification time, size), in path order. Cheap to compute, since no
/// file is read; any edit that changes a file's time or size changes it.
pub fn compute_manifest_hash(entries: &Vec<ManifestEntry>) -> (r: Vec<u8>)
    ensures
        r@ == manifest_of(entries@),
        r@.len() == 32,
{
    let order = entry_order(entries);
    let ghost sorted = order@.map_values(|i: usize| entry_view(entries@[i as int]));
    let mut msg: Vec<u8> = Vec::new();
    let mut j: usize = 0;
    while j < order.len()
        invariant
            j <= order.len(),
            sorted == order@.map_values(|i: usize| entry_view(entries@[i as int])),
            forall|i: int| 0 <= i < order.len() ==> order@[i] < entries.len(),
            msg@ == manifest_message(sorted.take(j as int)),
        decreases order.len() - j,
    {
        let e = &entries[order[j]];
        let ghost start = msg@;
        push_bytes(&mut msg, e.rel.as_str());
        msg.push(0u8);
        push_le(&mut msg, e.mtime_nanos, 16);
        push_le(&mut msg, e.size as u128, 8);
        msg.push(0u8);
        proof {
            assert(sorted.take(j + 1).drop_last() =~= sorted.take(j as int));
            assert(sorted.take(j + 1).last() == entry_view(*e));
            assert(msg@ =~= manifest_message(sorted.take(j + 1)));
        }
        j += 1;
    }
    assert(sorted.take(order.len() as int) =~= sorted);
    sha256(msg.as_slice())
}

// ───────────────────────── row operations ──────────────────────────────

/// `rows` without the rows for note `id`.
pub open spec fn without_note(rows: Seq<NoteRow>, id: u128) -> Seq<NoteRow>
    decreases rows.len(),
{
    if rows.len() == 0 {
        Seq::empty()
    } else {
        let rest = without_note(rows.drop_last(), id);
        if rows.last().id.value == id {
            rest
        } else {
            rest.push(rows.last())
        }
    }
}

proof fn lemma_without_note_contains(rows: Seq<NoteRow>, id: u128, r: NoteRow)
    ensures
        without_note(rows, id).contains(r) <==> rows.contains(r) && r.id.value != id,
    decreases rows.len(),
{
    if rows.len() > 0 {
        let front = rows.drop_last();
        lemma_without_note_contains(front, id, r);
        assert(rows =~= front.push(rows.last()));
        crate::query::lemma_push_contains(front, rows.last(), r);
        if rows.last().id.value != id {
            crate::query::lemma_push_contains(without_note(front, id), rows.last(), r);
        }
    }
}

proof fn lemma_without_note_ids(rows: Seq<NoteRow>, id: u128, x: u128)
    ensures
        note_ids(without_note(rows, id)).contains(x) <==> note_ids(rows).contains(x) && x != id,
        note_ids(rows).no_duplicates() ==> note_ids(without_note(rows, id)).no_duplicates(),
    decreases rows.len(),
{
    if rows.len() > 0 {
        let front = rows.drop_last();
        lemma_without_note_ids(front, id, x);
        let rest = without_note(front, id);
        assert(note_ids(rows) =~= note_ids(front).push(rows.last().id.value));
        crate::query::lemma_push_contains(note_ids(front), rows.last().id.value, x);
        if rows.last().id.value != id {
            assert(note_ids(rest.push(rows.last())) =~= note_ids(rest).push(rows.last().id.value));
            crate::query::lemma_push_contains(note_ids(rest), rows.last().id.value, x);
            if note_ids(rows).no_duplicates() {
                assert(note_ids(front) =~= note_ids(rows).drop_last());
                let ids = note_ids(rest.push(rows.last()));
                assert forall|a: int, b: int| 0 <= a < b < ids.len() implies ids[a] != ids[b] by {
                    if b == rest.len() {
                        let y = ids[a];
                        assert(note_ids(rest).contains(y));
                        lemma_without_note_ids(front, id, y);
                        let m = choose|m: int| 0 <= m < note_ids(front).len() && note_ids(front)[m] == y;
                        assert(note_ids(rows)[m] == y);
                        assert(note_ids(rows)[rows.len() - 1] == rows.last().id.value);
                    }
                }
            }
        } else if note_ids(rows).no_duplicates() {
            assert(note_ids(front) =~= note_ids(rows).drop_last());
        }
    }
}

/// Row `j` is the first note row whose path is `p`.
pub open spec fn first_at_path(notes: Seq<NoteRow>, p: Seq<char>, j: int) -> bool {
    &&& 0 <= j < notes.len()
    &&& notes[j].path@ == p
    &&& forall|i: int| 0 <= i < j ==> (#[trigger] notes[i]).path@ != p
}

/// `after` is `before` with note `id` gone from every table that refers to
/// it: its `note_index` row, its note/tag pairs and its outgoing links.
pub open spec fn note_dropped(before: Index, after: Index, id: u128) -> bool {
    &&& after.notes@ == without_note(before.notes@, id)
    &&& forall|x: (u128, Seq<char>)|
        #[trigger] after.note_tag_pairs().contains(x) <==> before.note_tag_pairs().contains(x) && x.0 != id
    &&& forall|x: (u128, Seq<char>, Seq<char>, Option<Seq<char>>, Option<u128>)|
        #[trigger] link_views(after.links@).contains(x) <==> link_views(before.links@).contains(x) && x.0 != id
}

impl Index {
    /// `INSERT OR REPLACE` a `note_index` row: any row with the same id goes,
    /// the new row is appended.
    fn replace_note_row(&mut self, row: NoteRow)
        requires
            old(self).wf(),
        ensures
            final(self).wf(),
            final(self).notes@ == without_note(old(self).notes@, row.id.value).push(row),
            final(self).files@ == old(self).files@,
            final(self).tags@ == old(self).tags@,
            final(self).note_tags@ == old(self).note_tags@,
            final(self).links@ == old(self).links@,
            final(self).meta@ == old(self).meta@,
            final(self).reminders@ == old(self).reminders@,
    {
        let ghost before = self.notes@;
        let mut kept: Vec<NoteRow> = Vec::new();
        let mut k: usize = 0;
        let n = self.notes.len();
        while k < n
            invariant
                k <= n == self.notes.len(),
                self.notes@ == before,
                kept@ == without_note(before.take(k as int), row.id.value),
            decreases n - k,
        {
            assert(before.take(k + 1).drop_last() =~= before.take(k as int));
            assert(before.take(k + 1).last() == before[k as int]);
            if self.notes[k].id.value != row.id.value {
                let c = NoteRow {
                    id: self.notes[k].id,
                    path: self.notes[k].path.clone(),
                    title: match &self.notes[k].title {
                        Some(t) => Some(t.clone()),
                        None => None,
                    },
                    created: self.notes[k].created.clone(),
                    updated: self.notes[k].updated.clone(),
                    body_preview: self.notes[k].body_preview.clone(),
                };
                assert(c == before[k as int]);
                kept.push(c);
            }
            k += 1;
        }
        assert(before.take(n as int) =~= before);
        let ghost removed = kept@;
        kept.push(row);
        self.notes = kept;
        proof {
            lemma_without_note_ids(before, row.id.value, row.id.value);
            assert(note_ids(self.notes@) =~= note_ids(removed).push(row.id.value));
            let ids = note_ids(self.notes@);
            assert forall|a: int, b: int| 0 <= a < b < ids.len() implies ids[a] != ids[b] by {
                if b == removed.len() {
                    assert(note_ids(removed).contains(ids[a]));
                } else {
                    assert(note_ids(removed)[a] != note_ids(removed)[b]);
                }
            }
        }
    }

    /// `UPDATE` the `note_index` row with the row's id, if there is one.
    fn update_note_row(&mut self, row: NoteRow)
        requires
            old(self).wf(),
        ensures
            final(self).wf(),
            final(self).notes@ == old(self).notes@.map_values(
                |r: NoteRow| if r.id.value == row.id.value { row } else { r },
            ),
            final(self).files@ == old(self).files@,
            final(self).tags@ == old(self).tags@,
            final(self).note_tags@ == old(self).note_tags@,
            final(self).links@ == old(self).links@,
            final(self).meta@ == old(self).meta@,
            final(self).reminders@ == old(self).reminders@,
    {
        let ghost before = self.notes@;
        let mut k: usize = 0;
        while k < self.notes.len()
            invariant
                k <= self.notes.len() == before.len(),
                forall|i: int| 0 <= i < k ==> self.notes@[i] == (if before[i].id.value == row.id.value { row } else { before[i] }),
                forall|i: int| k <= i < before.len() ==> self.notes@[i] == before[i],
                self.files@ == old(self).files@,
                self.tags@ == old(self).tags@,
                self.note_tags@ == old(self).note_tags@,
                self.links@ == old(self).links@,
                self.meta@ == old(self).meta@,
                self.reminders@ == old(self).reminders@,
            decreases before.len() - k,
        {
            if self.notes[k].id.value == row.id.value {
                let c = NoteRow {
                    id: row.id,
                    path: row.path.clone(),
                    title: match &row.title {
                        Some(t) => Some(t.clone()),
                        None => None,
                    },
                    created: row.created.clone(),
                    updated: row.updated.clone(),
                    body_preview: row.body_preview.clone(),
                };
                assert(c == row);
                self.notes.set(k, c);
            }
            k += 1;
        }
        assert(self.notes@ =~= before.map_values(|r: NoteRow| if r.id.value == row.id.value { row } else { r }));
        assert(note_ids(self.notes@) =~= note_ids(before));
    }
}

fn copy_bytes(v: &Vec<u8>) -> (r: Vec<u8>)
    ensures
        r@ == v@,
{
    let mut out: Vec<u8> = Vec::new();
    let mut k: usize = 0;
    while k < v.len()
        invariant
            k <= v.len(),
            out@ == v@.take(k as int),
        decreases v.len() - k,
    {
        out.push(v[k]);
        assert(v@.take(k + 1) =~= v@.take(k as int).push(v@[k as int]));
        k += 1;
    }
    assert(v@.take(v.len() as int) =~= v@);
    out
}

fn bytes_eq(a: &Vec<u8>, b: &Vec<u8>) -> (r: bool)
    ensures
        r == (a@ == b@),
{
    if a.len() != b.len() {
        return false;
    }
    let mut k: usize = 0;
    while k < a.len()
        invariant
            k <= a.len() == b.len(),
            forall|i: int| 0 <= i < k ==> a@[i] == b@[i],
        decreases a.len() - k,
    {
        if a[k] != b[k] {
            return false;
        }
        k += 1;
    }
    assert(a@ =~= b@);
    true
}

/// Position of the `file_state` row for `p`.
fn find_file(rows: &Vec<FileStateRow>, p: &str) -> (r: Option<usize>)
    ensures
        match r {
            Some(i) => i < rows.len() && rows@[i as int].path@ == p@ && stored_digest(rows@, p@)
                == Some(rows@[i as int].sha256@) && file_paths(rows@).contains(p@),
            None => !file_paths(rows@).contains(p@) && stored_digest(rows@, p@) is None,
        },
{
    let mut k: usize = 0;
    assert(rows@.skip(0) =~= rows@);
    while k < rows.len()
        invariant
            k <= rows.len(),
            forall|m: int| 0 <= m < k ==> (#[trigger] rows@[m]).path@ != p@,
            stored_digest(rows@, p@) == stored_digest(rows@.skip(k as int), p@),
        decreases rows.len() - k,
    {
        let ghost rest = rows@.skip(k as int);
        assert(rest[0] == rows@[k as int]);
        assert(rest.drop_first() =~= rows@.skip(k + 1));
        if str_eq(rows[k].path.as_str(), p) {
            assert(file_paths(rows@)[k as int] == p@);
            return Some(k);
        }
        k += 1;
    }
    proof {
        if file_paths(rows@).contains(p@) {
            let m = choose|m: int| 0 <= m < file_paths(rows@).len() && file_paths(rows@)[m] == p@;
            assert(rows@[m].path@ == p@);
        }
    }
    None
}

proof fn lemma_stored_digest_update(rows: Seq<FileStateRow>, i: int, row: FileStateRow, p: Seq<char>)
    requires
        0 <= i < rows.len(),
        row.path@ == rows[i].path@,
        file_paths(rows).no_duplicates(),
    ensures
        p == row.path@ ==> stored_digest(rows.update(i, row), p) == Some(row.sha256@),
        p != row.path@ ==> stored_digest(rows.update(i, row), p) == stored_digest(rows, p),
    decreases rows.len(),
{
    let u = rows.update(i, row);
    if i == 0 {
        assert(u.drop_first() =~= rows.drop_first());
    } else {
        assert(u[0] == rows[0]);
        assert(u.drop_first() =~= rows.drop_first().update(i - 1, row));
        assert(file_paths(rows.drop_first()) =~= file_paths(rows).drop_first());
        assert(file_paths(rows)[0] != file_paths(rows)[i]);
        lemma_stored_digest_update(rows.drop_first(), i - 1, row, p);
    }
}

proof fn lemma_stored_digest_push(rows: Seq<FileStateRow>, row: FileStateRow, p: Seq<char>)
    requires
        !file_paths(rows).contains(row.path@),
    ensures
        p == row.path@ ==> stored_digest(rows.push(row), p) == Some(row.sha256@),
        p != row.path@ ==> stored_digest(rows.push(row), p) == stored_digest(rows, p),
    decreases rows.len(),
{
    let u = rows.push(row);
    if rows.len() == 0 {
        assert(u[0] == row);
        assert(u.drop_first() =~= Seq::<FileStateRow>::empty());
        assert(stored_digest(u.drop_first(), p) is None);
    } else {
        assert(u[0] == rows[0]);
        assert(rows[0].path@ != row.path@) by {
            assert(file_paths(rows)[0] == rows[0].path@);
        }
        assert(u.drop_first() =~= rows.drop_first().push(row));
        assert(!file_paths(rows.drop_first()).contains(row.path@)) by {
            if file_paths(rows.drop_first()).contains(row.path@) {
                let m = choose|m: int| 0 <= m < file_paths(rows.drop_first()).len() && file_paths(rows.drop_first())[m] == row.path@;
                assert(file_paths(rows)[m + 1] == row.path@);
            }
        }
        lemma_stored_digest_push(rows.drop_first(), row, p);
    }
}

impl Index {
    /// Forget the file at `rel`: the note indexed from it (the first note
    /// row with that path), its tag associations and outgoing links, and
    /// its `file_state` row.
    pub fn delete_path(&mut self, rel: &str)
        requires
            old(self).wf(),
        ensures
            final(self).wf(),
            forall|x: Seq<char>|
                #[trigger] file_paths(final(self).files@).contains(x) <==> file_paths(
                    old(self).files@,
                ).contains(x) && x != rel@,
            final(self).meta@ == old(self).meta@,
            final(self).reminders@ == old(self).reminders@,
            forall|r: NoteRow| #[trigger] final(self).notes@.contains(r) ==> old(self).notes@.contains(r),
            forall|r: NoteRow|
                old(self).notes@.contains(r) && r.path@ != rel@ ==> #[trigger] final(self).notes@.contains(r),
            forall|x: (u128, Seq<char>)|
                note_ids(final(self).notes@).contains(x.0) ==> (#[trigger] final(self).note_tag_pairs().contains(x)
                    <==> old(self).note_tag_pairs().contains(x)),
            forall|j: int|
                #[trigger] first_at_path(old(self).notes@, rel@, j) ==> note_dropped(
                    *old(self),
                    *final(self),
                    old(self).notes@[j].id.value,
                ),
            (forall|j: int| 0 <= j < old(self).notes@.len() ==> (#[trigger] old(self).notes@[j]).path@ != rel@)
                ==> final(self).notes@ == old(self).notes@ && final(self).note_tags@ == old(self).note_tags@
                && final(self).links@ == old(self).links@,
            forall|x: (u128, Seq<char>)|
                #[trigger] final(self).note_tag_pairs().contains(x) ==> old(self).note_tag_pairs().contains(x),
            forall|x: (u128, Seq<char>, Seq<char>, Option<Seq<char>>, Option<u128>)|
                #[trigger] link_views(final(self).links@).contains(x) ==> link_views(old(self).links@).contains(x),
    {
        let ghost before = self.notes@;
        let ghost start = *self;
        let mut found: Option<NoteId> = None;
        let mut k: usize = 0;
        while k < self.notes.len()
            invariant_except_break
                found is None,
                forall|j: int| 0 <= j < k ==> (#[trigger] before[j]).path@ != rel@,
            invariant
                k <= self.notes.len(),
                self.notes@ == before,
            ensures
                match found {
                    Some(fid) => exists|j: int|
                        #[trigger] first_at_path(before, rel@, j) && before[j].id == fid,
                    None => forall|j: int| 0 <= j < before.len() ==> (#[trigger] before[j]).path@ != rel@,
                },
            decreases self.notes.len() - k,
        {
            if str_eq(self.notes[k].path.as_str(), rel) {
                found = Some(self.notes[k].id);
                assert(first_at_path(before, rel@, k as int));
                break;
            }
            k += 1;
        }
        match found {
            Some(id) => {
                self.drop_note(&id);
                proof {
                    let j = choose|j: int| #[trigger] first_at_path(before, rel@, j) && before[j].id == id;
                    assert forall|j2: int| #[trigger] first_at_path(before, rel@, j2) implies j2 == j by {
                        if j2 < j {
                            assert(before[j2].path@ != rel@);
                        }
                        if j < j2 {
                            assert(before[j].path@ != rel@);
                        }
                    }
                    assert forall|r: NoteRow| #[trigger] self.notes@.contains(r) implies before.contains(r) by {
                        lemma_without_note_contains(before, id.value, r);
                    }
                    assert forall|r: NoteRow| before.contains(r) && r.path@ != rel@ implies #[trigger] self.notes@.contains(r) by {
                        lemma_without_note_contains(before, id.value, r);
                        let i = choose|i: int| 0 <= i < before.len() && before[i] == r;
                        assert(note_ids(before)[i] == r.id.value);
                        assert(note_ids(before)[j] == id.value);
                    }
                    lemma_without_note_ids(before, id.value, id.value);
                }
            },
            None => {},
        }
        self.drop_file_row(rel);
    }

    /// Remove note `id`'s row, tag associations and outgoing links.
    fn drop_note(&mut self, id: &NoteId)
        requires
            old(self).wf(),
        ensures
            final(self).wf(),
            final(self).notes@ == without_note(old(self).notes@, id.value),
            forall|x: (u128, Seq<char>)|
                #[trigger] final(self).note_tag_pairs().contains(x) <==> old(self).note_tag_pairs().contains(x)
                    && x.0 != id.value,
            forall|x: (u128, Seq<char>, Seq<char>, Option<Seq<char>>, Option<u128>)|
                #[trigger] link_views(final(self).links@).contains(x) <==> link_views(old(self).links@).contains(x)
                    && x.0 != id.value,
            final(self).files@ == old(self).files@,
            final(self).meta@ == old(self).meta@,
            final(self).reminders@ == old(self).reminders@,
    {
        let ghost before = *self;
        // note_tag rows
        let mut kept: Vec<NoteTagRow> = Vec::new();
        let mut k: usize = 0;
        while k < self.note_tags.len()
            invariant
                k <= self.note_tags.len(),
                self.note_tags@ == before.note_tags@,
                *self == before,
                pairs_of(before.note_tags@).no_duplicates(),
                forall|x| #[trigger] pairs_of(kept@).contains(x) <==> pairs_of(before.note_tags@).take(k as int).contains(x) && x.0 != id.value,
                pairs_of(kept@).no_duplicates(),
            decreases self.note_tags.len() - k,
        {
            let ghost pk = pairs_of(before.note_tags@);
            let ghost cur = pk[k as int];
            assert(pk.take(k + 1) =~= pk.take(k as int).push(cur));
            if self.note_tags[k].note_id.value != id.value {
                let c = NoteTagRow { note_id: self.note_tags[k].note_id, tag_path: self.note_tags[k].tag_path.clone() };
                let ghost prev = pairs_of(kept@);
                kept.push(c);
                proof {
                    assert(pairs_of(kept@) =~= prev.push(cur));
                    assert(!pk.take(k as int).contains(cur)) by {
                        if pk.take(k as int).contains(cur) {
                            let j = choose|j: int| 0 <= j < k && pk.take(k as int)[j] == cur;
                            assert(pk[j] == pk[k as int]);
                        }
                    }
                    assert forall|x| #[trigger] pairs_of(kept@).contains(x) <==> pk.take(k + 1).contains(x) && x.0 != id.value by {
                        crate::query::lemma_push_contains(prev, cur, x);
                        crate::query::lemma_push_contains(pk.take(k as int), cur, x);
                    }
                    let q = pairs_of(kept@);
                    assert forall|a: int, b: int| 0 <= a < b < q.len() implies q[a] != q[b] by {
                        if b == prev.len() {
                            assert(prev.contains(prev[a]));
                        }
                    }
                }
            } else {
                proof {
                    assert forall|x| #[trigger] pairs_of(kept@).contains(x) <==> pk.take(k + 1).contains(x) && x.0 != id.value by {
                        crate::query::lemma_push_contains(pk.take(k as int), cur, x);
                    }
                }
            }
            k += 1;
        }
        assert(pairs_of(before.note_tags@).take(before.note_tags@.len() as int) =~= pairs_of(before.note_tags@));
        self.note_tags = kept;
        proof {
            assert forall|i: int| 0 <= i < self.note_tag_pairs().len() implies self.tag_paths().contains(
                (#[trigger] self.note_tag_pairs()[i]).1,
            ) by {
                let x = self.note_tag_pairs()[i];
                assert(self.note_tag_pairs().contains(x));
                let j = choose|j: int| 0 <= j < before.note_tag_pairs().len() && before.note_tag_pairs()[j] == x;
                assert(before.tag_paths().contains(before.note_tag_pairs()[j].1));
            }
        }
        // note_link rows
        let ghost lb = self.links@;
        let mut lkept: Vec<LinkRow> = Vec::new();
        let mut m: usize = 0;
        while m < self.links.len()
            invariant
                m <= self.links.len(),
                self.links@ == lb,
                self.tags_wf(),
                self.tags@ == before.tags@,
                self.notes@ == before.notes@,
                self.files@ == before.files@,
                self.meta@ == before.meta@,
                self.reminders@ == before.reminders@,
                link_keys(lb).no_duplicates(),
                forall|x| link_keys(lkept@).contains(x) ==> #[trigger] link_keys(lb).take(m as int).contains(x),
                link_keys(lkept@).no_duplicates(),
                forall|x| #[trigger] link_views(lkept@).contains(x) <==> link_views(lb).take(m as int).contains(x) && x.0 != id.value,
            decreases self.links.len() - m,
        {
            if self.links[m].source.value != id.value {
                let r = &self.links[m];
                let c = LinkRow {
                    source: r.source,
                    raw: r.raw.clone(),
                    target_text: r.target_text.clone(),
                    alias: clone_opt(&r.alias),
                    target_id: r.target_id,
                };
                let ghost prev = link_keys(lkept@);
                let ghost prevv = link_views(lkept@);
                assert(link_view(c) == link_view(lb[m as int]));
                lkept.push(c);
                proof {
                    let vb = link_views(lb);
                    assert(link_views(lkept@) =~= prevv.push(vb[m as int]));
                    assert(vb.take(m + 1) =~= vb.take(m as int).push(vb[m as int]));
                    assert forall|x| #[trigger] link_views(lkept@).contains(x) <==> vb.take(m + 1).contains(x) && x.0 != id.value by {
                        crate::query::lemma_push_contains(prevv, vb[m as int], x);
                        crate::query::lemma_push_contains(vb.take(m as int), vb[m as int], x);
                    }
                    let kb = link_keys(lb);
                    assert(link_keys(lkept@) =~= prev.push(kb[m as int]));
                    assert(kb.take(m + 1) =~= kb.take(m as int).push(kb[m as int]));
                    assert forall|x| link_keys(lkept@).contains(x) implies #[trigger] kb.take(m + 1).contains(x) by {
                        crate::query::lemma_push_contains(prev, kb[m as int], x);
                        crate::query::lemma_push_contains(kb.take(m as int), kb[m as int], x);
                    }
                    assert(!kb.take(m as int).contains(kb[m as int])) by {
                        if kb.take(m as int).contains(kb[m as int]) {
                            let j = choose|j: int| 0 <= j < m && kb.take(m as int)[j] == kb[m as int];
                            assert(kb[j] == kb[m as int]);
                        }
                    }
                    let q = link_keys(lkept@);
                    assert forall|a: int, b: int| 0 <= a < b < q.len() implies q[a] != q[b] by {
                        if b == prev.len() {
                            assert(prev.contains(prev[a]));
                        }
                    }
                }
            } else {
                proof {
                    let vb = link_views(lb);
                    assert(vb.take(m + 1) =~= vb.take(m as int).push(vb[m as int]));
                    assert forall|x| #[trigger] link_views(lkept@).contains(x) <==> vb.take(m + 1).contains(x) && x.0 != id.value by {
                        crate::query::lemma_push_contains(vb.take(m as int), vb[m as int], x);
                    }
                    let kb = link_keys(lb);
                    assert forall|x| link_keys(lkept@).contains(x) implies #[trigger] kb.take(m + 1).contains(x) by {
                        crate::query::lemma_push_contains(kb.take(m as int), kb[m as int], x);
                        assert(kb.take(m + 1) =~= kb.take(m as int).push(kb[m as int]));
                    }
                }
            }
            m += 1;
        }
        assert(link_views(lb).take(lb.len() as int) =~= link_views(lb));
        self.links = lkept;
        let ghost lnew = self.links@;
        assert(self.tags_wf());
        // note_index rows
        let ghost nb = self.notes@;
        let mut nkept: Vec<NoteRow> = Vec::new();
        let mut q: usize = 0;
        while q < self.notes.len()
            invariant
                q <= self.notes.len(),
                self.notes@ == nb,
                self.tags_wf(),
                note_ids(nb).no_duplicates(),
                link_keys(self.links@).no_duplicates(),
                file_paths(self.files@).no_duplicates(),
                crate::index::meta_keys(self.meta@).no_duplicates(),
                self.files@ == before.files@,
                self.meta@ == before.meta@,
                self.reminders@ == before.reminders@,
                nkept@ == without_note(nb.take(q as int), id.value),
                self.links@ == lnew,
            decreases self.notes.len() - q,
        {
            assert(nb.take(q + 1).drop_last() =~= nb.take(q as int));
            assert(nb.take(q + 1).last() == nb[q as int]);
            if self.notes[q].id.value != id.value {
                let r = &self.notes[q];
                let c = NoteRow {
                    id: r.id,
                    path: r.path.clone(),
                    title: match &r.title {
                        Some(t) => Some(t.clone()),
                        None => None,
                    },
                    created: r.created.clone(),
                    updated: r.updated.clone(),
                    body_preview: r.body_preview.clone(),
                };
                assert(c == nb[q as int]);
                nkept.push(c);
            }
            q += 1;
        }
        assert(nb.take(nb.len() as int) =~= nb);
        proof {
            lemma_without_note_ids(nb, id.value, id.value);
        }
        self.notes = nkept;
        assert(self.tags_wf());
        assert(note_ids(self.notes@).no_duplicates());
        assert(file_paths(self.files@).no_duplicates());
        assert(link_keys(self.links@).no_duplicates());
        assert(crate::index::meta_keys(self.meta@).no_duplicates());
    }

    /// Remove the `file_state` row for `rel`.
    fn drop_file_row(&mut self, rel: &str)
        requires
            old(self).wf(),
        ensures
            final(self).wf(),
            forall|x: Seq<char>|
                #[trigger] file_paths(final(self).files@).contains(x) <==> file_paths(
                    old(self).files@,
                ).contains(x) && x != rel@,
            final(self).meta@ == old(self).meta@,
            final(self).reminders@ == old(self).reminders@,
            final(self).notes@ == old(self).notes@,
            final(self).note_tags@ == old(self).note_tags@,
            final(self).links@ == old(self).links@,
    {
        let ghost fb = self.files@;
        let ghost pb = file_paths(fb);
        let mut kept: Vec<FileStateRow> = Vec::new();
        let mut k: usize = 0;
        while k < self.files.len()
            invariant
                k <= self.files.len(),
                self.files@ == fb,
                pb == file_paths(fb),
                pb.no_duplicates(),
                forall|x| #[trigger] file_paths(kept@).contains(x) <==> pb.take(k as int).contains(x) && x != rel@,
                file_paths(kept@).no_duplicates(),
            decreases self.files.len() - k,
        {
            let ghost cur = pb[k as int];
            assert(pb.take(k + 1) =~= pb.take(k as int).push(cur));
            if !str_eq(self.files[k].path.as_str(), rel) {
                let r = &self.files[k];
                let c = FileStateRow { path: r.path.clone(), mtime: r.mtime, size: r.size, sha256: copy_bytes(&r.sha256) };
                let ghost prev = file_paths(kept@);
                kept.push(c);
                proof {
                    assert(file_paths(kept@) =~= prev.push(cur));
                    assert(!pb.take(k as int).contains(cur)) by {
                        if pb.take(k as int).contains(cur) {
                            let j = choose|j: int| 0 <= j < k && pb.take(k as int)[j] == cur;
                            assert(pb[j] == pb[k as int]);
                        }
                    }
                    assert forall|x| #[trigger] file_paths(kept@).contains(x) <==> pb.take(k + 1).contains(x) && x != rel@ by {
                        crate::query::lemma_push_contains(prev, cur, x);
                        crate::query::lemma_push_contains(pb.take(k as int), cur, x);
                    }
                    let q = file_paths(kept@);
                    assert forall|a: int, b: int| 0 <= a < b < q.len() implies q[a] != q[b] by {
                        if b == prev.len() {
                            assert(prev.contains(prev[a]));
                        }
                    }
                }
            } else {
                proof {
                    assert forall|x| #[trigger] file_paths(kept@).contains(x) <==> pb.take(k + 1).contains(x) && x != rel@ by {
                        crate::query::lemma_push_contains(pb.take(k as int), cur, x);
                    }
                }
            }
            k += 1;
        }
        assert(pb.take(fb.len() as int) =~= pb);
        self.files = kept;
    }
}

// ───────────────────────── reconcile ───────────────────────────────────

/// What a walk of the vault saw.
#[derive(Debug, Clone)]
pub struct VaultScan {
    /// Every `.md` file under `notes/` with its time and size.
    pub entries: Vec<ManifestEntry>,
    /// Every `.md` file under `notes/`, with its contents.
    pub files: Vec<ScannedFile>,
}

fn read_scanned(f: &ScannedFile) -> (r: Option<(Frontmatter, String, Vec<u8>, FileMeta)>)
    ensures
        match r {
            Some((fm, body, h, m)) => scanned_note(*f) == Some((frontmatter_view(fm), body@))
                && h@ == scanned_digest(*f) && f.meta == Some(m),
            None => scanned_note(*f) is None,
        },
{
    let bytes = match &f.bytes {
        Some(b) => b,
        None => {
            return None;
        },
    };
    let text = match utf8_text(bytes.as_slice()) {
        Ok(t) => t,
        Err(_) => {
            return None;
        },
    };
    let (fm, body) = match crate::frontmatter::parse(text.as_str()) {
        Ok(p) => p,
        Err(_) => {
            return None;
        },
    };
    let m = match f.meta {
        Some(m) => m,
        None => {
            return None;
        },
    };
    let h = sha256(bytes.as_slice());
    Some((fm, body, h, m))
}

/// Whether some scanned file has path `p`.
fn seen_path(files: &Vec<ScannedFile>, p: &str) -> (r: bool)
    ensures
        r == scan_rels(files@).contains(p@),
{
    let mut k: usize = 0;
    while k < files.len()
        invariant
            k <= files.len(),
            forall|m: int| 0 <= m < k ==> (#[trigger] files@[m]).rel@ != p@,
        decreases files.len() - k,
    {
        if str_eq(files[k].rel.as_str(), p) {
            assert(scan_rels(files@)[k as int] == p@);
            return true;
        }
        k += 1;
    }
    proof {
        if scan_rels(files@).contains(p@) {
            let m = choose|m: int| 0 <= m < scan_rels(files@).len() && scan_rels(files@)[m] == p@;
            assert(files@[m].rel@ == p@);
        }
    }
    false
}

proof fn lemma_parsed_at_step(files: Seq<ScannedFile>, k: int, p: Seq<char>)
    requires
        0 <= k < files.len(),
    ensures
        parsed_at(files.take(k + 1), p) <==> parsed_at(files.take(k), p) || (files[k].rel@ == p
            && scanned_note(files[k]) is Some),
{
    let a = files.take(k);
    let b = files.take(k + 1);
    if parsed_at(b, p) {
        let i = choose|i: int| 0 <= i < b.len() && (#[trigger] b[i]).rel@ == p && scanned_note(b[i]) is Some;
        if i < k {
            assert(a[i] == b[i]);
        }
    }
    if parsed_at(a, p) {
        let i = choose|i: int| 0 <= i < a.len() && (#[trigger] a[i]).rel@ == p && scanned_note(a[i]) is Some;
        assert(b[i] == a[i]);
    }
    if files[k].rel@ == p && scanned_note(files[k]) is Some {
        assert(b[k] == files[k]);
    }
}

proof fn lemma_parsed_at_seen(files: Seq<ScannedFile>, p: Seq<char>)
    requires
        parsed_at(files, p),
    ensures
        scan_rels(files).contains(p),
{
    let i = choose|i: int| 0 <= i < files.len() && (#[trigger] files[i]).rel@ == p && scanned_note(files[i]) is Some;
    assert(scan_rels(files)[i] == p);
}

// ───────────────────────── note rows of a walk ─────────────────────────

/// The note id a parsed scanned file carries (0 for one that did not parse).
pub open spec fn scan_id(f: ScannedFile) -> u128 {
    match scanned_note(f) {
        Some((v, _)) => v.id,
        None => 0,
    }
}

/// `r` is the `note_index` row that the parsed file `f` gives: its id and
/// path, the title and the two stamps of its frontmatter, and the first
/// line of its body.
pub open spec fn row_from_scan(r: NoteRow, f: ScannedFile) -> bool {
    match scanned_note(f) {
        Some((v, body)) => r.id.value == v.id && r.path@ == f.rel@ && opt_text(r.title) == v.title
            && r.created@ == v.created && r.updated@ == v.updated && r.body_preview@ == first_line(
            body,
        ),
        None => false,
    }
}

/// File `j` of the walk parsed and its bytes are not the ones `old` recorded
/// for its path (or `old` recorded none): the walk writes its note row.
pub open spec fn refreshed_at(files: Seq<ScannedFile>, old: Seq<FileStateRow>, j: int) -> bool {
    &&& scanned_note(files[j]) is Some
    &&& stored_digest(old, files[j].rel@) != Some(scanned_digest(files[j]))
}

/// No parsed file after `j` and before `end` carries file `j`'s note id.
pub open spec fn id_last_at(files: Seq<ScannedFile>, j: int, end: int) -> bool {
    forall|l: int|
        j < l < end && scanned_note(files[l]) is Some ==> #[trigger] scan_id(files[l]) != scan_id(files[j])
}

/// The note rows hold what the first `end` files of a walk wrote: for every
/// file whose row was written and whose id no later parsed file reuses,
/// every row with that id is the file's row, and a file that `old` did not
/// track has its row.
pub open spec fn rows_fresh(notes: Seq<NoteRow>, files: Seq<ScannedFile>, old: Seq<FileStateRow>, end: int) -> bool {
    &&& forall|j: int, r: NoteRow|
        #![trigger row_from_scan(r, files[j])]
        0 <= j < end && refreshed_at(files, old, j) && id_last_at(files, j, end) && notes.contains(r)
            && r.id.value == scan_id(files[j]) ==> row_from_scan(r, files[j])
    &&& forall|j: int|
        0 <= j < end && #[trigger] refreshed_at(files, old, j) && id_last_at(files, j, end)
            && !file_paths(old).contains(files[j].rel@) ==> exists|r: NoteRow|
            notes.contains(r) && row_from_scan(r, files[j])
}

/// A step that writes no row (the file did not parse, or its bytes were
/// unchanged) keeps what the earlier files wrote.
proof fn lemma_rows_fresh_skip(notes: Seq<NoteRow>, files: Seq<ScannedFile>, old: Seq<FileStateRow>, k: int)
    requires
        0 <= k < files.len(),
        rows_fresh(notes, files, old, k),
        !refreshed_at(files, old, k),
    ensures
        rows_fresh(notes, files, old, k + 1),
{
    assert forall|j: int, r: NoteRow|
        0 <= j < k + 1 && refreshed_at(files, old, j) && id_last_at(files, j, k + 1) && notes.contains(r)
            && r.id.value == scan_id(files[j]) implies row_from_scan(r, files[j]) by {
        assert(id_last_at(files, j, k));
    }
    assert forall|j: int|
        0 <= j < k + 1 && #[trigger] refreshed_at(files, old, j) && id_last_at(files, j, k + 1)
            && !file_paths(old).contains(files[j].rel@) implies exists|r: NoteRow|
            notes.contains(r) && row_from_scan(r, files[j]) by {
        assert(id_last_at(files, j, k));
    }
}

/// Replacing the rows of file `k`'s id with its row.
proof fn lemma_rows_fresh_replace(
    notes: Seq<NoteRow>,
    files: Seq<ScannedFile>,
    old: Seq<FileStateRow>,
    k: int,
    row: NoteRow,
)
    requires
        0 <= k < files.len(),
        rows_fresh(notes, files, old, k),
        row_from_scan(row, files[k]),
    ensures
        rows_fresh(without_note(notes, row.id.value).push(row), files, old, k + 1),
{
    let after = without_note(notes, row.id.value).push(row);
    assert forall|j: int, r: NoteRow|
        0 <= j < k + 1 && refreshed_at(files, old, j) && id_last_at(files, j, k + 1) && after.contains(r)
            && r.id.value == scan_id(files[j]) implies row_from_scan(r, files[j]) by {
        crate::query::lemma_push_contains(without_note(notes, row.id.value), row, r);
        lemma_without_note_contains(notes, row.id.value, r);
        if j < k {
            assert(scan_id(files[k]) != scan_id(files[j]));
            assert(id_last_at(files, j, k));
        }
    }
    assert forall|j: int|
        0 <= j < k + 1 && #[trigger] refreshed_at(files, old, j) && id_last_at(files, j, k + 1)
            && !file_paths(old).contains(files[j].rel@) implies exists|r: NoteRow|
            after.contains(r) && row_from_scan(r, files[j]) by {
        if j < k {
            assert(scan_id(files[k]) != scan_id(files[j]));
            assert(id_last_at(files, j, k));
            let r = choose|r: NoteRow| notes.contains(r) && row_from_scan(r, files[j]);
            lemma_without_note_contains(notes, row.id.value, r);
            crate::query::lemma_push_contains(without_note(notes, row.id.value), row, r);
            assert(after.contains(r) && row_from_scan(r, files[j]));
        } else {
            crate::query::lemma_push_contains(without_note(notes, row.id.value), row, row);
            assert(after.contains(row) && row_from_scan(row, files[j]));
        }
    }
}

/// Overwriting the rows of file `k`'s id, a file `old` already tracked,
/// with its row.
proof fn lemma_rows_fresh_update(
    notes: Seq<NoteRow>,
    files: Seq<ScannedFile>,
    old: Seq<FileStateRow>,
    k: int,
    row: NoteRow,
)
    requires
        0 <= k < files.len(),
        rows_fresh(notes, files, old, k),
        row_from_scan(row, files[k]),
        file_paths(old).contains(files[k].rel@),
    ensures
        rows_fresh(
            notes.map_values(|r: NoteRow| if r.id.value == row.id.value { row } else { r }),
            files,
            old,
            k + 1,
        ),
{
    let after = notes.map_values(|r: NoteRow| if r.id.value == row.id.value { row } else { r });
    assert forall|j: int, r: NoteRow|
        0 <= j < k + 1 && refreshed_at(files, old, j) && id_last_at(files, j, k + 1) && after.contains(r)
            && r.id.value == scan_id(files[j]) implies row_from_scan(r, files[j]) by {
        let i = choose|i: int| 0 <= i < after.len() && after[i] == r;
        if j < k {
            assert(scan_id(files[k]) != scan_id(files[j]));
            assert(id_last_at(files, j, k));
            assert(notes[i] == r);
            assert(notes.contains(r));
        }
    }
    assert forall|j: int|
        0 <= j < k + 1 && #[trigger] refreshed_at(files, old, j) && id_last_at(files, j, k + 1)
            && !file_paths(old).contains(files[j].rel@) implies exists|r: NoteRow|
            after.contains(r) && row_from_scan(r, files[j]) by {
        assert(j < k);
        assert(scan_id(files[k]) != scan_id(files[j]));
        assert(id_last_at(files, j, k));
        let r = choose|r: NoteRow| notes.contains(r) && row_from_scan(r, files[j]);
        let i = choose|i: int| 0 <= i < notes.len() && notes[i] == r;
        assert(after[i] == r);
        assert(after.contains(r) && row_from_scan(r, files[j]));
    }
}

/// The tags a parsed scanned file's frontmatter lists.
pub open spec fn scan_tags(f: ScannedFile) -> Seq<Seq<char>> {
    match scanned_note(f) {
        Some((v, _)) => v.tags,
        None => Seq::empty(),
    }
}

/// The note/tag pairs hold what the first `end` files of a walk assigned:
/// a parsed file whose id no later parsed file reuses has exactly its
/// valid listed tags.
pub open spec fn walk_tags(pairs: Seq<(u128, Seq<char>)>, files: Seq<ScannedFile>, end: int) -> bool {
    forall|j: int, x: Seq<char>|
        #![trigger pairs.contains((scan_id(files[j]), x))]
        0 <= j < end && scanned_note(files[j]) is Some && id_last_at(files, j, end) ==> (pairs.contains(
            (scan_id(files[j]), x),
        ) <==> scan_tags(files[j]).contains(x) && valid_tag_path(x))
}

/// After a walk, a parsed file whose id no later parsed file reuses and
/// whose note row is still there has exactly its valid listed tags.
pub open spec fn tags_fresh(pairs: Seq<(u128, Seq<char>)>, notes: Seq<NoteRow>, files: Seq<ScannedFile>) -> bool {
    forall|j: int, x: Seq<char>|
        #![trigger pairs.contains((scan_id(files[j]), x))]
        0 <= j < files.len() && scanned_note(files[j]) is Some && id_last_at(files, j, files.len() as int)
            && note_ids(notes).contains(scan_id(files[j])) ==> (pairs.contains((scan_id(files[j]), x))
            <==> scan_tags(files[j]).contains(x) && valid_tag_path(x))
}

proof fn lemma_walk_tags_skip(pairs: Seq<(u128, Seq<char>)>, files: Seq<ScannedFile>, k: int)
    requires
        0 <= k < files.len(),
        walk_tags(pairs, files, k),
        scanned_note(files[k]) is None,
    ensures
        walk_tags(pairs, files, k + 1),
{
    assert forall|j: int, x: Seq<char>|
        0 <= j < k + 1 && scanned_note(files[j]) is Some && id_last_at(files, j, k + 1) implies (pairs.contains(
            (scan_id(files[j]), x),
        ) <==> scan_tags(files[j]).contains(x) && valid_tag_path(x)) by {
        assert(id_last_at(files, j, k));
    }
}

proof fn lemma_walk_tags_sync(
    pairs: Seq<(u128, Seq<char>)>,
    after: Seq<(u128, Seq<char>)>,
    files: Seq<ScannedFile>,
    k: int,
)
    requires
        0 <= k < files.len(),
        walk_tags(pairs, files, k),
        scanned_note(files[k]) is Some,
        forall|x: (u128, Seq<char>)|
            #[trigger] after.contains(x) <==> (x.0 != scan_id(files[k]) && pairs.contains(x)) || (x.0
                == scan_id(files[k]) && scan_tags(files[k]).contains(x.1) && valid_tag_path(x.1)),
    ensures
        walk_tags(after, files, k + 1),
{
    assert forall|j: int, x: Seq<char>|
        0 <= j < k + 1 && scanned_note(files[j]) is Some && id_last_at(files, j, k + 1) implies (after.contains(
            (scan_id(files[j]), x),
        ) <==> scan_tags(files[j]).contains(x) && valid_tag_path(x)) by {
        assert(after.contains((scan_id(files[j]), x)) <==> (scan_id(files[j]) != scan_id(files[k]) && pairs.contains(
            (scan_id(files[j]), x),
        )) || (scan_id(files[j]) == scan_id(files[k]) && scan_tags(files[k]).contains(x) && valid_tag_path(x)));
        if j < k {
            assert(scan_id(files[k]) != scan_id(files[j]));
            assert(id_last_at(files, j, k));
        }
    }
}

proof fn lemma_note_ids_subset(a: Seq<NoteRow>, b: Seq<NoteRow>, y: u128)
    requires
        forall|r: NoteRow| #[trigger] b.contains(r) ==> a.contains(r),
        note_ids(b).contains(y),
    ensures
        note_ids(a).contains(y),
{
    let i = choose|i: int| 0 <= i < note_ids(b).len() && note_ids(b)[i] == y;
    assert(b.contains(b[i]));
    let m = choose|m: int| 0 <= m < a.len() && a[m] == b[i];
    assert(note_ids(a)[m] == y);
}

proof fn lemma_tags_fresh_after_walk(
    walked: Seq<(u128, Seq<char>)>,
    pairs: Seq<(u128, Seq<char>)>,
    notes: Seq<NoteRow>,
    files: Seq<ScannedFile>,
)
    requires
        walk_tags(walked, files, files.len() as int),
        forall|x: (u128, Seq<char>)|
            note_ids(notes).contains(x.0) ==> (#[trigger] pairs.contains(x) <==> walked.contains(x)),
    ensures
        tags_fresh(pairs, notes, files),
{
    assert forall|j: int, x: Seq<char>|
        0 <= j < files.len() && scanned_note(files[j]) is Some && id_last_at(files, j, files.len() as int)
            && note_ids(notes).contains(scan_id(files[j])) implies (pairs.contains((scan_id(files[j]), x))
            <==> scan_tags(files[j]).contains(x) && valid_tag_path(x)) by {
        assert(pairs.contains((scan_id(files[j]), x)) <==> walked.contains((scan_id(files[j]), x)));
    }
}

/// The body of a parsed scanned file.
pub open spec fn scan_body(f: ScannedFile) -> Seq<char> {
    match scanned_note(f) {
        Some((_, b)) => b,
        None => Seq::empty(),
    }
}

/// After a walk, a parsed file whose id no later parsed file reuses has
/// exactly the link rows of its body's wikilinks, resolved against `notes`.
pub open spec fn links_fresh(
    links: Seq<(u128, Seq<char>, Seq<char>, Option<Seq<char>>, Option<u128>)>,
    notes: Seq<NoteRow>,
    files: Seq<ScannedFile>,
) -> bool {
    forall|j: int, x: (u128, Seq<char>, Seq<char>, Option<Seq<char>>, Option<u128>)|
        #![trigger own_link_row(notes, scan_id(files[j]), wikilinks(scan_body(files[j])), x)]
        0 <= j < files.len() && scanned_note(files[j]) is Some && id_last_at(files, j, files.len() as int)
            && x.0 == scan_id(files[j]) ==> (links.contains(x) <==> own_link_row(
            notes,
            scan_id(files[j]),
            wikilinks(scan_body(files[j])),
            x,
        ))
}

/// The links of the files that the first `q` entries of the queue `qf`
/// (file positions, in walk order) stand for are in place.
pub open spec fn links_upto(
    links: Seq<(u128, Seq<char>, Seq<char>, Option<Seq<char>>, Option<u128>)>,
    notes: Seq<NoteRow>,
    files: Seq<ScannedFile>,
    qf: Seq<int>,
    q: int,
) -> bool {
    forall|j: int, x: (u128, Seq<char>, Seq<char>, Option<Seq<char>>, Option<u128>)|
        #![trigger own_link_row(notes, scan_id(files[j]), wikilinks(scan_body(files[j])), x)]
        0 <= j < files.len() && scanned_note(files[j]) is Some && id_last_at(files, j, files.len() as int)
            && (exists|q0: int| 0 <= q0 < q && #[trigger] qf[q0] == j) && x.0 == scan_id(files[j]) ==> (
        links.contains(x) <==> own_link_row(notes, scan_id(files[j]), wikilinks(scan_body(files[j])), x))
}

/// The queue of link work that a walk builds: one entry per parsed file,
/// in walk order.
pub open spec fn queue_of_walk(qf: Seq<int>, files: Seq<ScannedFile>, end: int) -> bool {
    &&& forall|q: int| 0 <= q < qf.len() ==> 0 <= #[trigger] qf[q] < end && scanned_note(files[qf[q]]) is Some
    &&& forall|a: int, b: int| 0 <= a < b < qf.len() ==> qf[a] < qf[b]
    &&& forall|j: int|
        0 <= j < end && #[trigger] scanned_note(files[j]) is Some ==> exists|q: int| 0 <= q < qf.len() && qf[q] == j
}

proof fn lemma_queue_skip(qf: Seq<int>, files: Seq<ScannedFile>, k: int)
    requires
        0 <= k < files.len(),
        queue_of_walk(qf, files, k),
        scanned_note(files[k]) is None,
    ensures
        queue_of_walk(qf, files, k + 1),
{
}

proof fn lemma_queue_push(qf: Seq<int>, files: Seq<ScannedFile>, k: int)
    requires
        0 <= k < files.len(),
        queue_of_walk(qf, files, k),
        scanned_note(files[k]) is Some,
    ensures
        queue_of_walk(qf.push(k), files, k + 1),
{
    let nq = qf.push(k);
    assert forall|q: int| 0 <= q < nq.len() implies 0 <= #[trigger] nq[q] < k + 1 && scanned_note(files[nq[q]]) is Some by {
        if q < qf.len() {
            assert(nq[q] == qf[q]);
        }
    }
    assert forall|j: int|
        0 <= j < k + 1 && #[trigger] scanned_note(files[j]) is Some implies exists|q: int| 0 <= q < nq.len() && nq[q] == j by {
        if j < k {
            let q = choose|q: int| 0 <= q < qf.len() && qf[q] == j;
            assert(nq[q] == j);
        } else {
            assert(nq[qf.len() as int] == j);
        }
    }
}

proof fn lemma_links_step(
    links: Seq<(u128, Seq<char>, Seq<char>, Option<Seq<char>>, Option<u128>)>,
    after: Seq<(u128, Seq<char>, Seq<char>, Option<Seq<char>>, Option<u128>)>,
    notes: Seq<NoteRow>,
    files: Seq<ScannedFile>,
    qf: Seq<int>,
    q: int,
    id: u128,
    ws: Seq<WikilinkView>,
)
    requires
        0 <= q < qf.len(),
        queue_of_walk(qf, files, files.len() as int),
        id == scan_id(files[qf[q]]),
        ws == wikilinks(scan_body(files[qf[q]])),
        links_upto(links, notes, files, qf, q),
        forall|x: (u128, Seq<char>, Seq<char>, Option<Seq<char>>, Option<u128>)|
            #[trigger] after.contains(x) <==> (x.0 != id && links.contains(x)) || own_link_row(notes, id, ws, x),
    ensures
        links_upto(after, notes, files, qf, q + 1),
{
    assert forall|j: int, x: (u128, Seq<char>, Seq<char>, Option<Seq<char>>, Option<u128>)|
        0 <= j < files.len() && scanned_note(files[j]) is Some && id_last_at(files, j, files.len() as int)
            && (exists|q0: int| 0 <= q0 < q + 1 && #[trigger] qf[q0] == j) && x.0 == scan_id(files[j]) implies (
        after.contains(x) <==> own_link_row(notes, scan_id(files[j]), wikilinks(scan_body(files[j])), x)) by {
        assert(after.contains(x) <==> (x.0 != id && links.contains(x)) || own_link_row(notes, id, ws, x));
        let q0 = choose|q0: int| 0 <= q0 < q + 1 && #[trigger] qf[q0] == j;
        if q0 < q {
            assert(qf[q0] < qf[q]);
            assert(0 <= qf[q] < files.len() && scanned_note(files[qf[q]]) is Some);
            assert(scan_id(files[qf[q]]) != scan_id(files[j]));
            assert(!own_link_row(notes, id, ws, x));
        }
    }
}

proof fn lemma_links_done(
    links: Seq<(u128, Seq<char>, Seq<char>, Option<Seq<char>>, Option<u128>)>,
    notes: Seq<NoteRow>,
    files: Seq<ScannedFile>,
    qf: Seq<int>,
)
    requires
        queue_of_walk(qf, files, files.len() as int),
        links_upto(links, notes, files, qf, qf.len() as int),
    ensures
        links_fresh(links, notes, files),
{
    assert forall|j: int, x: (u128, Seq<char>, Seq<char>, Option<Seq<char>>, Option<u128>)|
        0 <= j < files.len() && scanned_note(files[j]) is Some && id_last_at(files, j, files.len() as int)
            && x.0 == scan_id(files[j]) implies (links.contains(x) <==> own_link_row(
            notes,
            scan_id(files[j]),
            wikilinks(scan_body(files[j])),
            x,
        )) by {
        let q0 = choose|q0: int| 0 <= q0 < qf.len() && qf[q0] == j;
        assert(qf[q0] == j);
    }
}

/// Note row `r` of `notes` belongs to a file that `old` tracked and the walk
/// no longer sees, no parsed file carries its id, and no other row of
/// `notes` has its path: reconciling removes that note.
pub open spec fn orphaned_row(
    notes: Seq<NoteRow>,
    old: Seq<FileStateRow>,
    files: Seq<ScannedFile>,
    r: NoteRow,
) -> bool {
    &&& notes.contains(r)
    &&& file_paths(old).contains(r.path@)
    &&& !scan_rels(files).contains(r.path@)
    &&& forall|j: int|
        0 <= j < files.len() && scanned_note(files[j]) is Some ==> #[trigger] scan_id(files[j]) != r.id.value
    &&& forall|r2: NoteRow| #[trigger] notes.contains(r2) && r2.path@ == r.path@ ==> r2 == r
}

/// No table of `index` refers to note `id`: no `note_index` row, no
/// note/tag pair and no outgoing link.
pub open spec fn id_absent(index: Index, id: u128) -> bool {
    &&& !note_ids(index.notes@).contains(id)
    &&& forall|t: Seq<char>| !(#[trigger] index.note_tag_pairs().contains((id, t)))
    &&& forall|x: (u128, Seq<char>, Seq<char>, Option<Seq<char>>, Option<u128>)|
        #[trigger] link_views(index.links@).contains(x) ==> x.0 != id
}

/// Every row of `notes` is an old row or one the walk wrote for a path it saw.
pub open spec fn rows_known(notes: Seq<NoteRow>, oldn: Seq<NoteRow>, files: Seq<ScannedFile>) -> bool {
    forall|r: NoteRow| #[trigger] notes.contains(r) ==> oldn.contains(r) || scan_rels(files).contains(r.path@)
}

/// Orphaned rows whose path is in `done` are gone with everything that
/// refers to them; the others are still there.
pub open spec fn orphans_gone(
    index: Index,
    oldn: Seq<NoteRow>,
    oldf: Seq<FileStateRow>,
    files: Seq<ScannedFile>,
    done: Seq<Seq<char>>,
) -> bool {
    forall|r: NoteRow|
        #[trigger] orphaned_row(oldn, oldf, files, r) ==> if done.contains(r.path@) {
            id_absent(index, r.id.value)
        } else {
            index.notes@.contains(r)
        }
}

proof fn lemma_orphans_replace(
    notes: Seq<NoteRow>,
    oldn: Seq<NoteRow>,
    oldf: Seq<FileStateRow>,
    files: Seq<ScannedFile>,
    k: int,
    row: NoteRow,
)
    requires
        0 <= k < files.len(),
        scanned_note(files[k]) is Some,
        row.id.value == scan_id(files[k]),
        row.path@ == files[k].rel@,
        forall|r: NoteRow| #[trigger] orphaned_row(oldn, oldf, files, r) ==> notes.contains(r),
        rows_known(notes, oldn, files),
    ensures
        forall|r: NoteRow|
            #[trigger] orphaned_row(oldn, oldf, files, r) ==> without_note(notes, row.id.value).push(row).contains(r),
        rows_known(without_note(notes, row.id.value).push(row), oldn, files),
{
    let after = without_note(notes, row.id.value).push(row);
    assert(scan_rels(files)[k] == row.path@);
    assert forall|r: NoteRow| #[trigger] orphaned_row(oldn, oldf, files, r) implies after.contains(r) by {
        assert(scan_id(files[k]) != r.id.value);
        lemma_without_note_contains(notes, row.id.value, r);
        crate::query::lemma_push_contains(without_note(notes, row.id.value), row, r);
    }
    assert forall|r: NoteRow| #[trigger] after.contains(r) implies oldn.contains(r) || scan_rels(files).contains(r.path@) by {
        lemma_without_note_contains(notes, row.id.value, r);
        crate::query::lemma_push_contains(without_note(notes, row.id.value), row, r);
    }
}

proof fn lemma_orphans_update(
    notes: Seq<NoteRow>,
    oldn: Seq<NoteRow>,
    oldf: Seq<FileStateRow>,
    files: Seq<ScannedFile>,
    k: int,
    row: NoteRow,
)
    requires
        0 <= k < files.len(),
        scanned_note(files[k]) is Some,
        row.id.value == scan_id(files[k]),
        row.path@ == files[k].rel@,
        forall|r: NoteRow| #[trigger] orphaned_row(oldn, oldf, files, r) ==> notes.contains(r),
        rows_known(notes, oldn, files),
    ensures
        forall|r: NoteRow|
            #[trigger] orphaned_row(oldn, oldf, files, r) ==> notes.map_values(
                |x: NoteRow| if x.id.value == row.id.value { row } else { x },
            ).contains(r),
        rows_known(notes.map_values(|x: NoteRow| if x.id.value == row.id.value { row } else { x }), oldn, files),
{
    let after = notes.map_values(|x: NoteRow| if x.id.value == row.id.value { row } else { x });
    assert(scan_rels(files)[k] == row.path@);
    assert forall|r: NoteRow| #[trigger] orphaned_row(oldn, oldf, files, r) implies after.contains(r) by {
        assert(scan_id(files[k]) != r.id.value);
        let i = choose|i: int| 0 <= i < notes.len() && notes[i] == r;
        assert(after[i] == r);
    }
    assert forall|r: NoteRow| #[trigger] after.contains(r) implies oldn.contains(r) || scan_rels(files).contains(r.path@) by {
        let i = choose|i: int| 0 <= i < after.len() && after[i] == r;
        if notes[i].id.value != row.id.value {
            assert(notes.contains(notes[i]));
        }
    }
}

proof fn lemma_orphans_delete_step(
    b: Index,
    a: Index,
    oldn: Seq<NoteRow>,
    oldf: Seq<FileStateRow>,
    files: Seq<ScannedFile>,
    done: Seq<Seq<char>>,
    pm: Seq<char>,
)
    requires
        orphans_gone(b, oldn, oldf, files, done),
        rows_known(b.notes@, oldn, files),
        note_ids(b.notes@).no_duplicates(),
        !done.contains(pm),
        !scan_rels(files).contains(pm),
        forall|r: NoteRow| #[trigger] a.notes@.contains(r) ==> b.notes@.contains(r),
        forall|r: NoteRow| b.notes@.contains(r) && r.path@ != pm ==> #[trigger] a.notes@.contains(r),
        forall|x: (u128, Seq<char>)| #[trigger] a.note_tag_pairs().contains(x) ==> b.note_tag_pairs().contains(x),
        forall|x: (u128, Seq<char>, Seq<char>, Option<Seq<char>>, Option<u128>)|
            #[trigger] link_views(a.links@).contains(x) ==> link_views(b.links@).contains(x),
        forall|j: int| #[trigger] first_at_path(b.notes@, pm, j) ==> note_dropped(b, a, b.notes@[j].id.value),
    ensures
        orphans_gone(a, oldn, oldf, files, done.push(pm)),
        rows_known(a.notes@, oldn, files),
{
    assert forall|r: NoteRow| #[trigger] orphaned_row(oldn, oldf, files, r) implies if done.push(pm).contains(r.path@) {
        id_absent(a, r.id.value)
    } else {
        a.notes@.contains(r)
    } by {
        crate::query::lemma_push_contains(done, pm, r.path@);
        if done.contains(r.path@) {
            assert(id_absent(b, r.id.value));
            if note_ids(a.notes@).contains(r.id.value) {
                lemma_note_ids_subset(b.notes@, a.notes@, r.id.value);
            }
            assert forall|t: Seq<char>| !(#[trigger] a.note_tag_pairs().contains((r.id.value, t))) by {
                if a.note_tag_pairs().contains((r.id.value, t)) {
                    assert(b.note_tag_pairs().contains((r.id.value, t)));
                }
            }
            assert forall|x: (u128, Seq<char>, Seq<char>, Option<Seq<char>>, Option<u128>)|
                #[trigger] link_views(a.links@).contains(x) implies x.0 != r.id.value by {
                assert(link_views(b.links@).contains(x));
            }
        } else if r.path@ == pm {
            let bn = b.notes@;
            assert(bn.contains(r));
            let i = choose|i: int| 0 <= i < bn.len() && bn[i] == r;
            assert forall|i2: int| 0 <= i2 < i implies (#[trigger] bn[i2]).path@ != pm by {
                if bn[i2].path@ == pm {
                    assert(bn.contains(bn[i2]));
                    assert(oldn.contains(bn[i2]) || scan_rels(files).contains(bn[i2].path@));
                    assert(bn[i2] == r);
                    assert(note_ids(bn)[i2] == note_ids(bn)[i]);
                }
            }
            assert(first_at_path(bn, pm, i));
            assert(note_dropped(b, a, r.id.value));
            lemma_without_note_ids(bn, r.id.value, r.id.value);
            assert forall|t: Seq<char>| !(#[trigger] a.note_tag_pairs().contains((r.id.value, t))) by {}
            assert forall|x: (u128, Seq<char>, Seq<char>, Option<Seq<char>>, Option<u128>)|
                #[trigger] link_views(a.links@).contains(x) implies x.0 != r.id.value by {}
        } else {
            assert(b.notes@.contains(r));
        }
    }
    assert forall|r: NoteRow| #[trigger] a.notes@.contains(r) implies oldn.contains(r) || scan_rels(files).contains(r.path@) by {
        assert(b.notes@.contains(r));
    }
}

/// Passing over a path the walk saw changes no orphan's state.
proof fn lemma_orphans_seen(
    index: Index,
    oldn: Seq<NoteRow>,
    oldf: Seq<FileStateRow>,
    files: Seq<ScannedFile>,
    done: Seq<Seq<char>>,
    pm: Seq<char>,
)
    requires
        orphans_gone(index, oldn, oldf, files, done),
        scan_rels(files).contains(pm),
    ensures
        orphans_gone(index, oldn, oldf, files, done.push(pm)),
{
    assert forall|r: NoteRow| #[trigger] orphaned_row(oldn, oldf, files, r) implies if done.push(pm).contains(r.path@) {
        id_absent(index, r.id.value)
    } else {
        index.notes@.contains(r)
    } by {
        crate::query::lemma_push_contains(done, pm, r.path@);
    }
}

/// Link work for a parsed note leaves every orphaned note's absence as it was.
proof fn lemma_orphans_links(
    b: Index,
    a: Index,
    oldn: Seq<NoteRow>,
    oldf: Seq<FileStateRow>,
    files: Seq<ScannedFile>,
    done: Seq<Seq<char>>,
    j: int,
    ws: Seq<WikilinkView>,
)
    requires
        0 <= j < files.len(),
        scanned_note(files[j]) is Some,
        orphans_gone(b, oldn, oldf, files, done),
        forall|r: NoteRow| #[trigger] orphaned_row(oldn, oldf, files, r) ==> done.contains(r.path@),
        a.notes@ == b.notes@,
        a.note_tags@ == b.note_tags@,
        forall|x: (u128, Seq<char>, Seq<char>, Option<Seq<char>>, Option<u128>)|
            #[trigger] link_views(a.links@).contains(x) <==> (x.0 != scan_id(files[j]) && link_views(b.links@).contains(x))
                || own_link_row(b.notes@, scan_id(files[j]), ws, x),
    ensures
        orphans_gone(a, oldn, oldf, files, done),
{
    assert forall|r: NoteRow| #[trigger] orphaned_row(oldn, oldf, files, r) implies if done.contains(r.path@) {
        id_absent(a, r.id.value)
    } else {
        a.notes@.contains(r)
    } by {
        assert(scan_id(files[j]) != r.id.value);
        assert(id_absent(b, r.id.value));
        assert forall|t: Seq<char>| !(#[trigger] a.note_tag_pairs().contains((r.id.value, t))) by {
            assert(!b.note_tag_pairs().contains((r.id.value, t)));
        }
        assert forall|x: (u128, Seq<char>, Seq<char>, Option<Seq<char>>, Option<u128>)|
            #[trigger] link_views(a.links@).contains(x) implies x.0 != r.id.value by {
            if x.0 == r.id.value {
                assert(link_views(b.links@).contains(x));
            }
        }
    }
}

/// No other parsed file of the walk carries file `j`'s note id.
pub open spec fn id_unique_at(files: Seq<ScannedFile>, j: int) -> bool {
    forall|l: int|
        0 <= l < files.len() && l != j && scanned_note(files[l]) is Some ==> #[trigger] scan_id(files[l])
            != scan_id(files[j])
}

/// `a` and `b` hold the same rows with id `x`.
pub open spec fn same_rows_for(a: Seq<NoteRow>, b: Seq<NoteRow>, x: u128) -> bool {
    forall|r: NoteRow|
        #![trigger a.contains(r)]
        #![trigger b.contains(r)]
        r.id.value == x ==> (a.contains(r) <==> b.contains(r))
}

/// Every row of `oldn` with id `x` has path `p`.
pub open spec fn rows_at_path(oldn: Seq<NoteRow>, x: u128, p: Seq<char>) -> bool {
    forall|r: NoteRow| #[trigger] oldn.contains(r) && r.id.value == x ==> r.path@ == p
}

/// File `j`'s note has a row exactly when its path is new to `old` or the
/// old index already had a row for its id (an in-place rewrite updates the
/// row the id has, as `UPDATE … WHERE id` does).
pub open spec fn row_present_ok(
    notes: Seq<NoteRow>,
    oldn: Seq<NoteRow>,
    old: Seq<FileStateRow>,
    files: Seq<ScannedFile>,
    j: int,
) -> bool {
    note_ids(notes).contains(scan_id(files[j])) <==> (!file_paths(old).contains(files[j].rel@) || note_ids(
        oldn,
    ).contains(scan_id(files[j])))
}

/// The note rows after the first `k` files of a walk: a written file (whose
/// id no other parsed file carries) has its row when `row_present_ok` says
/// so; every other parsed file's id keeps exactly its old rows.
pub open spec fn walk_rows(
    notes: Seq<NoteRow>,
    oldn: Seq<NoteRow>,
    old: Seq<FileStateRow>,
    files: Seq<ScannedFile>,
    k: int,
) -> bool {
    forall|j: int|
        0 <= j < files.len() && #[trigger] scanned_note(files[j]) is Some && id_unique_at(files, j) ==> if j < k
            && refreshed_at(files, old, j) {
            row_present_ok(notes, oldn, old, files, j)
        } else {
            same_rows_for(notes, oldn, scan_id(files[j]))
        }
}

/// Every note row is an old row or the row some scanned file gives.
pub open spec fn rows_from_walk(notes: Seq<NoteRow>, oldn: Seq<NoteRow>, files: Seq<ScannedFile>) -> bool {
    forall|r: NoteRow|
        #[trigger] notes.contains(r) ==> oldn.contains(r) || exists|j: int|
            0 <= j < files.len() && #[trigger] row_from_scan(r, files[j])
}

/// The note rows mirror the walk: every parsed file whose id no other parsed
/// file carries has its row as [`row_present_ok`] says when the walk wrote
/// it, keeps its old rows when its bytes were unchanged and its old rows
/// sit at its path, and no row is anything but an old row or a scanned
/// file's row.
pub open spec fn rows_mirror(
    notes: Seq<NoteRow>,
    oldn: Seq<NoteRow>,
    old: Seq<FileStateRow>,
    files: Seq<ScannedFile>,
) -> bool {
    &&& forall|j: int|
        0 <= j < files.len() && #[trigger] refreshed_at(files, old, j) && id_unique_at(files, j) ==> row_present_ok(
            notes,
            oldn,
            old,
            files,
            j,
        )
    &&& forall|j: int|
        0 <= j < files.len() && #[trigger] scanned_note(files[j]) is Some && !refreshed_at(files, old, j)
            && id_unique_at(files, j) && rows_at_path(oldn, scan_id(files[j]), files[j].rel@) ==> same_rows_for(
            notes,
            oldn,
            scan_id(files[j]),
        )
    &&& rows_from_walk(notes, oldn, files)
}

proof fn lemma_same_rows_ids(a: Seq<NoteRow>, b: Seq<NoteRow>, x: u128)
    requires
        same_rows_for(a, b, x),
    ensures
        note_ids(a).contains(x) <==> note_ids(b).contains(x),
{
    if note_ids(a).contains(x) {
        let i = choose|i: int| 0 <= i < note_ids(a).len() && note_ids(a)[i] == x;
        assert(a.contains(a[i]));
        let m = choose|m: int| 0 <= m < b.len() && b[m] == a[i];
        assert(note_ids(b)[m] == x);
    }
    if note_ids(b).contains(x) {
        let i = choose|i: int| 0 <= i < note_ids(b).len() && note_ids(b)[i] == x;
        assert(b.contains(b[i]));
        let m = choose|m: int| 0 <= m < a.len() && a[m] == b[i];
        assert(note_ids(a)[m] == x);
    }
}

proof fn lemma_replace_rows(before: Seq<NoteRow>, row: NoteRow)
    ensures
        forall|x: u128|
            x != row.id.value ==> #[trigger] same_rows_for(without_note(before, row.id.value).push(row), before, x),
        note_ids(without_note(before, row.id.value).push(row)).contains(row.id.value),
{
    let after = without_note(before, row.id.value).push(row);
    assert forall|x: u128| x != row.id.value implies same_rows_for(after, before, x) by {
        assert forall|r: NoteRow| r.id.value == x implies (after.contains(r) <==> before.contains(r)) by {
            lemma_without_note_contains(before, row.id.value, r);
            crate::query::lemma_push_contains(without_note(before, row.id.value), row, r);
        }
    }
    assert(note_ids(after)[after.len() - 1] == row.id.value);
}

proof fn lemma_update_rows(before: Seq<NoteRow>, after: Seq<NoteRow>, row: NoteRow)
    requires
        after == before.map_values(|r: NoteRow| if r.id.value == row.id.value { row } else { r }),
    ensures
        forall|x: u128| x != row.id.value ==> #[trigger] same_rows_for(after, before, x),
        note_ids(after).contains(row.id.value) <==> note_ids(before).contains(row.id.value),
{
    assert forall|x: u128| x != row.id.value implies same_rows_for(after, before, x) by {
        assert forall|r: NoteRow| r.id.value == x implies (after.contains(r) <==> before.contains(r)) by {
            if after.contains(r) {
                let i = choose|i: int| 0 <= i < after.len() && after[i] == r;
                assert(before[i] == r);
            }
            if before.contains(r) {
                let i = choose|i: int| 0 <= i < before.len() && before[i] == r;
                assert(after[i] == r);
            }
        }
    }
    if note_ids(after).contains(row.id.value) {
        let i = choose|i: int| 0 <= i < note_ids(after).len() && note_ids(after)[i] == row.id.value;
        assert(note_ids(before)[i] == row.id.value);
    }
    if note_ids(before).contains(row.id.value) {
        let i = choose|i: int| 0 <= i < note_ids(before).len() && note_ids(before)[i] == row.id.value;
        assert(note_ids(after)[i] == row.id.value);
    }
}

proof fn lemma_walk_rows_step(
    before: Seq<NoteRow>,
    after: Seq<NoteRow>,
    oldn: Seq<NoteRow>,
    old: Seq<FileStateRow>,
    files: Seq<ScannedFile>,
    k: int,
)
    requires
        0 <= k < files.len(),
        walk_rows(before, oldn, old, files, k),
        scanned_note(files[k]) is Some ==> forall|x: u128|
            x != scan_id(files[k]) ==> #[trigger] same_rows_for(after, before, x),
        !refreshed_at(files, old, k) ==> after == before,
        refreshed_at(files, old, k) && same_rows_for(before, oldn, scan_id(files[k])) ==> row_present_ok(
            after,
            oldn,
            old,
            files,
            k,
        ),
    ensures
        walk_rows(after, oldn, old, files, k + 1),
{
    assert forall|j: int|
        0 <= j < files.len() && #[trigger] scanned_note(files[j]) is Some && id_unique_at(files, j) implies if j < k + 1
            && refreshed_at(files, old, j) {
            row_present_ok(after, oldn, old, files, j)
        } else {
            same_rows_for(after, oldn, scan_id(files[j]))
        } by {
        if j != k && refreshed_at(files, old, k) {
            assert(scan_id(files[k]) != scan_id(files[j]));
            assert(same_rows_for(after, before, scan_id(files[j])));
            if j < k && refreshed_at(files, old, j) {
                lemma_same_rows_ids(after, before, scan_id(files[j]));
            } else {
                assert forall|r: NoteRow| r.id.value == scan_id(files[j]) implies (after.contains(r)
                    <==> oldn.contains(r)) by {
                    assert(after.contains(r) <==> before.contains(r));
                    assert(before.contains(r) <==> oldn.contains(r));
                }
            }
        }
    }
}

proof fn lemma_rows_from_walk_replace(
    before: Seq<NoteRow>,
    oldn: Seq<NoteRow>,
    files: Seq<ScannedFile>,
    k: int,
    row: NoteRow,
)
    requires
        0 <= k < files.len(),
        rows_from_walk(before, oldn, files),
        row_from_scan(row, files[k]),
    ensures
        rows_from_walk(without_note(before, row.id.value).push(row), oldn, files),
{
    let after = without_note(before, row.id.value).push(row);
    assert forall|r: NoteRow| #[trigger] after.contains(r) implies oldn.contains(r) || exists|j: int|
        0 <= j < files.len() && #[trigger] row_from_scan(r, files[j]) by {
        lemma_without_note_contains(before, row.id.value, r);
        crate::query::lemma_push_contains(without_note(before, row.id.value), row, r);
        if r == row {
            assert(row_from_scan(r, files[k]));
        } else {
            assert(before.contains(r));
        }
    }
}

proof fn lemma_rows_from_walk_update(
    before: Seq<NoteRow>,
    after: Seq<NoteRow>,
    oldn: Seq<NoteRow>,
    files: Seq<ScannedFile>,
    k: int,
    row: NoteRow,
)
    requires
        0 <= k < files.len(),
        rows_from_walk(before, oldn, files),
        row_from_scan(row, files[k]),
        after == before.map_values(|r: NoteRow| if r.id.value == row.id.value { row } else { r }),
    ensures
        rows_from_walk(after, oldn, files),
{
    assert forall|r: NoteRow| #[trigger] after.contains(r) implies oldn.contains(r) || exists|j: int|
        0 <= j < files.len() && #[trigger] row_from_scan(r, files[j]) by {
        let i = choose|i: int| 0 <= i < after.len() && after[i] == r;
        if before[i].id.value == row.id.value {
            assert(r == row);
            assert(row_from_scan(r, files[k]));
        } else {
            assert(before.contains(before[i]));
        }
    }
}

proof fn lemma_walk_rows_done(
    notes: Seq<NoteRow>,
    oldn: Seq<NoteRow>,
    old: Seq<FileStateRow>,
    files: Seq<ScannedFile>,
)
    requires
        walk_rows(notes, oldn, old, files, files.len() as int),
        rows_from_walk(notes, oldn, files),
    ensures
        rows_mirror(notes, oldn, old, files),
{
    assert forall|j: int|
        0 <= j < files.len() && #[trigger] refreshed_at(files, old, j) && id_unique_at(files, j) implies row_present_ok(
            notes,
            oldn,
            old,
            files,
            j,
        ) by {
        assert(scanned_note(files[j]) is Some);
    }
}

/// Removing rows whose path the walk did not see keeps the mirror.
proof fn lemma_rows_mirror_shrink(
    b: Seq<NoteRow>,
    a: Seq<NoteRow>,
    walked: Seq<NoteRow>,
    oldn: Seq<NoteRow>,
    old: Seq<FileStateRow>,
    files: Seq<ScannedFile>,
    pm: Seq<char>,
)
    requires
        rows_mirror(b, oldn, old, files),
        rows_fresh(walked, files, old, files.len() as int),
        forall|r: NoteRow| #[trigger] b.contains(r) ==> walked.contains(r),
        !scan_rels(files).contains(pm),
        forall|r: NoteRow| #[trigger] a.contains(r) ==> b.contains(r),
        forall|r: NoteRow| b.contains(r) && r.path@ != pm ==> #[trigger] a.contains(r),
    ensures
        rows_mirror(a, oldn, old, files),
{
    assert forall|j: int|
        0 <= j < files.len() && #[trigger] refreshed_at(files, old, j) && id_unique_at(files, j) implies row_present_ok(
            a,
            oldn,
            old,
            files,
            j,
        ) by {
        assert(row_present_ok(b, oldn, old, files, j));
        let x = scan_id(files[j]);
        assert(id_last_at(files, j, files.len() as int));
        if note_ids(b).contains(x) {
            let i = choose|i: int| 0 <= i < note_ids(b).len() && note_ids(b)[i] == x;
            let r = b[i];
            assert(b.contains(r));
            assert(walked.contains(r));
            assert(row_from_scan(r, files[j]));
            assert(scan_rels(files)[j] == r.path@);
            assert(a.contains(r));
            let m = choose|m: int| 0 <= m < a.len() && a[m] == r;
            assert(note_ids(a)[m] == x);
        }
        if note_ids(a).contains(x) {
            lemma_note_ids_subset(b, a, x);
        }
    }
    assert forall|j: int|
        0 <= j < files.len() && #[trigger] scanned_note(files[j]) is Some && !refreshed_at(files, old, j)
            && id_unique_at(files, j) && rows_at_path(oldn, scan_id(files[j]), files[j].rel@) implies same_rows_for(
            a,
            oldn,
            scan_id(files[j]),
        ) by {
        assert(same_rows_for(b, oldn, scan_id(files[j])));
        assert(scan_rels(files)[j] == files[j].rel@);
        assert forall|r: NoteRow| r.id.value == scan_id(files[j]) implies (a.contains(r) <==> oldn.contains(r)) by {
            if oldn.contains(r) {
                assert(b.contains(r));
                assert(r.path@ == files[j].rel@);
            }
        }
    }
}

/// Removing rows whose path the walk did not see keeps what it wrote.
proof fn lemma_rows_fresh_shrink(
    a: Seq<NoteRow>,
    b: Seq<NoteRow>,
    files: Seq<ScannedFile>,
    old: Seq<FileStateRow>,
)
    requires
        rows_fresh(a, files, old, files.len() as int),
        forall|r: NoteRow| #[trigger] b.contains(r) ==> a.contains(r),
        forall|r: NoteRow| a.contains(r) && scan_rels(files).contains(r.path@) ==> #[trigger] b.contains(r),
    ensures
        rows_fresh(b, files, old, files.len() as int),
{
    assert forall|j: int|
        0 <= j < files.len() && #[trigger] refreshed_at(files, old, j) && id_last_at(files, j, files.len() as int)
            && !file_paths(old).contains(files[j].rel@) implies exists|r: NoteRow|
            b.contains(r) && row_from_scan(r, files[j]) by {
        let r = choose|r: NoteRow| a.contains(r) && row_from_scan(r, files[j]);
        assert(scan_rels(files)[j] == r.path@);
        assert(b.contains(r));
    }
}

impl Index {
    /// Walk results in, index out: diff the scanned files against
    /// `file_state` and apply inserts / updates / deletes to the note rows,
    /// sync each parsed note's tags and (once every note row exists) its
    /// wikilinks, drop orphan tags, and store the manifest hash.
    ///
    /// When the stored manifest hash equals the walk's, nothing changed on
    /// disk and the index is left as it is.
    pub fn reconcile_with_vault(&mut self, scan: &VaultScan) -> (summary: ReconcileSummary)
        requires
            old(self).wf(),
            manifest_readable(old(self).meta@),
            scan_rels(scan.files@).no_duplicates(),
        ensures
            final(self).wf(),
            stored_manifest(old(self).meta@) == Some(manifest_of(scan.entries@)) ==> (
            final(self).notes@ == old(self).notes@ && final(self).files@ == old(self).files@
                && final(self).tags@ == old(self).tags@ && final(self).note_tags@ == old(
                self,
            ).note_tags@ && final(self).links@ == old(self).links@ && final(self).meta@ == old(
                self,
            ).meta@ && summary == ReconcileSummary { inserted: 0, updated: 0, deleted: 0 }),
            stored_manifest(old(self).meta@) != Some(manifest_of(scan.entries@)) ==> (
            summary.inserted == count_inserted(scan.files@, old(self).files@) && summary.updated
                == count_updated(scan.files@, old(self).files@) && summary.deleted == count_deleted(
                file_paths(old(self).files@),
                scan_rels(scan.files@),
            ) && stored_manifest(final(self).meta@) == Some(manifest_of(scan.entries@)) && (forall|
                p: Seq<char>,
            |
                #[trigger] file_paths(final(self).files@).contains(p) <==> (file_paths(
                    old(self).files@,
                ).contains(p) && scan_rels(scan.files@).contains(p)) || parsed_at(scan.files@, p))
                && (forall|x: Seq<char>|
                #[trigger] final(self).tag_paths().contains(x) ==> tag_used(
                    final(self).note_tag_pairs(),
                    x,
                ))),
            stored_manifest(old(self).meta@) != Some(manifest_of(scan.entries@)) ==> rows_fresh(
                final(self).notes@,
                scan.files@,
                old(self).files@,
                scan.files@.len() as int,
            ),
            stored_manifest(old(self).meta@) != Some(manifest_of(scan.entries@)) ==> tags_fresh(
                final(self).note_tag_pairs(),
                final(self).notes@,
                scan.files@,
            ),
            stored_manifest(old(self).meta@) != Some(manifest_of(scan.entries@)) ==> links_fresh(
                link_views(final(self).links@),
                final(self).notes@,
                scan.files@,
            ),
            stored_manifest(old(self).meta@) != Some(manifest_of(scan.entries@)) ==> rows_mirror(
                final(self).notes@,
                old(self).notes@,
                old(self).files@,
                scan.files@,
            ),
            stored_manifest(old(self).meta@) != Some(manifest_of(scan.entries@)) ==> forall|r: NoteRow|
                #[trigger] orphaned_row(old(self).notes@, old(self).files@, scan.files@, r) ==> id_absent(
                    *final(self),
                    r.id.value,
                ),
            stored_manifest(final(self).meta@) == Some(manifest_of(scan.entries@)),
            manifest_readable(final(self).meta@),
            final(self).reminders@ == old(self).reminders@,
    {
        let manifest = compute_manifest_hash(&scan.entries);
        match self.stored_manifest_hash() {
            Some(stored) => {
                if bytes_eq(&stored, &manifest) {
                    return ReconcileSummary { inserted: 0, updated: 0, deleted: 0 };
                }
            },
            None => {},
        }
        let ghost before = *self;
        let ghost oldf = self.files@;
        let ghost files = scan.files@;
        let ghost rels = scan_rels(files);
        // Snapshot of the known paths.
        let mut prior: Vec<String> = Vec::new();
        let mut i: usize = 0;
        while i < self.files.len()
            invariant
                i <= self.files.len(),
                self.files@ == oldf,
                strs_view(prior@) == file_paths(oldf).take(i as int),
            decreases self.files.len() - i,
        {
            let ghost pv = strs_view(prior@);
            prior.push(self.files[i].path.clone());
            assert(strs_view(prior@) =~= pv.push(oldf[i as int].path@));
            assert(file_paths(oldf).take(i + 1) =~= file_paths(oldf).take(i as int).push(oldf[i as int].path@));
            i += 1;
        }
        assert(file_paths(oldf).take(oldf.len() as int) =~= file_paths(oldf));
        let mut inserted: usize = 0;
        let mut updated: usize = 0;
        let mut queue: Vec<(NoteId, Vec<Wikilink>)> = Vec::new();
        let ghost mut qf: Seq<int> = Seq::empty();
        let mut k: usize = 0;
        assert(files.take(0) =~= Seq::<ScannedFile>::empty());
        while k < scan.files.len()
            invariant
                k <= scan.files.len(),
                files == scan.files@,
                rels == scan_rels(files),
                rels.no_duplicates(),
                self.wf(),
                oldf == before.files@,
                inserted == count_inserted(files.take(k as int), oldf),
                updated == count_updated(files.take(k as int), oldf),
                inserted + updated <= k,
                forall|p: Seq<char>|
                    #[trigger] file_paths(self.files@).contains(p) <==> file_paths(oldf).contains(p)
                        || parsed_at(files.take(k as int), p),
                forall|p: Seq<char>|
                    !rels.take(k as int).contains(p) ==> #[trigger] stored_digest(self.files@, p)
                        == stored_digest(oldf, p),
                rows_fresh(self.notes@, files, oldf, k as int),
                walk_tags(self.note_tag_pairs(), files, k as int),
                forall|r: NoteRow| #[trigger] orphaned_row(before.notes@, oldf, files, r) ==> self.notes@.contains(r),
                rows_known(self.notes@, before.notes@, files),
                walk_rows(self.notes@, before.notes@, oldf, files, k as int),
                rows_from_walk(self.notes@, before.notes@, files),
                queue_of_walk(qf, files, k as int),
                qf.len() == queue.len(),
                forall|q: int|
                    0 <= q < queue.len() ==> (#[trigger] queue@[q]).0.value == scan_id(files[qf[q]])
                        && wikilink_views(queue@[q].1@) == wikilinks(scan_body(files[qf[q]])),
                self.reminders@ == before.reminders@,
            decreases scan.files.len() - k,
        {
            let f = &scan.files[k];
            let ghost fv = files[k as int];
            assert(fv == *f);
            assert(files.take(k + 1).drop_last() =~= files.take(k as int));
            assert(files.take(k + 1).last() == fv);
            assert(rels.take(k + 1) =~= rels.take(k as int).push(fv.rel@));
            assert(!rels.take(k as int).contains(fv.rel@)) by {
                if rels.take(k as int).contains(fv.rel@) {
                    let j = choose|j: int| 0 <= j < k && rels.take(k as int)[j] == fv.rel@;
                    assert(rels[j] == rels[k as int]);
                }
            }
            proof {
                lemma_parsed_at_step(files, k as int, fv.rel@);
                if parsed_at(files.take(k as int), fv.rel@) {
                    let j = choose|j: int| 0 <= j < k && (#[trigger] files.take(k as int)[j]).rel@ == fv.rel@ && scanned_note(files.take(k as int)[j]) is Some;
                    assert(rels.take(k as int)[j] == fv.rel@);
                }
            }
            let ghost mid = *self;
            match read_scanned(f) {
                None => {
                    proof {
                        assert forall|p: Seq<char>| #[trigger] file_paths(self.files@).contains(p) <==> file_paths(oldf).contains(p) || parsed_at(files.take(k + 1), p) by {
                            lemma_parsed_at_step(files, k as int, p);
                        }
                        assert forall|p: Seq<char>| !rels.take(k + 1).contains(p) implies #[trigger] stored_digest(self.files@, p) == stored_digest(oldf, p) by {
                            crate::query::lemma_push_contains(rels.take(k as int), fv.rel@, p);
                        }
                        lemma_rows_fresh_skip(self.notes@, files, oldf, k as int);
                        lemma_walk_tags_skip(self.note_tag_pairs(), files, k as int);
                        lemma_queue_skip(qf, files, k as int);
                        lemma_walk_rows_step(self.notes@, self.notes@, before.notes@, oldf, files, k as int);
                    }
                },
                Some((fm, body, hash, meta)) => {
                    let ghost fmv = frontmatter_view(fm);
                    let preview = first_line_of(body.as_str());
                    let Frontmatter { id, created, updated: upd, title, tags, links: _, attachments: _ } = fm;
                    let row = NoteRow { id, path: f.rel.clone(), title, created, updated: upd, body_preview: preview };
                    let ghost rowv = row;
                    assert(row_from_scan(rowv, fv));
                    let ghost nb = self.notes@;
                    match find_file(&self.files, f.rel.as_str()) {
                        Some(p) => {
                            if bytes_eq(&self.files[p].sha256, &hash) {
                                proof {
                                    lemma_rows_fresh_skip(nb, files, oldf, k as int);
                                    lemma_walk_rows_step(nb, nb, before.notes@, oldf, files, k as int);
                                }
                            } else {
                                self.update_note_row(row);
                                proof {
                                    lemma_rows_fresh_update(nb, files, oldf, k as int, rowv);
                                    lemma_orphans_update(nb, before.notes@, oldf, files, k as int, rowv);
                                    lemma_update_rows(nb, self.notes@, rowv);
                                    lemma_rows_from_walk_update(nb, self.notes@, before.notes@, files, k as int, rowv);
                                    assert(refreshed_at(files, oldf, k as int));
                                    if same_rows_for(nb, before.notes@, rowv.id.value) {
                                        lemma_same_rows_ids(nb, before.notes@, rowv.id.value);
                                    }
                                    lemma_walk_rows_step(nb, self.notes@, before.notes@, oldf, files, k as int);
                                }
                                let fr = FileStateRow { path: f.rel.clone(), mtime: meta.mtime, size: meta.size, sha256: hash };
                                let ghost fb = self.files@;
                                proof {
                                    lemma_stored_digest_update(fb, p as int, fr, fv.rel@);
                                    assert forall|q: Seq<char>| q != fv.rel@ implies stored_digest(fb.update(p as int, fr), q) == stored_digest(fb, q) by {
                                        lemma_stored_digest_update(fb, p as int, fr, q);
                                    }
                                }
                                self.files.set(p, fr);
                                assert(file_paths(self.files@) =~= file_paths(fb));
                                proof {
                                    assert forall|q: Seq<char>| !rels.take(k + 1).contains(q) implies #[trigger] stored_digest(self.files@, q) == stored_digest(oldf, q) by {
                                        crate::query::lemma_push_contains(rels.take(k as int), fv.rel@, q);
                                        lemma_stored_digest_update(fb, p as int, fr, q);
                                    }
                                }
                                updated += 1;
                            }
                        },
                        None => {
                            self.replace_note_row(row);
                            proof {
                                lemma_rows_fresh_replace(nb, files, oldf, k as int, rowv);
                                lemma_orphans_replace(nb, before.notes@, oldf, files, k as int, rowv);
                                lemma_replace_rows(nb, rowv);
                                lemma_rows_from_walk_replace(nb, before.notes@, files, k as int, rowv);
                                assert(!file_paths(oldf).contains(fv.rel@));
                                assert(refreshed_at(files, oldf, k as int));
                                lemma_walk_rows_step(nb, self.notes@, before.notes@, oldf, files, k as int);
                            }
                            let fr = FileStateRow { path: f.rel.clone(), mtime: meta.mtime, size: meta.size, sha256: hash };
                            let ghost fb = self.files@;
                            proof {
                                assert forall|q: Seq<char>| q != fv.rel@ implies stored_digest(fb.push(fr), q) == stored_digest(fb, q) by {
                                    lemma_stored_digest_push(fb, fr, q);
                                }
                            }
                            self.files.push(fr);
                            proof {
                                assert(file_paths(self.files@) =~= file_paths(fb).push(fv.rel@));
                                let fp = file_paths(self.files@);
                                assert forall|a: int, b: int| 0 <= a < b < fp.len() implies fp[a] != fp[b] by {
                                    if b == fb.len() {
                                        assert(file_paths(fb).contains(fp[a]));
                                    }
                                }
                                assert forall|q: Seq<char>| !rels.take(k + 1).contains(q) implies #[trigger] stored_digest(self.files@, q) == stored_digest(oldf, q) by {
                                    crate::query::lemma_push_contains(rels.take(k as int), fv.rel@, q);
                                    lemma_stored_digest_push(fb, fr, q);
                                }
                            }
                            inserted += 1;
                        },
                    }
                    proof {
                        assert forall|p: Seq<char>| #[trigger] file_paths(self.files@).contains(p) <==> file_paths(oldf).contains(p) || parsed_at(files.take(k + 1), p) by {
                            lemma_parsed_at_step(files, k as int, p);
                            crate::query::lemma_push_contains(file_paths(mid.files@), fv.rel@, p);
                        }
                        if self.files@ == mid.files@ {
                            assert forall|p: Seq<char>| !rels.take(k + 1).contains(p) implies #[trigger] stored_digest(self.files@, p) == stored_digest(oldf, p) by {
                                crate::query::lemma_push_contains(rels.take(k as int), fv.rel@, p);
                            }
                        }
                    }
                    let ghost before_sync = self.files@;
                    let ghost pairs_before = self.note_tag_pairs();
                    self.sync_note_tags(&id, &tags);
                    proof {
                        assert(strs_view(tags@) == scan_tags(fv));
                        assert(id.value == scan_id(fv));
                        lemma_walk_tags_sync(pairs_before, self.note_tag_pairs(), files, k as int);
                    }
                    let ws = crate::links::parse(body.as_str());
                    let ghost qb = queue@;
                    queue.push((id, ws));
                    proof {
                        lemma_queue_push(qf, files, k as int);
                        qf = qf.push(k as int);
                        assert(body@ == scan_body(fv));
                        assert forall|q: int|
                            0 <= q < queue.len() implies (#[trigger] queue@[q]).0.value == scan_id(files[qf[q]])
                                && wikilink_views(queue@[q].1@) == wikilinks(scan_body(files[qf[q]])) by {
                            if q < qb.len() {
                                assert(queue@[q] == qb[q]);
                            }
                        }
                    }
                },
            }
            k += 1;
        }
        assert(files.take(files.len() as int) =~= files);
        let ghost after_walk = self.files@;
        let ghost walked_notes = self.notes@;
        let ghost walked_pairs = self.note_tag_pairs();
        proof {
            lemma_walk_rows_done(walked_notes, before.notes@, oldf, files);
            assert(file_paths(oldf).take(0) =~= Seq::<Seq<char>>::empty());
        }
        // Files no longer on disk.
        let mut deleted: usize = 0;
        let mut m: usize = 0;
        while m < prior.len()
            invariant
                m <= prior.len(),
                files == scan.files@,
                rels == scan_rels(files),
                strs_view(prior@) == file_paths(oldf),
                self.wf(),
                deleted == count_deleted(file_paths(oldf).take(m as int), rels),
                deleted <= m,
                forall|p: Seq<char>|
                    #[trigger] file_paths(self.files@).contains(p) <==> file_paths(after_walk).contains(p)
                        && !(file_paths(oldf).take(m as int).contains(p) && !rels.contains(p)),
                forall|r: NoteRow| #[trigger] self.notes@.contains(r) ==> walked_notes.contains(r),
                forall|r: NoteRow| walked_notes.contains(r) && rels.contains(r.path@) ==> #[trigger] self.notes@.contains(r),
                forall|x: (u128, Seq<char>)|
                    note_ids(self.notes@).contains(x.0) ==> (#[trigger] self.note_tag_pairs().contains(x)
                        <==> walked_pairs.contains(x)),
                queue_of_walk(qf, files, files.len() as int),
                qf.len() == queue.len(),
                forall|q: int|
                    0 <= q < queue.len() ==> (#[trigger] queue@[q]).0.value == scan_id(files[qf[q]])
                        && wikilink_views(queue@[q].1@) == wikilinks(scan_body(files[qf[q]])),
                orphans_gone(*self, before.notes@, oldf, files, file_paths(oldf).take(m as int)),
                rows_mirror(self.notes@, before.notes@, oldf, files),
                rows_fresh(walked_notes, files, oldf, files.len() as int),
                rows_known(self.notes@, before.notes@, files),
                file_paths(oldf).no_duplicates(),
                self.reminders@ == before.reminders@,
            decreases prior.len() - m,
        {
            let ghost pm = file_paths(oldf)[m as int];
            assert(strs_view(prior@)[m as int] == prior@[m as int]@);
            let ghost t = file_paths(oldf).take(m + 1);
            assert(t.drop_last() =~= file_paths(oldf).take(m as int));
            assert(t.last() == pm);
            let ghost prev_notes = self.notes@;
            let ghost prev_pairs = self.note_tag_pairs();
            let ghost prev_idx = *self;
            assert(!file_paths(oldf).take(m as int).contains(pm)) by {
                if file_paths(oldf).take(m as int).contains(pm) {
                    let i2 = choose|i2: int| 0 <= i2 < m && file_paths(oldf).take(m as int)[i2] == pm;
                    assert(file_paths(oldf)[i2] == file_paths(oldf)[m as int]);
                }
            }
            assert(t =~= file_paths(oldf).take(m as int).push(pm));
            if !seen_path(&scan.files, prior[m].as_str()) {
                self.delete_path(prior[m].as_str());
                deleted += 1;
                proof {
                    lemma_orphans_delete_step(prev_idx, *self, before.notes@, oldf, files, file_paths(oldf).take(m as int), pm);
                    lemma_rows_mirror_shrink(prev_notes, self.notes@, walked_notes, before.notes@, oldf, files, pm);
                    assert forall|x: (u128, Seq<char>)|
                        note_ids(self.notes@).contains(x.0) implies (#[trigger] self.note_tag_pairs().contains(x)
                            <==> walked_pairs.contains(x)) by {
                        lemma_note_ids_subset(prev_notes, self.notes@, x.0);
                        assert(self.note_tag_pairs().contains(x) <==> prev_pairs.contains(x));
                    }
                }
            } else {
                proof {
                    assert(rels.contains(pm));
                    lemma_orphans_seen(*self, before.notes@, oldf, files, file_paths(oldf).take(m as int), pm);
                }
            }
            proof {
                assert forall|p: Seq<char>| #[trigger] file_paths(self.files@).contains(p) <==> file_paths(after_walk).contains(p)
                    && !(t.contains(p) && !rels.contains(p)) by {
                    crate::query::lemma_push_contains(file_paths(oldf).take(m as int), pm, p);
                    assert(t =~= file_paths(oldf).take(m as int).push(pm));
                }
            }
            m += 1;
        }
        assert(file_paths(oldf).take(oldf.len() as int) =~= file_paths(oldf));
        let ghost after_delete = self.files@;
        let ghost kept_notes = self.notes@;
        let ghost kept_tags = self.note_tags@;
        proof {
            lemma_rows_fresh_shrink(walked_notes, kept_notes, files, oldf);
        }
        // Resolve wikilinks now that every note row exists.
        let mut q: usize = 0;
        while q < queue.len()
            invariant
                q <= queue.len(),
                self.wf(),
                self.files@ == after_delete,
                self.notes@ == kept_notes,
                self.note_tags@ == kept_tags,
                files == scan.files@,
                queue_of_walk(qf, files, files.len() as int),
                qf.len() == queue.len(),
                forall|q: int|
                    0 <= q < queue.len() ==> (#[trigger] queue@[q]).0.value == scan_id(files[qf[q]])
                        && wikilink_views(queue@[q].1@) == wikilinks(scan_body(files[qf[q]])),
                links_upto(link_views(self.links@), kept_notes, files, qf, q as int),
                orphans_gone(*self, before.notes@, oldf, files, file_paths(oldf)),
                self.reminders@ == before.reminders@,
            decreases queue.len() - q,
        {
            let (id, ws) = &queue[q];
            let ghost lb = link_views(self.links@);
            let ghost lidx = *self;
            self.sync_note_links(id, ws);
            proof {
                assert(queue@[q as int].0 == *id);
                assert(0 <= qf[q as int] < files.len() && scanned_note(files[qf[q as int]]) is Some);
                lemma_orphans_links(lidx, *self, before.notes@, oldf, files, file_paths(oldf), qf[q as int], wikilink_views(ws@));
                lemma_links_step(lb, link_views(self.links@), kept_notes, files, qf, q as int, id.value, wikilink_views(ws@));
            }
            q += 1;
        }
        proof {
            lemma_links_done(link_views(self.links@), kept_notes, files, qf);
        }
        let ghost linked = *self;
        let _ = crate::tags::purge_orphan_tags(self);
        let ghost purged = *self;
        self.store_manifest_hash(&manifest);
        proof {
            lemma_tags_fresh_after_walk(walked_pairs, self.note_tag_pairs(), self.notes@, files);
            assert forall|r: NoteRow| #[trigger] orphaned_row(before.notes@, oldf, files, r) implies id_absent(*self, r.id.value) by {
                assert(id_absent(linked, r.id.value));
                assert(self.note_tag_pairs() == linked.note_tag_pairs());
            }
            assert forall|p: Seq<char>| #[trigger] file_paths(self.files@).contains(p) <==> (file_paths(oldf).contains(p) && rels.contains(p)) || parsed_at(files, p) by {
                if parsed_at(files, p) {
                    lemma_parsed_at_seen(files, p);
                }
            }
        }
        ReconcileSummary { inserted, updated, deleted }
    }
}

} // verus!
