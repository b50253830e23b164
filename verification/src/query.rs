//! Four-mode tag query algebra.
//!
//! Given a selected tag set `S = {T1, T2, ...}`:
//!   * Strict Intersection      A ∩ B                   literal AND
//!   * Recursive Intersection   Branch(A) ∩ Branch(B)   ← default
//!   * Strict Union             A ∪ B                   literal OR
//!   * Recursive Union          Branch(A) ∪ Branch(B)
//!
//! `Branch(T)` is every note carrying `T` or a tag below it in the
//! hierarchy. Results come back newest first, so the timeline view can
//! render them without a re-sort.
use vstd::prelude::*;

use crate::ids::NoteId;
use crate::index::{find_str, strs_view, Index, NoteRow};
use crate::tags::{ancestor_or_self, is_ancestor_or_self};
use crate::text::{
    ascii_lower, chars_of, compare_chars, compare_str, fold_case, folded, lemma_fold_idempotent, lemma_seq_lt_asymmetric, lemma_seq_lt_total, lemma_seq_lt_transitive, seq_lt, str_eq, Lex,
};

verus! {

/// Errors from the query layer.
#[derive(Debug)]
pub enum QueryError {
    InvalidId(String),
}

/// All four modes the query engine supports.
#[derive(Debug, Clone, Copy, PartialEq, Eq, Structural)]
pub enum QueryMode {
    StrictIntersection,
    /// The default mode.
    RecursiveIntersection,
    StrictUnion,
    RecursiveUnion,
}

impl Default for QueryMode {
    fn default() -> (r: QueryMode)
        ensures
            r == QueryMode::RecursiveIntersection,
    {
        QueryMode::RecursiveIntersection
    }
}

/// The wire name of a mode (snake case).
pub open spec fn mode_wire_name(m: QueryMode) -> Seq<char> {
    match m {
        QueryMode::StrictIntersection => "strict_intersection"@,
        QueryMode::RecursiveIntersection => "recursive_intersection"@,
        QueryMode::StrictUnion => "strict_union"@,
        QueryMode::RecursiveUnion => "recursive_union"@,
    }
}

impl QueryMode {
    /// The name the frontend sends for this mode.
    pub fn wire_name(&self) -> (r: &'static str)
        ensures
            r@ == mode_wire_name(*self),
    {
        match self {
            QueryMode::StrictIntersection => "strict_intersection",
            QueryMode::RecursiveIntersection => "recursive_intersection",
            QueryMode::StrictUnion => "strict_union",
            QueryMode::RecursiveUnion => "recursive_union",
        }
    }

    /// The mode a wire name stands for, if any.
    pub fn from_wire_name(s: &str) -> (r: Option<QueryMode>)
        ensures
            r matches Some(m) ==> mode_wire_name(m) == s@,
            r is None ==> forall|m: QueryMode| mode_wire_name(m) != s@,
    {
        if str_eq(s, "strict_intersection") {
            Some(QueryMode::StrictIntersection)
        } else if str_eq(s, "recursive_intersection") {
            Some(QueryMode::RecursiveIntersection)
        } else if str_eq(s, "strict_union") {
            Some(QueryMode::StrictUnion)
        } else if str_eq(s, "recursive_union") {
            Some(QueryMode::RecursiveUnion)
        } else {
            proof {
                assert forall|m: QueryMode| mode_wire_name(m) != s@ by {
                    match m {
                        QueryMode::StrictIntersection => {},
                        QueryMode::RecursiveIntersection => {},
                        QueryMode::StrictUnion => {},
                        QueryMode::RecursiveUnion => {},
                    }
                }
            }
            None
        }
    }
}

/// One row returned by [`search_by_title_prefix`]: the title to display and
/// the id to insert as `[[<ulid>]]`.
#[derive(Debug, Clone, PartialEq, Eq)]
pub struct TitleHit {
    pub id: NoteId,
    pub title: String,
}

// ───────────────────────── which notes match ───────────────────────────

/// Note `id` carries the literal tag `t`.
pub open spec fn has_literal(pairs: Seq<(u128, Seq<char>)>, id: u128, t: Seq<char>) -> bool {
    pairs.contains((id, t))
}

/// The pair `p` puts note `id` in the branch of `t`: its tag is a known tag
/// and `t` is that tag or one of its ancestors (a `tag_closure` row).
pub open spec fn branch_hit(
    p: (u128, Seq<char>),
    tag_table: Seq<Seq<char>>,
    id: u128,
    t: Seq<char>,
) -> bool {
    p.0 == id && tag_table.contains(p.1) && is_ancestor_or_self(t, p.1)
}

/// Note `id` carries some tag in the branch of `t`.
pub open spec fn has_in_branch(
    pairs: Seq<(u128, Seq<char>)>,
    tag_table: Seq<Seq<char>>,
    id: u128,
    t: Seq<char>,
) -> bool {
    exists|i: int| 0 <= i < pairs.len() && branch_hit(#[trigger] pairs[i], tag_table, id, t)
}

/// Note `id` is selected by `sel` under `mode`. An empty selection selects
/// nothing.
pub open spec fn query_matches(
    pairs: Seq<(u128, Seq<char>)>,
    tag_table: Seq<Seq<char>>,
    sel: Seq<Seq<char>>,
    mode: QueryMode,
    id: u128,
) -> bool {
    &&& sel.len() > 0
    &&& match mode {
        QueryMode::StrictIntersection => forall|j: int|
            0 <= j < sel.len() ==> has_literal(pairs, id, #[trigger] sel[j]),
        QueryMode::RecursiveIntersection => forall|j: int|
            0 <= j < sel.len() ==> has_in_branch(pairs, tag_table, id, #[trigger] sel[j]),
        QueryMode::StrictUnion => exists|j: int|
            0 <= j < sel.len() && has_literal(pairs, id, #[trigger] sel[j]),
        QueryMode::RecursiveUnion => exists|j: int|
            0 <= j < sel.len() && has_in_branch(pairs, tag_table, id, #[trigger] sel[j]),
    }
}

/// The rows of `notes` selected by the query, in table order.
pub open spec fn matching_rows(
    notes: Seq<NoteRow>,
    pairs: Seq<(u128, Seq<char>)>,
    tag_table: Seq<Seq<char>>,
    sel: Seq<Seq<char>>,
    mode: QueryMode,
) -> Seq<NoteRow>
    decreases notes.len(),
{
    if notes.len() == 0 {
        Seq::empty()
    } else {
        let rest = matching_rows(notes.drop_last(), pairs, tag_table, sel, mode);
        if query_matches(pairs, tag_table, sel, mode, notes.last().id.value) {
            rest.push(notes.last())
        } else {
            rest
        }
    }
}

// ───────────────────────── newest-first ordering ───────────────────────

/// The first position from `i` on whose entry was created strictly before
/// `c`; `keys.len()` when there is none.
pub open spec fn desc_slot(keys: Seq<Seq<char>>, c: Seq<char>, i: int) -> int
    decreases keys.len() - i,
{
    if i < 0 || i >= keys.len() {
        keys.len() as int
    } else if seq_lt(keys[i], c) {
        i
    } else {
        desc_slot(keys, c, i + 1)
    }
}

/// The creation stamps of `rows`.
pub open spec fn created_keys(rows: Seq<NoteRow>) -> Seq<Seq<char>> {
    rows.map_values(|r: NoteRow| r.created@)
}

/// `rows` ordered by `created`, newest first; rows created at the same
/// instant keep their table order.
pub open spec fn newest_first(rows: Seq<NoteRow>) -> Seq<NoteRow>
    decreases rows.len(),
{
    if rows.len() == 0 {
        Seq::empty()
    } else {
        let sorted = newest_first(rows.drop_last());
        sorted.insert(desc_slot(created_keys(sorted), rows.last().created@, 0), rows.last())
    }
}

/// The ids of `rows`.
pub open spec fn row_ids(rows: Seq<NoteRow>) -> Seq<u128> {
    rows.map_values(|r: NoteRow| r.id.value)
}

/// The selected rows of the index, newest first.
pub open spec fn query_rows(index: &Index, sel: Seq<Seq<char>>, mode: QueryMode) -> Seq<NoteRow> {
    newest_first(matching_rows(index.notes@, index.note_tag_pairs(), index.tag_paths(), sel, mode))
}

/// What [`find_notes`] returns: the ids of the selected notes of the index,
/// newest first.
pub open spec fn query_result(index: &Index, sel: Seq<Seq<char>>, mode: QueryMode) -> Seq<u128> {
    row_ids(query_rows(index, sel, mode))
}

/// The values of a list of ids.
pub open spec fn id_values(ids: Seq<NoteId>) -> Seq<u128> {
    ids.map_values(|n: NoteId| n.value)
}

// ───────────────────────── executable matchers ─────────────────────────

/// Whether note `id` carries literal tag `t`.
fn carries_literal(index: &Index, id: u128, t: &str) -> (r: bool)
    ensures
        r == has_literal(index.note_tag_pairs(), id, t@),
{
    let ghost pairs = index.note_tag_pairs();
    let mut k: usize = 0;
    while k < index.note_tags.len()
        invariant
            k <= index.note_tags.len(),
            pairs == index.note_tag_pairs(),
            forall|m: int| 0 <= m < k ==> pairs[m] != (id, t@),
        decreases index.note_tags.len() - k,
    {
        assert(pairs[k as int] == (index.note_tags@[k as int].note_id.value, index.note_tags@[k as int].tag_path@));
        if index.note_tags[k].note_id.value == id && str_eq(index.note_tags[k].tag_path.as_str(), t) {
            assert(pairs[k as int] == (id, t@));
            return true;
        }
        k += 1;
    }
    proof {
        if pairs.contains((id, t@)) {
            let m = choose|m: int| 0 <= m < pairs.len() && pairs[m] == (id, t@);
            assert(pairs[m] != (id, t@));
        }
    }
    false
}

/// Whether note `id` carries some tag in the branch of `t`.
fn carries_in_branch(index: &Index, id: u128, t: &Vec<char>) -> (r: bool)
    ensures
        r == has_in_branch(index.note_tag_pairs(), index.tag_paths(), id, t@),
{
    let ghost pairs = index.note_tag_pairs();
    let ghost table = index.tag_paths();
    let mut k: usize = 0;
    while k < index.note_tags.len()
        invariant
            k <= index.note_tags.len(),
            pairs == index.note_tag_pairs(),
            table == index.tag_paths(),
            forall|m: int| 0 <= m < k ==> !branch_hit(#[trigger] pairs[m], table, id, t@),
        decreases index.note_tags.len() - k,
    {
        let row = &index.note_tags[k];
        assert(pairs[k as int] == (row.note_id.value, row.tag_path@));
        if row.note_id.value == id {
            let known = find_str(&index.tags, row.tag_path.as_str());
            if known.is_some() {
                let p = chars_of(row.tag_path.as_str());
                if ancestor_or_self(t, &p) {
                    proof {
                        let i = known->0;
                        assert(table[i as int] == row.tag_path@);
                        assert(table.contains(row.tag_path@));
                        assert(branch_hit(pairs[k as int], table, id, t@));
                    }
                    return true;
                }
            }
        }
        k += 1;
    }
    false
}

/// Whether note `id` is selected by `tags` under `mode`.
fn note_matches(index: &Index, tags: &[String], mode: QueryMode, id: u128) -> (r: bool)
    ensures
        r == query_matches(
            index.note_tag_pairs(),
            index.tag_paths(),
            strs_view(tags@),
            mode,
            id,
        ),
{
    let ghost pairs = index.note_tag_pairs();
    let ghost table = index.tag_paths();
    let ghost sel = strs_view(tags@);
    if tags.len() == 0 {
        return false;
    }
    let want_all = match mode {
        QueryMode::StrictIntersection => true,
        QueryMode::RecursiveIntersection => true,
        _ => false,
    };
    let recursive = match mode {
        QueryMode::RecursiveIntersection => true,
        QueryMode::RecursiveUnion => true,
        _ => false,
    };
    let mut j: usize = 0;
    while j < tags.len()
        invariant
            j <= tags.len(),
            sel == strs_view(tags@),
            pairs == index.note_tag_pairs(),
            table == index.tag_paths(),
            want_all <==> (mode == QueryMode::StrictIntersection || mode
                == QueryMode::RecursiveIntersection),
            recursive <==> (mode == QueryMode::RecursiveIntersection || mode
                == QueryMode::RecursiveUnion),
            forall|m: int|
                0 <= m < j ==> (if recursive {
                    has_in_branch(pairs, table, id, #[trigger] sel[m])
                } else {
                    has_literal(pairs, id, sel[m])
                }) == want_all,
        decreases tags.len() - j,
    {
        let hit = if recursive {
            let t = chars_of(tags[j].as_str());
            carries_in_branch(index, id, &t)
        } else {
            carries_literal(index, id, tags[j].as_str())
        };
        assert(sel[j as int] == tags@[j as int]@);
        if hit != want_all {
            return !want_all;
        }
        j += 1;
    }
    want_all
}

/// Position, in the newest-first list `order` (positions into the notes
/// table), where note `k` belongs.
fn newest_first_slot(index: &Index, order: &Vec<usize>, k: usize) -> (r: usize)
    requires
        k < index.notes.len(),
        forall|i: int| 0 <= i < order.len() ==> order@[i] < index.notes.len(),
    ensures
        r <= order.len(),
        r == desc_slot(
            created_keys(order@.map_values(|i: usize| index.notes@[i as int])),
            index.notes@[k as int].created@,
            0,
        ),
{
    let ghost keys = created_keys(order@.map_values(|i: usize| index.notes@[i as int]));
    let ghost c = index.notes@[k as int].created@;
    let mut i: usize = 0;
    while i < order.len()
        invariant
            i <= order.len(),
            k < index.notes.len(),
            forall|m: int| 0 <= m < order.len() ==> order@[m] < index.notes.len(),
            keys == created_keys(order@.map_values(|i: usize| index.notes@[i as int])),
            c == index.notes@[k as int].created@,
            keys.len() == order.len(),
            desc_slot(keys, c, 0) == desc_slot(keys, c, i as int),
        decreases order.len() - i,
    {
        let pos = order[i];
        assert(keys[i as int] == index.notes@[pos as int].created@);
        match compare_str(index.notes[pos].created.as_str(), index.notes[k].created.as_str()) {
            Lex::Before => {
                return i;
            },
            _ => {},
        }
        i += 1;
    }
    i
}

/// The rows `order` points at in `notes`.
pub open spec fn rows_at(notes: Seq<NoteRow>, order: Seq<usize>) -> Seq<NoteRow> {
    order.map_values(|i: usize| notes[i as int])
}

/// Positions, in the notes table, of the rows a query selects, newest first.
pub(crate) fn query_order(index: &Index, tags: &[String], mode: QueryMode) -> (order: Vec<usize>)
    ensures
        forall|i: int| 0 <= i < order.len() ==> order@[i] < index.notes.len(),
        rows_at(index.notes@, order@) == query_rows(index, strs_view(tags@), mode),
{
    let ghost pairs = index.note_tag_pairs();
    let ghost table = index.tag_paths();
    let ghost sel = strs_view(tags@);
    let ghost notes = index.notes@;
    let mut order: Vec<usize> = Vec::new();
    let mut k: usize = 0;
    assert(order@.map_values(|i: usize| notes[i as int]) =~= newest_first(
        matching_rows(notes.take(0), pairs, table, sel, mode),
    ));
    while k < index.notes.len()
        invariant
            k <= index.notes.len(),
            notes == index.notes@,
            pairs == index.note_tag_pairs(),
            table == index.tag_paths(),
            sel == strs_view(tags@),
            forall|i: int| 0 <= i < order.len() ==> order@[i] < k,
            order@.map_values(|i: usize| notes[i as int]) == newest_first(
                matching_rows(notes.take(k as int), pairs, table, sel, mode),
            ),
        decreases index.notes.len() - k,
    {
        let ghost before = order@.map_values(|i: usize| notes[i as int]);
        assert(notes.take(k + 1).drop_last() =~= notes.take(k as int));
        assert(notes.take(k + 1).last() == notes[k as int]);
        if note_matches(index, tags, mode, index.notes[k].id.value) {
            let p = newest_first_slot(index, &order, k);
            order.insert(p, k);
            assert(order@.map_values(|i: usize| notes[i as int]) =~= before.insert(
                p as int,
                notes[k as int],
            ));
            proof {
                let rest = matching_rows(notes.take(k as int), pairs, table, sel, mode);
                let grown = matching_rows(notes.take(k + 1), pairs, table, sel, mode);
                assert(grown == rest.push(notes[k as int]));
                assert(grown.drop_last() =~= rest);
                assert(grown.last() == notes[k as int]);
            }
        } else {
            assert(matching_rows(notes.take(k + 1), pairs, table, sel, mode) == matching_rows(
                notes.take(k as int),
                pairs,
                table,
                sel,
                mode,
            ));
        }
        k += 1;
    }
    assert(notes.take(notes.len() as int) =~= notes);
    order
}

/// Run a tag query in `mode` over the index. Returns matching note ids
/// ordered by `created` descending (newest first).
pub fn find_notes(index: &Index, tags: &[String], mode: QueryMode) -> (r: Result<
    Vec<NoteId>,
    QueryError,
>)
    ensures
        r matches Ok(ids) && id_values(ids@) == query_result(index, strs_view(tags@), mode),
{
    let ghost notes = index.notes@;
    let order = query_order(index, tags, mode);
    let ghost rows = order@.map_values(|i: usize| notes[i as int]);
    assert(rows == rows_at(notes, order@));
    let mut out: Vec<NoteId> = Vec::new();
    let mut j: usize = 0;
    while j < order.len()
        invariant
            j <= order.len(),
            notes == index.notes@,
            rows == order@.map_values(|i: usize| notes[i as int]),
            forall|i: int| 0 <= i < order.len() ==> order@[i] < notes.len(),
            id_values(out@) == row_ids(rows.take(j as int)),
        decreases order.len() - j,
    {
        let ghost prev = out@;
        out.push(index.notes[order[j]].id);
        assert(id_values(out@) =~= id_values(prev).push(rows[j as int].id.value));
        assert(row_ids(rows.take(j + 1)) =~= row_ids(rows.take(j as int)).push(
            rows[j as int].id.value,
        ));
        j += 1;
    }
    assert(rows.take(rows.len() as int) =~= rows);
    Ok(out)
}

// ───────────────────────── title-prefix search ─────────────────────────

/// The most rows a title search returns.
pub const TITLE_SEARCH_CAP: usize = 50;

/// `title` starts with `prefix`, ASCII case ignored.
pub open spec fn has_prefix_nocase(title: Seq<char>, prefix: Seq<char>) -> bool {
    &&& prefix.len() <= title.len()
    &&& fold_case(title.take(prefix.len() as int)) == fold_case(prefix)
}

/// `r` has a title and it starts with `prefix`, ASCII case ignored.
pub open spec fn titled_with_prefix(r: NoteRow, prefix: Seq<char>) -> bool {
    match r.title {
        Some(t) => has_prefix_nocase(t@, prefix),
        None => false,
    }
}

/// The rows of `notes` with a title that starts with `prefix`, in table order.
pub open spec fn prefix_rows(notes: Seq<NoteRow>, prefix: Seq<char>) -> Seq<NoteRow>
    decreases notes.len(),
{
    if notes.len() == 0 {
        Seq::empty()
    } else {
        let rest = prefix_rows(notes.drop_last(), prefix);
        match notes.last().title {
            Some(t) => if has_prefix_nocase(t@, prefix) {
                rest.push(notes.last())
            } else {
                rest
            },
            None => rest,
        }
    }
}

/// The case-folded title of a row (empty for an untitled row).
pub open spec fn title_key(r: NoteRow) -> Seq<char> {
    match r.title {
        Some(t) => fold_case(t@),
        None => Seq::empty(),
    }
}

/// The first position from `i` on whose key sorts strictly after `k`;
/// `keys.len()` when there is none.
pub open spec fn asc_slot(keys: Seq<Seq<char>>, k: Seq<char>, i: int) -> int
    decreases keys.len() - i,
{
    if i < 0 || i >= keys.len() {
        keys.len() as int
    } else if seq_lt(k, keys[i]) {
        i
    } else {
        asc_slot(keys, k, i + 1)
    }
}

/// `rows` ordered by case-folded title; equal titles keep table order.
pub open spec fn by_title(rows: Seq<NoteRow>) -> Seq<NoteRow>
    decreases rows.len(),
{
    if rows.len() == 0 {
        Seq::empty()
    } else {
        let sorted = by_title(rows.drop_last());
        sorted.insert(
            asc_slot(sorted.map_values(|r: NoteRow| title_key(r)), title_key(rows.last()), 0),
            rows.last(),
        )
    }
}

/// The number of rows a title search may return for `limit`.
pub open spec fn title_limit(limit: usize) -> int {
    if limit < TITLE_SEARCH_CAP {
        limit as int
    } else {
        TITLE_SEARCH_CAP as int
    }
}

/// The rows [`search_by_title_prefix`] returns: none for an empty prefix,
/// else the first `min(limit, 50)` titled rows matching the prefix, by
/// case-folded title.
pub open spec fn title_search_rows(notes: Seq<NoteRow>, prefix: Seq<char>, limit: usize) -> Seq<NoteRow> {
    if prefix.len() == 0 {
        Seq::empty()
    } else {
        let all = by_title(prefix_rows(notes, prefix));
        if all.len() <= title_limit(limit) {
            all
        } else {
            all.take(title_limit(limit))
        }
    }
}

/// The view of a title hit.
pub open spec fn hit_view(h: TitleHit) -> (u128, Seq<char>) {
    (h.id.value, h.title@)
}

/// The hit a row yields.
pub open spec fn row_hit(r: NoteRow) -> (u128, Seq<char>) {
    (r.id.value, match r.title {
        Some(t) => t@,
        None => Seq::empty(),
    })
}

fn starts_with_nocase(title: &str, prefix: &Vec<char>) -> (r: bool)
    requires
        forall|i: int| 0 <= i < prefix.len() ==> ascii_lower(#[trigger] prefix@[i]) == prefix@[i],
    ensures
        r == has_prefix_nocase(title@, prefix@),
{
    let t = folded(title);
    if t.len() < prefix.len() {
        return false;
    }
    let mut k: usize = 0;
    while k < prefix.len()
        invariant
            k <= prefix.len() <= t.len(),
            t@ == fold_case(title@),
            forall|i: int| 0 <= i < prefix.len() ==> ascii_lower(#[trigger] prefix@[i]) == prefix@[i],
            forall|i: int| 0 <= i < k ==> t@[i] == prefix@[i],
        decreases prefix.len() - k,
    {
        if t[k] != prefix[k] {
            assert(fold_case(title@.take(prefix.len() as int))[k as int] == t@[k as int]);
            assert(fold_case(prefix@)[k as int] == prefix@[k as int]);
            return false;
        }
        k += 1;
    }
    assert(fold_case(title@.take(prefix.len() as int)) =~= fold_case(prefix@));
    true
}

/// Position, in the title-ordered list `order`, where note `k` belongs.
fn title_slot(index: &Index, order: &Vec<usize>, k: usize) -> (r: usize)
    requires
        k < index.notes.len(),
        forall|i: int| 0 <= i < order.len() ==> order@[i] < index.notes.len(),
    ensures
        r <= order.len(),
        r == asc_slot(
            order@.map_values(|i: usize| index.notes@[i as int]).map_values(
                |r: NoteRow| title_key(r),
            ),
            title_key(index.notes@[k as int]),
            0,
        ),
{
    let ghost keys = order@.map_values(|i: usize| index.notes@[i as int]).map_values(
        |r: NoteRow| title_key(r),
    );
    let ghost key = title_key(index.notes@[k as int]);
    let mine = match &index.notes[k].title {
        Some(t) => folded(t.as_str()),
        None => Vec::new(),
    };
    assert(mine@ =~= key);
    let mut i: usize = 0;
    while i < order.len()
        invariant
            i <= order.len(),
            k < index.notes.len(),
            forall|m: int| 0 <= m < order.len() ==> order@[m] < index.notes.len(),
            keys == order@.map_values(|i: usize| index.notes@[i as int]).map_values(
                |r: NoteRow| title_key(r),
            ),
            mine@ == key,
            key == title_key(index.notes@[k as int]),
            keys.len() == order.len(),
            asc_slot(keys, key, 0) == asc_slot(keys, key, i as int),
        decreases order.len() - i,
    {
        let pos = order[i];
        let other = match &index.notes[pos].title {
            Some(t) => folded(t.as_str()),
            None => Vec::new(),
        };
        assert(other@ =~= keys[i as int]);
        match compare_chars(&mine, &other) {
            Lex::Before => {
                assert(seq_lt(key, keys[i as int]));
                assert(asc_slot(keys, key, i as int) == i);
                return i;
            },
            _ => {},
        }
        i += 1;
    }
    i
}

/// Case-insensitive title-prefix search. An empty prefix returns no rows;
/// untitled notes never match. Results are ordered by title (ASCII case
/// ignored) and capped at `min(limit, 50)`.
pub fn search_by_title_prefix(index: &Index, prefix: &str, limit: usize) -> (r: Result<
    Vec<TitleHit>,
    QueryError,
>)
    ensures
        r matches Ok(hits) && hits@.map_values(|h: TitleHit| hit_view(h)) == title_search_rows(
            index.notes@,
            prefix@,
            limit,
        ).map_values(|r: NoteRow| row_hit(r)),
{
    let ghost notes = index.notes@;
    let pv = chars_of(prefix);
    if pv.len() == 0 {
        let out: Vec<TitleHit> = Vec::new();
        assert(out@.map_values(|h: TitleHit| hit_view(h)) =~= Seq::<(u128, Seq<char>)>::empty());
        return Ok(out);
    }
    let lim: usize = if limit < TITLE_SEARCH_CAP {
        limit
    } else {
        TITLE_SEARCH_CAP
    };
    let pf = folded(prefix);
    proof {
        lemma_fold_idempotent(prefix@);
    }
    let mut order: Vec<usize> = Vec::new();
    let mut k: usize = 0;
    assert(order@.map_values(|i: usize| notes[i as int]) =~= by_title(prefix_rows(notes.take(0), prefix@)));
    while k < index.notes.len()
        invariant
            k <= index.notes.len(),
            notes == index.notes@,
            pf@ == fold_case(prefix@),
            fold_case(pf@) == fold_case(prefix@),
            pf@.len() == prefix@.len(),
            forall|i: int| 0 <= i < pf.len() ==> ascii_lower(#[trigger] pf@[i]) == pf@[i],
            forall|i: int| 0 <= i < order.len() ==> order@[i] < k,
            order@.map_values(|i: usize| notes[i as int]) == by_title(
                prefix_rows(notes.take(k as int), prefix@),
            ),
        decreases index.notes.len() - k,
    {
        let ghost before = order@.map_values(|i: usize| notes[i as int]);
        assert(notes.take(k + 1).drop_last() =~= notes.take(k as int));
        assert(notes.take(k + 1).last() == notes[k as int]);
        let hit = match &index.notes[k].title {
            Some(t) => starts_with_nocase(t.as_str(), &pf),
            None => false,
        };
        proof {
            match notes[k as int].title {
                Some(t) => {
                    assert(fold_case(t@.take(pf@.len() as int)) == fold_case(pf@) <==> fold_case(
                        t@.take(prefix@.len() as int),
                    ) == fold_case(prefix@));
                },
                None => {},
            }
        }
        if hit {
            let p = title_slot(index, &order, k);
            order.insert(p, k);
            assert(order@.map_values(|i: usize| notes[i as int]) =~= before.insert(
                p as int,
                notes[k as int],
            ));
            proof {
                let rest = prefix_rows(notes.take(k as int), prefix@);
                let grown = prefix_rows(notes.take(k + 1), prefix@);
                assert(grown == rest.push(notes[k as int]));
                assert(grown.drop_last() =~= rest);
            }
        } else {
            assert(prefix_rows(notes.take(k + 1), prefix@) == prefix_rows(notes.take(k as int), prefix@));
        }
        k += 1;
    }
    assert(notes.take(notes.len() as int) =~= notes);
    let ghost all = order@.map_values(|i: usize| notes[i as int]);
    let ghost want = title_search_rows(notes, prefix@, limit);
    let n: usize = if order.len() < lim {
        order.len()
    } else {
        lim
    };
    assert(want =~= all.take(n as int));
    let mut out: Vec<TitleHit> = Vec::new();
    let mut j: usize = 0;
    while j < n
        invariant
            j <= n <= order.len(),
            notes == index.notes@,
            all == order@.map_values(|i: usize| notes[i as int]),
            forall|i: int| 0 <= i < order.len() ==> order@[i] < notes.len(),
            out@.map_values(|h: TitleHit| hit_view(h)) == all.take(j as int).map_values(
                |r: NoteRow| row_hit(r),
            ),
        decreases n - j,
    {
        let ghost prev = out@.map_values(|h: TitleHit| hit_view(h));
        let row = &index.notes[order[j]];
        assert(all[j as int] == *row);
        let title = match &row.title {
            Some(t) => t.clone(),
            None => String::new(),
        };
        out.push(TitleHit { id: row.id, title });
        assert(out@.map_values(|h: TitleHit| hit_view(h)) =~= prev.push(row_hit(all[j as int])));
        assert(all.take(j + 1).map_values(|r: NoteRow| row_hit(r)) =~= all.take(j as int).map_values(
            |r: NoteRow| row_hit(r),
        ).push(row_hit(all[j as int])));
        j += 1;
    }
    Ok(out)
}

// ───────────────────────── lemmas ──────────────────────────────────────

pub proof fn lemma_push_contains<A>(v: Seq<A>, a: A, x: A)
    ensures
        v.push(a).contains(x) <==> v.contains(x) || x == a,
{
    if v.contains(x) {
        let i = choose|i: int| 0 <= i < v.len() && v[i] == x;
        assert(v.push(a)[i] == x);
    }
    if x == a {
        assert(v.push(a)[v.len() as int] == a);
    }
    if v.push(a).contains(x) {
        let i = choose|i: int| 0 <= i < v.push(a).len() && v.push(a)[i] == x;
        if i < v.len() {
            assert(v[i] == x);
        }
    }
}

pub proof fn lemma_insert_contains<A>(v: Seq<A>, p: int, a: A, x: A)
    requires
        0 <= p <= v.len(),
    ensures
        v.insert(p, a).contains(x) <==> v.contains(x) || x == a,
        v.insert(p, a).len() == v.len() + 1,
{
    let w = v.insert(p, a);
    if v.contains(x) {
        let i = choose|i: int| 0 <= i < v.len() && v[i] == x;
        if i < p {
            assert(w[i] == x);
        } else {
            assert(w[i + 1] == x);
        }
    }
    if x == a {
        assert(w[p] == a);
    }
    if w.contains(x) {
        let i = choose|i: int| 0 <= i < w.len() && w[i] == x;
        if i < p {
            assert(v[i] == x);
        } else if i > p {
            assert(v[i - 1] == x);
        }
    }
}

/// The selected rows are exactly the rows of the table that match.
proof fn lemma_matching_contains(
    notes: Seq<NoteRow>,
    pairs: Seq<(u128, Seq<char>)>,
    table: Seq<Seq<char>>,
    sel: Seq<Seq<char>>,
    mode: QueryMode,
    r: NoteRow,
)
    ensures
        matching_rows(notes, pairs, table, sel, mode).contains(r) <==> notes.contains(r)
            && query_matches(pairs, table, sel, mode, r.id.value),
    decreases notes.len(),
{
    if notes.len() > 0 {
        lemma_matching_contains(notes.drop_last(), pairs, table, sel, mode, r);
        let rest = matching_rows(notes.drop_last(), pairs, table, sel, mode);
        lemma_push_contains(rest, notes.last(), r);
        assert(notes =~= notes.drop_last().push(notes.last()));
        lemma_push_contains(notes.drop_last(), notes.last(), r);
    }
}

/// The selected rows keep distinct ids distinct.
proof fn lemma_matching_ids_distinct(
    notes: Seq<NoteRow>,
    pairs: Seq<(u128, Seq<char>)>,
    table: Seq<Seq<char>>,
    sel: Seq<Seq<char>>,
    mode: QueryMode,
)
    requires
        row_ids(notes).no_duplicates(),
    ensures
        row_ids(matching_rows(notes, pairs, table, sel, mode)).no_duplicates(),
    decreases notes.len(),
{
    if notes.len() > 0 {
        let front = notes.drop_last();
        assert(row_ids(front) =~= row_ids(notes).drop_last());
        lemma_matching_ids_distinct(front, pairs, table, sel, mode);
        let rest = matching_rows(front, pairs, table, sel, mode);
        let x = notes.last();
        if query_matches(pairs, table, sel, mode, x.id.value) {
            let ids = row_ids(rest.push(x));
            assert(ids =~= row_ids(rest).push(x.id.value));
            assert forall|i: int, j: int| 0 <= i < j < ids.len() implies ids[i] != ids[j] by {
                if j == rest.len() {
                    let y = rest[i];
                    assert(rest.contains(y));
                    lemma_matching_contains(front, pairs, table, sel, mode, y);
                    let m = choose|m: int| 0 <= m < front.len() && front[m] == y;
                    assert(row_ids(notes)[m] == y.id.value);
                    assert(row_ids(notes)[notes.len() - 1] == x.id.value);
                }
            }
        }
    }
}

/// Facts about where [`desc_slot`] lands.
proof fn lemma_desc_slot(keys: Seq<Seq<char>>, c: Seq<char>, i: int)
    requires
        0 <= i <= keys.len(),
    ensures
        i <= desc_slot(keys, c, i) <= keys.len(),
        forall|m: int| i <= m < desc_slot(keys, c, i) ==> !seq_lt(#[trigger] keys[m], c),
        desc_slot(keys, c, i) < keys.len() ==> seq_lt(keys[desc_slot(keys, c, i)], c),
    decreases keys.len() - i,
{
    if i < keys.len() && !seq_lt(keys[i], c) {
        lemma_desc_slot(keys, c, i + 1);
    }
}

/// Newest-first ordering keeps the rows and their number.
proof fn lemma_newest_first_contains(rows: Seq<NoteRow>, r: NoteRow)
    ensures
        newest_first(rows).contains(r) <==> rows.contains(r),
        newest_first(rows).len() == rows.len(),
    decreases rows.len(),
{
    if rows.len() > 0 {
        let front = rows.drop_last();
        lemma_newest_first_contains(front, r);
        let sorted = newest_first(front);
        let keys = created_keys(sorted);
        lemma_desc_slot(keys, rows.last().created@, 0);
        lemma_insert_contains(sorted, desc_slot(keys, rows.last().created@, 0), rows.last(), r);
        assert(rows =~= front.push(rows.last()));
        lemma_push_contains(front, rows.last(), r);
    }
}

/// Newest-first ordering keeps distinct ids distinct.
proof fn lemma_newest_first_ids_distinct(rows: Seq<NoteRow>)
    requires
        row_ids(rows).no_duplicates(),
    ensures
        row_ids(newest_first(rows)).no_duplicates(),
    decreases rows.len(),
{
    if rows.len() > 0 {
        let front = rows.drop_last();
        assert(row_ids(front) =~= row_ids(rows).drop_last());
        lemma_newest_first_ids_distinct(front);
        let sorted = newest_first(front);
        let x = rows.last();
        let keys = created_keys(sorted);
        let p = desc_slot(keys, x.created@, 0);
        lemma_desc_slot(keys, x.created@, 0);
        lemma_newest_first_contains(front, x);
        let out = sorted.insert(p, x);
        let ids = row_ids(out);
        assert forall|i: int, j: int| 0 <= i < j < ids.len() implies ids[i] != ids[j] by {
            if i != p && j != p {
                let a = if i < p { i } else { i - 1 };
                let b = if j < p { j } else { j - 1 };
                assert(out[i] == sorted[a]);
                assert(out[j] == sorted[b]);
                assert(row_ids(sorted)[a] != row_ids(sorted)[b]);
            } else {
                let o = if i == p { j } else { i };
                let a = if o < p { o } else { o - 1 };
                let y = sorted[a];
                assert(out[o] == y);
                assert(sorted.contains(y));
                lemma_newest_first_contains(front, y);
                let m = choose|m: int| 0 <= m < front.len() && front[m] == y;
                assert(row_ids(rows)[m] == y.id.value);
                assert(row_ids(rows)[rows.len() - 1] == x.id.value);
            }
        }
    }
}

/// Newest-first ordering is ordered: no entry was created before a later one.
proof fn lemma_newest_first_sorted(rows: Seq<NoteRow>)
    ensures
        forall|i: int, j: int|
            0 <= i < j < newest_first(rows).len() ==> !seq_lt(
                #[trigger] newest_first(rows)[i].created@,
                #[trigger] newest_first(rows)[j].created@,
            ),
    decreases rows.len(),
{
    if rows.len() > 0 {
        let front = rows.drop_last();
        lemma_newest_first_sorted(front);
        let sorted = newest_first(front);
        let x = rows.last();
        let c = x.created@;
        let keys = created_keys(sorted);
        let p = desc_slot(keys, c, 0);
        lemma_desc_slot(keys, c, 0);
        let out = sorted.insert(p, x);
        assert(out == newest_first(rows));
        assert forall|i: int, j: int| 0 <= i < j < out.len() implies !seq_lt(
            out[i].created@,
            out[j].created@,
        ) by {
            if i != p && j != p {
                let a = if i < p { i } else { i - 1 };
                let b = if j < p { j } else { j - 1 };
                assert(out[i] == sorted[a]);
                assert(out[j] == sorted[b]);
                assert(!seq_lt(sorted[a].created@, sorted[b].created@));
            } else if j == p {
                assert(out[i] == sorted[i]);
                assert(keys[i] == sorted[i].created@);
                assert(!seq_lt(keys[i], c));
            } else {
                let b = j - 1;
                assert(out[j] == sorted[b]);
                assert(p < keys.len());
                assert(seq_lt(keys[p], c));
                let kb = sorted[b].created@;
                assert(keys[b] == kb);
                if b > p {
                    assert(!seq_lt(sorted[p].created@, sorted[b].created@));
                    lemma_seq_lt_total(kb, keys[p]);
                    if seq_lt(kb, keys[p]) {
                        lemma_seq_lt_transitive(kb, keys[p], c);
                    }
                }
                assert(seq_lt(kb, c));
                lemma_seq_lt_asymmetric(kb, c);
            }
        }
    }
}

/// Two modes that select the same notes give the same rows.
proof fn lemma_matching_same(
    notes: Seq<NoteRow>,
    pairs: Seq<(u128, Seq<char>)>,
    table: Seq<Seq<char>>,
    sel: Seq<Seq<char>>,
    m1: QueryMode,
    m2: QueryMode,
)
    requires
        forall|id: u128|
            query_matches(pairs, table, sel, m1, id) == query_matches(pairs, table, sel, m2, id),
    ensures
        matching_rows(notes, pairs, table, sel, m1) == matching_rows(notes, pairs, table, sel, m2),
    decreases notes.len(),
{
    if notes.len() > 0 {
        lemma_matching_same(notes.drop_last(), pairs, table, sel, m1, m2);
        assert(query_matches(pairs, table, sel, m1, notes.last().id.value) == query_matches(
            pairs,
            table,
            sel,
            m2,
            notes.last().id.value,
        ));
    }
}

/// With nothing selected no row matches.
proof fn lemma_matching_empty_selection(
    notes: Seq<NoteRow>,
    pairs: Seq<(u128, Seq<char>)>,
    table: Seq<Seq<char>>,
    mode: QueryMode,
)
    ensures
        matching_rows(notes, pairs, table, Seq::empty(), mode).len() == 0,
    decreases notes.len(),
{
    if notes.len() > 0 {
        lemma_matching_empty_selection(notes.drop_last(), pairs, table, mode);
    }
}

/// A note is in the result exactly when the index has a row for it that
/// the query selects.
proof fn lemma_result_contains(index: &Index, sel: Seq<Seq<char>>, mode: QueryMode, id: u128)
    ensures
        query_result(index, sel, mode).contains(id) <==> exists|i: int|
            0 <= i < index.notes@.len() && (#[trigger] index.notes@[i]).id.value == id
                && query_matches(index.note_tag_pairs(), index.tag_paths(), sel, mode, id),
{
    let rows = matching_rows(index.notes@, index.note_tag_pairs(), index.tag_paths(), sel, mode);
    let out = newest_first(rows);
    lemma_newest_first_contains(rows, rows[0]);
    if query_result(index, sel, mode).contains(id) {
        let k = choose|k: int| 0 <= k < out.len() && row_ids(out)[k] == id;
        let r = out[k];
        assert(out.contains(r));
        lemma_newest_first_contains(rows, r);
        lemma_matching_contains(
            index.notes@,
            index.note_tag_pairs(),
            index.tag_paths(),
            sel,
            mode,
            r,
        );
        let i = choose|i: int| 0 <= i < index.notes@.len() && index.notes@[i] == r;
        assert(index.notes@[i].id.value == id);
    }
    if exists|i: int|
        0 <= i < index.notes@.len() && (#[trigger] index.notes@[i]).id.value == id
            && query_matches(index.note_tag_pairs(), index.tag_paths(), sel, mode, id) {
        let i = choose|i: int|
            0 <= i < index.notes@.len() && (#[trigger] index.notes@[i]).id.value == id
                && query_matches(index.note_tag_pairs(), index.tag_paths(), sel, mode, id);
        let r = index.notes@[i];
        assert(index.notes@.contains(r));
        lemma_matching_contains(
            index.notes@,
            index.note_tag_pairs(),
            index.tag_paths(),
            sel,
            mode,
            r,
        );
        lemma_newest_first_contains(rows, r);
        let k = choose|k: int| 0 <= k < out.len() && out[k] == r;
        assert(row_ids(out)[k] == id);
    }
}

// ───────────────────────── laws ────────────────────────────────────────

/// A note is in a query's result exactly when the index has a row for it
/// and the query selects it.
pub proof fn law_query_result_is_the_selection(
    index: &Index,
    sel: Seq<Seq<char>>,
    mode: QueryMode,
    id: u128,
)
    ensures
        query_result(index, sel, mode).contains(id) <==> exists|i: int|
            0 <= i < index.notes@.len() && (#[trigger] index.notes@[i]).id.value == id
                && query_matches(index.note_tag_pairs(), index.tag_paths(), sel, mode, id),
{
    lemma_result_contains(index, sel, mode, id);
}

/// An empty tag selection returns no notes, in every mode.
pub proof fn law_empty_selection_selects_nothing(index: &Index, mode: QueryMode)
    ensures
        query_result(index, Seq::empty(), mode).len() == 0,
{
    let rows = matching_rows(index.notes@, index.note_tag_pairs(), index.tag_paths(), Seq::empty(), mode);
    lemma_matching_empty_selection(index.notes@, index.note_tag_pairs(), index.tag_paths(), mode);
    lemma_newest_first_contains(rows, index.notes@[0]);
}

/// With exactly one tag, strict intersection and strict union agree.
pub proof fn law_single_tag_strict_modes_agree(index: &Index, t: Seq<char>)
    ensures
        query_result(index, seq![t], QueryMode::StrictIntersection) == query_result(
            index,
            seq![t],
            QueryMode::StrictUnion,
        ),
{
    let sel = seq![t];
    assert forall|id: u128|
        query_matches(index.note_tag_pairs(), index.tag_paths(), sel, QueryMode::StrictIntersection, id)
            == query_matches(index.note_tag_pairs(), index.tag_paths(), sel, QueryMode::StrictUnion, id) by {
        if query_matches(index.note_tag_pairs(), index.tag_paths(), sel, QueryMode::StrictIntersection, id) {
            assert(has_literal(index.note_tag_pairs(), id, sel[0]));
        }
    }
    lemma_matching_same(
        index.notes@,
        index.note_tag_pairs(),
        index.tag_paths(),
        sel,
        QueryMode::StrictIntersection,
        QueryMode::StrictUnion,
    );
}

/// With exactly one tag, recursive intersection and recursive union agree.
pub proof fn law_single_tag_recursive_modes_agree(index: &Index, t: Seq<char>)
    ensures
        query_result(index, seq![t], QueryMode::RecursiveIntersection) == query_result(
            index,
            seq![t],
            QueryMode::RecursiveUnion,
        ),
{
    let sel = seq![t];
    assert forall|id: u128|
        query_matches(index.note_tag_pairs(), index.tag_paths(), sel, QueryMode::RecursiveIntersection, id)
            == query_matches(index.note_tag_pairs(), index.tag_paths(), sel, QueryMode::RecursiveUnion, id) by {
        if query_matches(index.note_tag_pairs(), index.tag_paths(), sel, QueryMode::RecursiveIntersection, id) {
            assert(has_in_branch(index.note_tag_pairs(), index.tag_paths(), id, sel[0]));
        }
    }
    lemma_matching_same(
        index.notes@,
        index.note_tag_pairs(),
        index.tag_paths(),
        sel,
        QueryMode::RecursiveIntersection,
        QueryMode::RecursiveUnion,
    );
}

/// On a well-formed index a strict match is also a recursive match: every
/// tag lies in its own branch.
pub proof fn law_strict_within_recursive(index: &Index, sel: Seq<Seq<char>>, id: u128)
    requires
        index.wf(),
    ensures
        query_result(index, sel, QueryMode::StrictIntersection).contains(id) ==> query_result(
            index,
            sel,
            QueryMode::RecursiveIntersection,
        ).contains(id),
        query_result(index, sel, QueryMode::StrictUnion).contains(id) ==> query_result(
            index,
            sel,
            QueryMode::RecursiveUnion,
        ).contains(id),
{
    let pairs = index.note_tag_pairs();
    let table = index.tag_paths();
    assert forall|t: Seq<char>| has_literal(pairs, id, t) implies has_in_branch(pairs, table, id, t) by {
        let i = choose|i: int| 0 <= i < pairs.len() && pairs[i] == (id, t);
        assert(table.contains(pairs[i].1));
        assert(branch_hit(pairs[i], table, id, t));
    }
    lemma_result_contains(index, sel, QueryMode::StrictIntersection, id);
    lemma_result_contains(index, sel, QueryMode::RecursiveIntersection, id);
    lemma_result_contains(index, sel, QueryMode::StrictUnion, id);
    lemma_result_contains(index, sel, QueryMode::RecursiveUnion, id);
    if query_matches(pairs, table, sel, QueryMode::StrictUnion, id) {
        let j = choose|j: int| 0 <= j < sel.len() && has_literal(pairs, id, #[trigger] sel[j]);
        assert(has_in_branch(pairs, table, id, sel[j]));
    }
}

/// An intersection's notes are among the union's notes, strict or recursive.
pub proof fn law_intersection_within_union(index: &Index, sel: Seq<Seq<char>>, id: u128)
    ensures
        query_result(index, sel, QueryMode::StrictIntersection).contains(id) ==> query_result(
            index,
            sel,
            QueryMode::StrictUnion,
        ).contains(id),
        query_result(index, sel, QueryMode::RecursiveIntersection).contains(id) ==> query_result(
            index,
            sel,
            QueryMode::RecursiveUnion,
        ).contains(id),
{
    let pairs = index.note_tag_pairs();
    let table = index.tag_paths();
    lemma_result_contains(index, sel, QueryMode::StrictIntersection, id);
    lemma_result_contains(index, sel, QueryMode::RecursiveIntersection, id);
    lemma_result_contains(index, sel, QueryMode::StrictUnion, id);
    lemma_result_contains(index, sel, QueryMode::RecursiveUnion, id);
    if query_matches(pairs, table, sel, QueryMode::StrictIntersection, id) {
        assert(has_literal(pairs, id, sel[0]));
    }
    if query_matches(pairs, table, sel, QueryMode::RecursiveIntersection, id) {
        assert(has_in_branch(pairs, table, id, sel[0]));
    }
}

/// Results are newest first: no result was created before a later one.
pub proof fn law_results_newest_first(index: &Index, sel: Seq<Seq<char>>, mode: QueryMode)
    ensures
        forall|i: int, j: int|
            0 <= i < j < query_rows(index, sel, mode).len() ==> !seq_lt(
                #[trigger] query_rows(index, sel, mode)[i].created@,
                #[trigger] query_rows(index, sel, mode)[j].created@,
            ),
        query_result(index, sel, mode) == row_ids(query_rows(index, sel, mode)),
{
    lemma_newest_first_sorted(
        matching_rows(index.notes@, index.note_tag_pairs(), index.tag_paths(), sel, mode),
    );
}

/// When the index holds each note once, every result appears once: notes
/// matched through several tags are not repeated.
pub proof fn law_results_distinct(index: &Index, sel: Seq<Seq<char>>, mode: QueryMode)
    requires
        row_ids(index.notes@).no_duplicates(),
    ensures
        query_result(index, sel, mode).no_duplicates(),
{
    lemma_matching_ids_distinct(index.notes@, index.note_tag_pairs(), index.tag_paths(), sel, mode);
    lemma_newest_first_ids_distinct(
        matching_rows(index.notes@, index.note_tag_pairs(), index.tag_paths(), sel, mode),
    );
}

proof fn lemma_asc_slot(keys: Seq<Seq<char>>, k: Seq<char>, i: int)
    requires
        0 <= i <= keys.len(),
    ensures
        i <= asc_slot(keys, k, i) <= keys.len(),
        forall|m: int| i <= m < asc_slot(keys, k, i) ==> !seq_lt(k, #[trigger] keys[m]),
        asc_slot(keys, k, i) < keys.len() ==> seq_lt(k, keys[asc_slot(keys, k, i)]),
    decreases keys.len() - i,
{
    if i < keys.len() && !seq_lt(k, keys[i]) {
        lemma_asc_slot(keys, k, i + 1);
    }
}

proof fn lemma_prefix_rows_contains(notes: Seq<NoteRow>, prefix: Seq<char>, r: NoteRow)
    ensures
        prefix_rows(notes, prefix).contains(r) <==> notes.contains(r) && titled_with_prefix(r, prefix),
    decreases notes.len(),
{
    if notes.len() > 0 {
        lemma_prefix_rows_contains(notes.drop_last(), prefix, r);
        lemma_push_contains(prefix_rows(notes.drop_last(), prefix), notes.last(), r);
        assert(notes =~= notes.drop_last().push(notes.last()));
        lemma_push_contains(notes.drop_last(), notes.last(), r);
    }
}

proof fn lemma_by_title_contains(rows: Seq<NoteRow>, r: NoteRow)
    ensures
        by_title(rows).contains(r) <==> rows.contains(r),
        by_title(rows).len() == rows.len(),
    decreases rows.len(),
{
    if rows.len() > 0 {
        let front = rows.drop_last();
        lemma_by_title_contains(front, r);
        let sorted = by_title(front);
        let keys = sorted.map_values(|x: NoteRow| title_key(x));
        lemma_asc_slot(keys, title_key(rows.last()), 0);
        lemma_insert_contains(sorted, asc_slot(keys, title_key(rows.last()), 0), rows.last(), r);
        assert(rows =~= front.push(rows.last()));
        lemma_push_contains(front, rows.last(), r);
    }
}

proof fn lemma_by_title_sorted(rows: Seq<NoteRow>)
    ensures
        forall|i: int, j: int|
            0 <= i < j < by_title(rows).len() ==> !seq_lt(
                title_key(#[trigger] by_title(rows)[j]),
                title_key(#[trigger] by_title(rows)[i]),
            ),
    decreases rows.len(),
{
    if rows.len() > 0 {
        let front = rows.drop_last();
        lemma_by_title_sorted(front);
        let sorted = by_title(front);
        let x = rows.last();
        let c = title_key(x);
        let keys = sorted.map_values(|y: NoteRow| title_key(y));
        let p = asc_slot(keys, c, 0);
        lemma_asc_slot(keys, c, 0);
        let out = sorted.insert(p, x);
        assert(out == by_title(rows));
        assert forall|i: int, j: int| 0 <= i < j < out.len() implies !seq_lt(
            title_key(out[j]),
            title_key(out[i]),
        ) by {
            if i != p && j != p {
                let a = if i < p { i } else { i - 1 };
                let b = if j < p { j } else { j - 1 };
                assert(out[i] == sorted[a]);
                assert(out[j] == sorted[b]);
                assert(!seq_lt(title_key(sorted[b]), title_key(sorted[a])));
            } else if j == p {
                assert(out[i] == sorted[i]);
                assert(keys[i] == title_key(sorted[i]));
                assert(!seq_lt(c, keys[i]));
            } else {
                let b = j - 1;
                assert(out[j] == sorted[b]);
                assert(p < keys.len());
                assert(seq_lt(c, keys[p]));
                let kb = title_key(sorted[b]);
                assert(keys[b] == kb);
                if b > p {
                    assert(!seq_lt(title_key(sorted[b]), title_key(sorted[p])));
                    lemma_seq_lt_total(kb, keys[p]);
                    if seq_lt(keys[p], kb) {
                        lemma_seq_lt_transitive(c, keys[p], kb);
                    }
                }
                assert(seq_lt(c, kb));
                lemma_seq_lt_asymmetric(c, kb);
            }
        }
    }
}

/// Title search returns at most `min(limit, 50)` rows, each titled with a
/// title that starts with the prefix (ASCII case ignored), ordered by
/// case-folded title; when fewer rows match than the cap, it returns all of
/// them. An empty prefix returns nothing.
pub proof fn law_title_search(notes: Seq<NoteRow>, prefix: Seq<char>, limit: usize)
    ensures
        title_search_rows(notes, prefix, limit).len() <= title_limit(limit),
        prefix.len() == 0 ==> title_search_rows(notes, prefix, limit).len() == 0,
        forall|i: int|
            0 <= i < title_search_rows(notes, prefix, limit).len() ==> titled_with_prefix(#[trigger] title_search_rows(notes, prefix, limit)[i], prefix),
        forall|i: int, j: int|
            0 <= i < j < title_search_rows(notes, prefix, limit).len() ==> !seq_lt(
                title_key(#[trigger] title_search_rows(notes, prefix, limit)[j]),
                title_key(#[trigger] title_search_rows(notes, prefix, limit)[i]),
            ),
        prefix.len() > 0 && prefix_rows(notes, prefix).len() <= title_limit(limit) ==> forall|r: NoteRow|
            notes.contains(r) && #[trigger] titled_with_prefix(r, prefix)
                ==> title_search_rows(notes, prefix, limit).contains(r),
{
    let rows = prefix_rows(notes, prefix);
    let all = by_title(rows);
    let out = title_search_rows(notes, prefix, limit);
    if prefix.len() > 0 {
        lemma_by_title_contains(rows, notes[0]);
        lemma_by_title_sorted(rows);
        assert forall|i: int| 0 <= i < out.len() implies titled_with_prefix(#[trigger] out[i], prefix) by {
            assert(out[i] == all[i]);
            assert(all.contains(all[i]));
            lemma_by_title_contains(rows, all[i]);
            lemma_prefix_rows_contains(notes, prefix, all[i]);
        }
        assert forall|i: int, j: int| 0 <= i < j < out.len() implies !seq_lt(
            title_key(#[trigger] out[j]),
            title_key(#[trigger] out[i]),
        ) by {
            assert(out[i] == all[i]);
            assert(out[j] == all[j]);
        }
        if rows.len() <= title_limit(limit) {
            assert forall|r: NoteRow|
                notes.contains(r) && #[trigger] titled_with_prefix(r, prefix)
                    implies out.contains(r) by {
                lemma_prefix_rows_contains(notes, prefix, r);
                lemma_by_title_contains(rows, r);
            }
        }
    }
}

} // verus!
