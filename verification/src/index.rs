//! The index over the vault, held as plain tables.
//!
//! The vault on disk is authoritative. The index exists to make queries
//! cheap: list-by-date, tag queries, wikilink resolution and reconciliation
//! with the files on disk. Its tables mirror the SQLite schema the desktop
//! shell persists (`note_index`, `file_state`, `tag`, `note_tag`,
//! `note_link`, `meta`); the closure of the tag hierarchy is derived from
//! the tag paths rather than stored.
use vstd::prelude::*;

use crate::ids::NoteId;
use crate::text::{chars_of, push_char, seq_eq, str_eq};
use vstd::string::StringSliceAdditionalSpecFns;
use vstd::utf8::encode_utf8;
use crate::tags::{is_ancestor_or_self, valid_tag_path};

verus! {

/// One row of `note_index`.
#[derive(Debug, Clone)]
pub struct NoteRow {
    pub id: NoteId,
    /// Vault-relative path of the `.md` file.
    pub path: String,
    pub title: Option<String>,
    pub created: String,
    pub updated: String,
    /// First line of the body.
    pub body_preview: String,
}

/// One row of `file_state`.
#[derive(Debug, Clone)]
pub struct FileStateRow {
    pub path: String,
    /// Seconds since the epoch.
    pub mtime: i64,
    pub size: i64,
    pub sha256: Vec<u8>,
}

/// One row of `note_tag`: a tag explicitly assigned to a note.
#[derive(Debug, Clone)]
pub struct NoteTagRow {
    pub note_id: NoteId,
    pub tag_path: String,
}

/// One row of `note_link`: one `[[…]]` occurrence in a note body.
#[derive(Debug, Clone)]
pub struct LinkRow {
    /// The note that contains the link.
    pub source: NoteId,
    /// Canonical raw span, e.g. `[[Title|alias]]`.
    pub raw: String,
    /// Text inside the `[[…]]` before `|`.
    pub target_text: String,
    pub alias: Option<String>,
    /// Resolved note, or `None` when the link is dangling.
    pub target_id: Option<NoteId>,
}

/// One key/value row of `meta`.
#[derive(Debug, Clone)]
pub struct MetaRow {
    pub key: String,
    pub value: String,
}

/// Counts of rows changed during a reconcile pass.
#[derive(Debug, Default, Clone, Copy, PartialEq, Eq, Structural)]
pub struct ReconcileSummary {
    pub inserted: usize,
    pub updated: usize,
    pub deleted: usize,
}

/// The index tables.
#[derive(Debug)]
pub struct Index {
    pub notes: Vec<NoteRow>,
    pub files: Vec<FileStateRow>,
    pub tags: Vec<String>,
    pub note_tags: Vec<NoteTagRow>,
    pub links: Vec<LinkRow>,
    pub meta: Vec<MetaRow>,
    pub reminders: Vec<crate::reminders::Reminder>,
}

/// The ids of the `note_index` rows.
pub open spec fn note_ids(rows: Seq<NoteRow>) -> Seq<u128> {
    rows.map_values(|r: NoteRow| r.id.value)
}

/// The paths of the `file_state` rows.
pub open spec fn file_paths(rows: Seq<FileStateRow>) -> Seq<Seq<char>> {
    rows.map_values(|r: FileStateRow| r.path@)
}

/// The primary keys (source, raw span) of the `note_link` rows.
pub open spec fn link_keys(rows: Seq<LinkRow>) -> Seq<(u128, Seq<char>)> {
    rows.map_values(|r: LinkRow| (r.source.value, r.raw@))
}

/// The keys of the `meta` rows.
pub open spec fn meta_keys(rows: Seq<MetaRow>) -> Seq<Seq<char>> {
    rows.map_values(|r: MetaRow| r.key@)
}

/// The view of a list of strings.
pub open spec fn strs_view(v: Seq<String>) -> Seq<Seq<char>> {
    v.map_values(|s: String| s@)
}

/// A `note_tag` row as plain values.
pub open spec fn note_tag_view(r: NoteTagRow) -> (u128, Seq<char>) {
    (r.note_id.value, r.tag_path@)
}

/// A list of `note_tag` rows as plain pairs.
pub open spec fn pairs_of(rows: Seq<NoteTagRow>) -> Seq<(u128, Seq<char>)> {
    rows.map_values(|r: NoteTagRow| note_tag_view(r))
}

impl Index {
    /// The paths in the `tag` table.
    pub open spec fn tag_paths(&self) -> Seq<Seq<char>> {
        strs_view(self.tags@)
    }

    /// The `note_tag` table as (note, tag path) pairs.
    pub open spec fn note_tag_pairs(&self) -> Seq<(u128, Seq<char>)> {
        pairs_of(self.note_tags@)
    }

    /// Well-formedness of the tag tables: tag paths are valid and distinct,
    /// every ancestor of a tag is a tag, note/tag pairs are distinct, and
    /// every assigned tag is in the `tag` table.
    pub open spec fn tags_wf(&self) -> bool {
        &&& self.tag_paths().no_duplicates()
        &&& forall|i: int|
            0 <= i < self.tag_paths().len() ==> valid_tag_path(#[trigger] self.tag_paths()[i])
        &&& forall|d: Seq<char>, a: Seq<char>|
            #![trigger self.tag_paths().contains(d), is_ancestor_or_self(a, d)]
            self.tag_paths().contains(d) && is_ancestor_or_self(a, d)
                ==> self.tag_paths().contains(a)
        &&& self.note_tag_pairs().no_duplicates()
        &&& forall|i: int|
            0 <= i < self.note_tag_pairs().len() ==> self.tag_paths().contains(
                (#[trigger] self.note_tag_pairs()[i]).1,
            )
    }

    /// Well-formedness of the row tables: note ids, file paths, link keys
    /// and meta keys are primary keys.
    pub open spec fn rows_wf(&self) -> bool {
        &&& note_ids(self.notes@).no_duplicates()
        &&& file_paths(self.files@).no_duplicates()
        &&& link_keys(self.links@).no_duplicates()
        &&& meta_keys(self.meta@).no_duplicates()
    }

    /// Well-formedness of the whole index.
    pub open spec fn wf(&self) -> bool {
        &&& self.tags_wf()
        &&& self.rows_wf()
    }

    /// An empty index with every table present.
    pub fn new() -> (r: Index)
        ensures
            r.wf(),
            r.tag_paths().len() == 0,
            r.note_tag_pairs().len() == 0,
            r.notes@.len() == 0,
            r.files@.len() == 0,
            r.tags@.len() == 0,
            r.note_tags@.len() == 0,
            r.links@.len() == 0,
            r.meta@.len() == 0,
            r.reminders@.len() == 0,
    {
        let r = Index {
            notes: Vec::new(),
            files: Vec::new(),
            tags: Vec::new(),
            note_tags: Vec::new(),
            links: Vec::new(),
            meta: Vec::new(),
            reminders: Vec::new(),
        };
        assert(r.tag_paths() =~= Seq::<Seq<char>>::empty());
        assert(note_ids(r.notes@) =~= Seq::<u128>::empty());
        assert(file_paths(r.files@) =~= Seq::<Seq<char>>::empty());
        assert(link_keys(r.links@) =~= Seq::<(u128, Seq<char>)>::empty());
        assert(meta_keys(r.meta@) =~= Seq::<Seq<char>>::empty());
        assert(r.note_tag_pairs() =~= Seq::<(u128, Seq<char>)>::empty());
        r
    }
}

/// Position of `s` in `v`, if present.
pub fn find_str(v: &Vec<String>, s: &str) -> (r: Option<usize>)
    ensures
        match r {
            Some(i) => i < v.len() && v@[i as int]@ == s@,
            None => !strs_view(v@).contains(s@),
        },
{
    let mut k: usize = 0;
    while k < v.len()
        invariant
            k <= v.len(),
            forall|m: int| 0 <= m < k ==> v@[m]@ != s@,
        decreases v.len() - k,
    {
        if str_eq(v[k].as_str(), s) {
            return Some(k);
        }
        k += 1;
    }
    proof {
        if strs_view(v@).contains(s@) {
            let m = choose|m: int| 0 <= m < strs_view(v@).len() && strs_view(v@)[m] == s@;
            assert(v@[m]@ == s@);
        }
    }
    None
}

// ───────────────────────── meta ────────────────────────────────────────

/// The value stored under `key` in the `meta` rows, if any.
pub open spec fn meta_value(rows: Seq<MetaRow>, key: Seq<char>) -> Option<Seq<char>>
    decreases rows.len(),
{
    if rows.len() == 0 {
        None
    } else if rows[0].key@ == key {
        Some(rows[0].value@)
    } else {
        meta_value(rows.drop_first(), key)
    }
}

proof fn lemma_meta_value_index(rows: Seq<MetaRow>, key: Seq<char>, i: int)
    requires
        0 <= i < rows.len(),
        rows[i].key@ == key,
        forall|m: int| 0 <= m < i ==> (#[trigger] rows[m]).key@ != key,
    ensures
        meta_value(rows, key) == Some(rows[i].value@),
    decreases i,
{
    if i > 0 {
        assert forall|m: int| 0 <= m < i - 1 implies (#[trigger] rows.drop_first()[m]).key@ != key by {
            assert(rows.drop_first()[m] == rows[m + 1]);
        }
        lemma_meta_value_index(rows.drop_first(), key, i - 1);
    }
}

proof fn lemma_meta_value_none(rows: Seq<MetaRow>, key: Seq<char>)
    requires
        forall|m: int| 0 <= m < rows.len() ==> (#[trigger] rows[m]).key@ != key,
    ensures
        meta_value(rows, key) is None,
    decreases rows.len(),
{
    if rows.len() > 0 {
        assert forall|m: int| 0 <= m < rows.len() - 1 implies (#[trigger] rows.drop_first()[m]).key@ != key by {
            assert(rows.drop_first()[m] == rows[m + 1]);
        }
        lemma_meta_value_none(rows.drop_first(), key);
    }
}

/// Position of the meta row with `key`.
fn find_meta(rows: &Vec<MetaRow>, key: &str) -> (r: Option<usize>)
    ensures
        match r {
            Some(i) => i < rows.len() && rows@[i as int].key@ == key@ && meta_value(rows@, key@)
                == Some(rows@[i as int].value@),
            None => meta_value(rows@, key@) is None && !meta_keys(rows@).contains(key@),
        },
{
    let mut k: usize = 0;
    while k < rows.len()
        invariant
            k <= rows.len(),
            forall|m: int| 0 <= m < k ==> (#[trigger] rows@[m]).key@ != key@,
        decreases rows.len() - k,
    {
        if str_eq(rows[k].key.as_str(), key) {
            proof {
                lemma_meta_value_index(rows@, key@, k as int);
            }
            return Some(k);
        }
        k += 1;
    }
    proof {
        lemma_meta_value_none(rows@, key@);
        if meta_keys(rows@).contains(key@) {
            let m = choose|m: int| 0 <= m < meta_keys(rows@).len() && meta_keys(rows@)[m] == key@;
            assert(rows@[m].key@ == key@);
        }
    }
    None
}

impl Index {
    /// The value stored under `key` in `meta`, or `None` for unknown keys.
    pub fn get_meta(&self, key: &str) -> (r: Option<String>)
        ensures
            crate::links::opt_view(r) == meta_value(self.meta@, key@),
    {
        match find_meta(&self.meta, key) {
            Some(i) => Some(self.meta[i].value.clone()),
            None => None,
        }
    }

    /// Insert or replace the `meta` row for `key`.
    pub fn put_meta(&mut self, key: &str, value: &str)
        requires
            old(self).wf(),
        ensures
            final(self).wf(),
            meta_value(final(self).meta@, key@) == Some(value@),
            forall|k: Seq<char>| k != key@ ==> meta_value(final(self).meta@, k) == meta_value(old(self).meta@, k),
            final(self).notes@ == old(self).notes@,
            final(self).files@ == old(self).files@,
            final(self).tags@ == old(self).tags@,
            final(self).note_tags@ == old(self).note_tags@,
            final(self).links@ == old(self).links@,
            final(self).reminders@ == old(self).reminders@,
    {
        let ghost before = self.meta@;
        match find_meta(&self.meta, key) {
            Some(i) => {
                let row = MetaRow { key: String::from_str(key), value: String::from_str(value) };
                self.meta.set(i, row);
                proof {
                    assert(meta_keys(self.meta@) =~= meta_keys(before));
                    assert forall|m: int| 0 <= m < i implies (#[trigger] self.meta@[m]).key@ != key@ by {
                        assert(meta_keys(before)[m] != meta_keys(before)[i as int]);
                    }
                    lemma_meta_value_index(self.meta@, key@, i as int);
                    assert forall|k: Seq<char>| k != key@ implies meta_value(self.meta@, k) == meta_value(before, k) by {
                        lemma_meta_value_other(before, i as int, self.meta@[i as int], k);
                    }
                }
            },
            None => {
                let row = MetaRow { key: String::from_str(key), value: String::from_str(value) };
                self.meta.push(row);
                proof {
                    assert(meta_keys(self.meta@) =~= meta_keys(before).push(key@));
                    assert forall|a: int, b: int| 0 <= a < b < meta_keys(self.meta@).len() implies meta_keys(self.meta@)[a] != meta_keys(self.meta@)[b] by {
                        if b == before.len() {
                            assert(meta_keys(before)[a] == before[a].key@);
                            assert(meta_keys(before).contains(meta_keys(before)[a]));
                        }
                    }
                    assert forall|m: int| 0 <= m < before.len() implies (#[trigger] self.meta@[m]).key@ != key@ by {
                        assert(meta_keys(before)[m] == before[m].key@);
                        assert(meta_keys(before).contains(before[m].key@));
                    }
                    lemma_meta_value_index(self.meta@, key@, before.len() as int);
                    assert forall|k: Seq<char>| k != key@ implies meta_value(self.meta@, k) == meta_value(before, k) by {
                        lemma_meta_value_push(before, self.meta@[before.len() as int], k);
                    }
                }
            },
        }
    }
}

proof fn lemma_meta_value_other(rows: Seq<MetaRow>, i: int, row: MetaRow, k: Seq<char>)
    requires
        0 <= i < rows.len(),
        row.key@ == rows[i].key@,
        k != row.key@,
    ensures
        meta_value(rows.update(i, row), k) == meta_value(rows, k),
    decreases rows.len(),
{
    let u = rows.update(i, row);
    if i == 0 {
        assert(u.drop_first() =~= rows.drop_first());
        assert(u[0].key@ != k);
    } else {
        assert(u[0] == rows[0]);
        if rows[0].key@ != k {
            assert(u.drop_first() =~= rows.drop_first().update(i - 1, row));
            lemma_meta_value_other(rows.drop_first(), i - 1, row, k);
        }
    }
}

proof fn lemma_meta_value_push(rows: Seq<MetaRow>, row: MetaRow, k: Seq<char>)
    requires
        k != row.key@,
    ensures
        meta_value(rows.push(row), k) == meta_value(rows, k),
    decreases rows.len(),
{
    let p = rows.push(row);
    if rows.len() > 0 {
        assert(p[0] == rows[0]);
        assert(p.drop_first() =~= rows.drop_first().push(row));
        lemma_meta_value_push(rows.drop_first(), row, k);
    } else {
        assert(p[0] == row);
        assert(p.drop_first() =~= Seq::<MetaRow>::empty());
        assert(meta_value(p.drop_first(), k) is None);
        assert(meta_value(rows, k) is None);
    }
}

// ───────────────────────── the manifest hash ───────────────────────────

/// The `meta` key under which the manifest hash is stored.
pub open spec fn manifest_key() -> Seq<char> {
    seq!['m', 'a', 'n', 'i', 'f', 'e', 's', 't', '_', 'h', 'a', 's', 'h']
}

/// Lower-case hexadecimal digit of `v < 16`.
pub open spec fn hex_digit(v: u8) -> char {
    if v < 10 {
        ((48 + v) as u8) as char
    } else {
        ((87 + v) as u8) as char
    }
}

/// Two lower-case hex digits per byte.
pub open spec fn hex_of(bytes: Seq<u8>) -> Seq<char>
    decreases bytes.len(),
{
    if bytes.len() == 0 {
        Seq::empty()
    } else {
        let b = bytes.last();
        hex_of(bytes.drop_last()) + seq![hex_digit(b / 16), hex_digit(b % 16)]
    }
}

/// The value of an ASCII hex digit (either case).
pub open spec fn hex_value(b: u8) -> Option<u8> {
    if 48 <= b <= 57 {
        Some((b - 48) as u8)
    } else if 97 <= b <= 102 {
        Some((b - 87) as u8)
    } else if 65 <= b <= 70 {
        Some((b - 55) as u8)
    } else {
        None
    }
}

/// What `u8::from_str_radix(pair, 16)` gives for a two-byte pair: an
/// optional `+` then hex digits.
pub open spec fn pair_value(b0: u8, b1: u8) -> Option<u8> {
    if b0 == 43 {
        hex_value(b1)
    } else {
        match (hex_value(b0), hex_value(b1)) {
            (Some(h), Some(l)) => Some((h * 16 + l) as u8),
            _ => None,
        }
    }
}

/// The bytes a hex text decodes to, pair by pair; `None` if a pair is not
/// hex.
pub open spec fn hex_decode(b: Seq<u8>) -> Option<Seq<u8>>
    decreases b.len(),
{
    if b.len() < 2 {
        Some(Seq::empty())
    } else {
        match (hex_decode(b.take(b.len() - 2)), pair_value(b[b.len() - 2], b[b.len() - 1])) {
            (Some(front), Some(x)) => Some(front.push(x)),
            _ => None,
        }
    }
}

/// The stored text can be cut into two-byte pairs on character
/// boundaries (otherwise reading it back panics).
pub open spec fn hex_pairs_sliceable(b: Seq<u8>) -> bool {
    &&& b.len() % 2 == 0
    &&& forall|i: int| 0 <= i < b.len() && i % 2 == 0 ==> !(128 <= #[trigger] b[i] < 192)
}

/// The manifest hash stored in `meta`, if any.
pub open spec fn stored_manifest(meta: Seq<MetaRow>) -> Option<Seq<u8>> {
    match meta_value(meta, manifest_key()) {
        Some(v) => hex_decode(encode_utf8(v)),
        None => None,
    }
}

/// Reading the stored manifest hash does not panic.
pub open spec fn manifest_readable(meta: Seq<MetaRow>) -> bool {
    match meta_value(meta, manifest_key()) {
        Some(v) => hex_pairs_sliceable(encode_utf8(v)),
        None => true,
    }
}

fn hex_digit_exec(v: u8) -> (r: char)
    requires
        v < 16,
    ensures
        r == hex_digit(v),
{
    if v < 10 {
        (48 + v) as char
    } else {
        (87 + v) as char
    }
}

/// Lower-case hex text of `bytes`.
pub fn hex_text(bytes: &Vec<u8>) -> (r: String)
    ensures
        r@ == hex_of(bytes@),
{
    let mut out = String::new();
    let mut k: usize = 0;
    while k < bytes.len()
        invariant
            k <= bytes.len(),
            out@ == hex_of(bytes@.take(k as int)),
        decreases bytes.len() - k,
    {
        let b = bytes[k];
        push_char(&mut out, hex_digit_exec(b / 16));
        push_char(&mut out, hex_digit_exec(b % 16));
        assert(bytes@.take(k + 1).drop_last() =~= bytes@.take(k as int));
        assert(out@ =~= hex_of(bytes@.take(k + 1)));
        k += 1;
    }
    assert(bytes@.take(bytes.len() as int) =~= bytes@);
    out
}

fn hex_value_exec(b: u8) -> (r: Option<u8>)
    ensures
        r == hex_value(b),
{
    if 48 <= b && b <= 57 {
        Some(b - 48)
    } else if 97 <= b && b <= 102 {
        Some(b - 87)
    } else if 65 <= b && b <= 70 {
        Some(b - 55)
    } else {
        None
    }
}

/// Decode hex text pair by pair.
pub fn decode_hex(hex: &str) -> (r: Option<Vec<u8>>)
    requires
        hex_pairs_sliceable(encode_utf8(hex@)),
    ensures
        match r {
            Some(v) => hex_decode(encode_utf8(hex@)) == Some(v@),
            None => hex_decode(encode_utf8(hex@)) is None,
        },
{
    let b = hex.as_bytes();
    let ghost bs = encode_utf8(hex@);
    let n = b.len();
    let mut out: Vec<u8> = Vec::new();
    let mut i: usize = 0;
    while i < n
        invariant
            n == b@.len() == bs.len(),
            b@ == bs,
            bs == encode_utf8(hex@),
            n % 2 == 0,
            i % 2 == 0,
            i <= n,
            hex_decode(bs.take(i as int)) == Some(out@),
        decreases n - i,
    {
        let v = match hex_value_exec(b[i + 1]) {
            Some(lo) => if b[i] == 43 {
                Some(lo)
            } else {
                match hex_value_exec(b[i]) {
                    Some(hi) => Some(hi * 16 + lo),
                    None => None,
                }
            },
            None => None,
        };
        let ghost t = bs.take(i + 2);
        assert(t.take(t.len() - 2) =~= bs.take(i as int));
        assert(t[t.len() - 2] == bs[i as int] && t[t.len() - 1] == bs[i + 1]);
        match v {
            Some(x) => {
                out.push(x);
            },
            None => {
                proof {
                    assert(pair_value(bs[i as int], bs[i + 1]) is None);
                    assert(hex_decode(t) is None);
                    lemma_hex_decode_prefix(bs, i + 2);
                }
                return None;
            },
        }
        i += 2;
    }
    assert(bs.take(n as int) =~= bs);
    Some(out)
}

proof fn lemma_hex_decode_prefix(b: Seq<u8>, k: int)
    requires
        0 <= k <= b.len(),
        k % 2 == 0,
        b.len() % 2 == 0,
        hex_decode(b.take(k)) is None,
    ensures
        hex_decode(b) is None,
    decreases b.len() - k,
{
    if k < b.len() {
        let t = b.take(k + 2);
        assert(t.take(t.len() - 2) =~= b.take(k));
        lemma_hex_decode_prefix(b, k + 2);
    } else {
        assert(b.take(k) =~= b);
    }
}

/// Hex text decodes back to the bytes it was made from.
pub proof fn law_hex_round_trip(bytes: Seq<u8>)
    ensures
        hex_decode(encode_utf8(hex_of(bytes))) == Some(bytes),
        hex_pairs_sliceable(encode_utf8(hex_of(bytes))),
    decreases bytes.len(),
{
    lemma_hex_ascii(bytes);
    let h = hex_of(bytes);
    vstd::utf8::is_ascii_chars_encode_utf8(h);
    let e = encode_utf8(h);
    if bytes.len() > 0 {
        let front = bytes.drop_last();
        law_hex_round_trip(front);
        let hf = hex_of(front);
        lemma_hex_ascii(front);
        vstd::utf8::is_ascii_chars_encode_utf8(hf);
        let x = bytes.last();
        assert(h == hf + seq![hex_digit(x / 16), hex_digit(x % 16)]);
        assert(e.len() == hf.len() + 2);
        assert(e.take(e.len() - 2) =~= encode_utf8(hf)) by {
            assert forall|i: int| 0 <= i < hf.len() implies e.take(e.len() - 2)[i] == encode_utf8(hf)[i] by {
                assert(h[i] == hf[i]);
            }
        }
        assert(e[e.len() - 2] == hex_digit(x / 16) as u8);
        assert(e[e.len() - 1] == hex_digit(x % 16) as u8);
        assert(pair_value(e[e.len() - 2], e[e.len() - 1]) == Some(x)) by {
            let hi = x / 16;
            let lo = x % 16;
            assert(hi * 16 + lo == x);
        }
        assert(bytes =~= front.push(x));
    } else {
        assert(h.len() == 0);
    }
    assert forall|i: int| 0 <= i < e.len() && i % 2 == 0 implies !(128 <= #[trigger] e[i] < 192) by {
        assert(e[i] == h[i] as u8);
    }
}

proof fn lemma_hex_ascii(bytes: Seq<u8>)
    ensures
        vstd::utf8::is_ascii_chars(hex_of(bytes)),
        hex_of(bytes).len() == 2 * bytes.len(),
    decreases bytes.len(),
{
    if bytes.len() > 0 {
        lemma_hex_ascii(bytes.drop_last());
        let x = bytes.last();
        let h = hex_of(bytes);
        let hf = hex_of(bytes.drop_last());
        assert forall|i: int| 0 <= i < h.len() implies '\0' <= #[trigger] h[i] <= '\u{7f}' by {
            if i < hf.len() {
                assert(h[i] == hf[i]);
            }
        }
    }
}

impl Index {
    /// The stored manifest hash, or `None` if no reconcile has stored one
    /// (or what is stored is not hex).
    pub fn stored_manifest_hash(&self) -> (r: Option<Vec<u8>>)
        requires
            manifest_readable(self.meta@),
        ensures
            match r {
                Some(v) => stored_manifest(self.meta@) == Some(v@),
                None => stored_manifest(self.meta@) is None,
            },
    {
        let key = String::from_str("manifest_hash");
        proof {
            reveal_strlit("manifest_hash");
        }
        assert(key@ =~= manifest_key());
        match self.get_meta(key.as_str()) {
            Some(v) => decode_hex(v.as_str()),
            None => None,
        }
    }

    /// Whether the stored manifest hash can be read back without panicking.
    pub fn manifest_hash_readable(&self) -> (r: bool)
        ensures
            r == manifest_readable(self.meta@),
    {
        let key = String::from_str("manifest_hash");
        proof {
            reveal_strlit("manifest_hash");
        }
        assert(key@ =~= manifest_key());
        match self.get_meta(key.as_str()) {
            Some(v) => {
                let b = v.as_str().as_bytes();
                if b.len() % 2 != 0 {
                    return false;
                }
                let mut i: usize = 0;
                while i < b.len()
                    invariant
                        i <= b.len(),
                        b@ == encode_utf8(v@),
                        meta_value(self.meta@, manifest_key()) == Some(v@),
                        forall|m: int| 0 <= m < i && m % 2 == 0 ==> !(128 <= #[trigger] b@[m] < 192),
                    decreases b.len() - i,
                {
                    if i % 2 == 0 && 128 <= b[i] && b[i] < 192 {
                        return false;
                    }
                    i += 1;
                }
                true
            },
            None => true,
        }
    }

    /// Store the manifest hash as lower-case hex under `manifest_hash`.
    pub fn store_manifest_hash(&mut self, hash: &Vec<u8>)
        requires
            old(self).wf(),
        ensures
            final(self).wf(),
            meta_value(final(self).meta@, manifest_key()) == Some(hex_of(hash@)),
            stored_manifest(final(self).meta@) == Some(hash@),
            manifest_readable(final(self).meta@),
            final(self).notes@ == old(self).notes@,
            final(self).files@ == old(self).files@,
            final(self).tags@ == old(self).tags@,
            final(self).note_tags@ == old(self).note_tags@,
            final(self).links@ == old(self).links@,
            final(self).reminders@ == old(self).reminders@,
    {
        let hex = hex_text(hash);
        proof {
            reveal_strlit("manifest_hash");
            law_hex_round_trip(hash@);
        }
        self.put_meta("manifest_hash", hex.as_str());
        assert("manifest_hash"@ =~= manifest_key());
        assert(meta_value(self.meta@, manifest_key()) == Some(hex_of(hash@)));
    }
}

// ───────────────────────── schema version ──────────────────────────────

/// Whether every character of `s` is an ASCII digit.
pub open spec fn all_digits(s: Seq<char>) -> bool {
    forall|i: int| 0 <= i < s.len() ==> '0' <= #[trigger] s[i] <= '9'
}

/// The value of a run of decimal digits.
pub open spec fn digits_value(s: Seq<char>) -> int
    decreases s.len(),
{
    if s.len() == 0 {
        0
    } else {
        digits_value(s.drop_last()) * 10 + (s.last() as int - 48)
    }
}

/// The `i64` that `s` denotes as `str::parse::<i64>` reads it: an optional
/// `+` or `-`, then at least one ASCII digit, in range; `None` otherwise.
pub open spec fn i64_text_value(s: Seq<char>) -> Option<int> {
    let neg = s.len() > 0 && s[0] == '-';
    let d = if s.len() > 0 && (s[0] == '-' || s[0] == '+') { s.skip(1) } else { s };
    if d.len() == 0 || !all_digits(d) {
        None
    } else {
        let v = if neg { -digits_value(d) } else { digits_value(d) };
        if i64::MIN <= v <= i64::MAX {
            Some(v)
        } else {
            None
        }
    }
}

proof fn lemma_digits_prefix(s: Seq<char>, k: int)
    requires
        0 <= k <= s.len(),
        all_digits(s),
    ensures
        0 <= digits_value(s.take(k)) <= digits_value(s),
    decreases s.len(),
{
    if k == s.len() {
        assert(s.take(k) =~= s);
        lemma_digits_nonneg(s);
    } else {
        assert(all_digits(s.drop_last()));
        lemma_digits_prefix(s.drop_last(), k);
        assert(s.drop_last().take(k) =~= s.take(k));
        lemma_digits_nonneg(s.drop_last());
    }
}

proof fn lemma_digits_nonneg(s: Seq<char>)
    requires
        all_digits(s),
    ensures
        0 <= digits_value(s),
    decreases s.len(),
{
    if s.len() > 0 {
        assert(all_digits(s.drop_last()));
        lemma_digits_nonneg(s.drop_last());
    }
}

/// `text` read as an `i64` the way `str::parse::<i64>` reads it.
pub fn parse_i64(text: &str) -> (r: Option<i64>)
    ensures
        match i64_text_value(text@) {
            Some(v) => r == Some(v as i64),
            None => r is None,
        },
{
    let cs = crate::text::chars_of(text);
    let ghost s = cs@;
    let neg = cs.len() > 0 && cs[0] == '-';
    let start: usize = if cs.len() > 0 && (cs[0] == '-' || cs[0] == '+') { 1 } else { 0 };
    let ghost d = s.skip(start as int);
    assert(s.skip(0) =~= s);
    assert(d == if s.len() > 0 && (s[0] == '-' || s[0] == '+') { s.skip(1) } else { s });
    assert(neg == (s.len() > 0 && s[0] == '-'));
    if start >= cs.len() {
        assert(d.len() == 0);
        return None;
    }
    let limit: i128 = 0x8000_0000_0000_0000;
    let mut acc: i128 = 0;
    let mut k: usize = start;
    while k < cs.len()
        invariant
            start <= k <= cs.len(),
            s == cs@,
            s == text@,
            d == s.skip(start as int),
            d == if s.len() > 0 && (s[0] == '-' || s[0] == '+') { s.skip(1) } else { s },
            neg == (s.len() > 0 && s[0] == '-'),
            all_digits(d.take(k - start)),
            acc == digits_value(d.take(k - start)),
            0 <= acc <= limit,
            limit == 0x8000_0000_0000_0000,
        decreases cs.len() - k,
    {
        let c = cs[k];
        if c < '0' || c > '9' {
            assert(d[k - start] == c);
            assert(!all_digits(d));
            return None;
        }
        let ghost t = d.take(k - start + 1);
        assert(t.drop_last() =~= d.take(k - start));
        assert(t.last() == c);
        let v: i128 = acc * 10 + ((c as u32) as i128 - 48);
        assert(v == digits_value(t));
        if v > limit {
            proof {
                assert(all_digits(t));
                if all_digits(d) {
                    lemma_digits_prefix(d, k - start + 1);
                }
            }
            return None;
        }
        acc = v;
        k += 1;
    }
    assert(d.take(k - start) =~= d);
    if neg {
        Some((0 - acc) as i64)
    } else if acc <= 0x7fff_ffff_ffff_ffff {
        Some(acc as i64)
    } else {
        None
    }
}

impl Index {
    /// The applied schema version: the `schema_version` meta value read as
    /// an integer, `0` when it is missing or unreadable.
    pub fn schema_version(&self) -> (r: i64)
        ensures
            r == match meta_value(self.meta@, "schema_version"@) {
                Some(t) => match i64_text_value(t) {
                    Some(v) => v,
                    None => 0,
                },
                None => 0,
            },
    {
        match self.get_meta("schema_version") {
            Some(t) => match parse_i64(t.as_str()) {
                Some(v) => v,
                None => 0,
            },
            None => 0,
        }
    }
}

} // verus!
