//! The vault: files on disk are the source of truth for notes.
//!
//! Notes live at `notes/YYYY/MM/DD/<id>.md`, partitioned by their
//! `created` date. This module holds what the vault computes: where a note
//! goes, what a new note's file says, and how the chronological list is
//! ordered. Reading and writing the files is the desktop shell's job.
use vstd::prelude::*;

use crate::frontmatter::{iso8601_z_shape, note_text, Attachment, Frontmatter, FrontmatterError};
use crate::ids::{ulid_encode, NoteId};
use crate::text::{chars_of, last_slash, push_char, push_str, seq_lt, compare_str, string_from_range, str_eq, Lex};
use crate::frontmatter::{frontmatter_view, FrontmatterView};
use crate::reconcile::{first_line, parsed_source};
use vstd::utf8::{decode_utf8, valid_utf8};
use vstd::utf8::encode_utf8;

verus! {

/// Errors from the filesystem layer.
#[derive(Debug)]
pub enum VaultError {
    Io(String),
    /// The vault path does not exist.
    MissingParent(String),
}

/// Errors from the vault operations.
#[derive(Debug)]
pub enum VaultOpError {
    Io(VaultError),
    Frontmatter(FrontmatterError),
    NotFound(NoteId),
    Utf8(String),
}

impl VaultError {
    /// The error's message.
    pub fn to_string(&self) -> (r: String)
        ensures
            r@ == match self {
                VaultError::Io(m) => "I/O error: "@ + m@,
                VaultError::MissingParent(m) => "vault path does not exist: "@ + m@,
            },
    {
        match self {
            VaultError::Io(m) => crate::text::joined("I/O error: ", m.as_str()),
            VaultError::MissingParent(m) => crate::text::joined("vault path does not exist: ", m.as_str()),
        }
    }
}

/// The message of a vault operation error.
pub open spec fn vault_op_error_text(e: VaultOpError) -> Seq<char> {
    match e {
        VaultOpError::Io(v) => "vault: "@ + match v {
            VaultError::Io(m) => "I/O error: "@ + m@,
            VaultError::MissingParent(m) => "vault path does not exist: "@ + m@,
        },
        VaultOpError::Frontmatter(f) => "frontmatter: "@ + match f {
            FrontmatterError::MissingOpeningFence => "frontmatter must start with a `---` fence on its own line"@,
            FrontmatterError::MissingClosingFence => "frontmatter has no closing `---` fence"@,
            FrontmatterError::Yaml(m) => "YAML parse error: "@ + m@,
            FrontmatterError::DisallowedYaml(m) => "YAML feature is not allowed in this schema: "@ + m@,
        },
        VaultOpError::NotFound(id) => "note not found: "@ + ulid_encode(id.value),
        VaultOpError::Utf8(m) => "UTF-8 error: "@ + m@,
    }
}

impl VaultOpError {
    /// The error's message.
    pub fn to_string(&self) -> (r: String)
        ensures
            r@ == vault_op_error_text(*self),
    {
        match self {
            VaultOpError::Io(v) => {
                let t = v.to_string();
                crate::text::joined("vault: ", t.as_str())
            },
            VaultOpError::Frontmatter(f) => {
                let t = f.to_string();
                crate::text::joined("frontmatter: ", t.as_str())
            },
            VaultOpError::NotFound(id) => {
                let t = id.to_string();
                crate::text::joined("note not found: ", t.as_str())
            },
            VaultOpError::Utf8(m) => crate::text::joined("UTF-8 error: ", m.as_str()),
        }
    }
}

/// A vault rooted at a directory.
#[derive(Debug, Clone)]
pub struct Vault {
    pub root: String,
}

/// A loaded note: parsed frontmatter plus body.
#[derive(Debug, Clone)]
pub struct Note {
    pub frontmatter: Frontmatter,
    pub body: String,
}

/// A row for the chronological list view (no body).
#[derive(Debug, Clone, PartialEq, Eq)]
pub struct NoteSummary {
    pub id: NoteId,
    pub title: Option<String>,
    pub created: String,
    pub updated: String,
    pub preview: String,
}

// ───────────────────────── paths ───────────────────────────────────────

/// The (year, month, day) in UTC of the instant an RFC 3339 timestamp
/// denotes, or `None` when chrono does not parse it.
pub uninterp spec fn utc_date(s: Seq<char>) -> Option<(i32, u32, u32)>;

/// The UTC calendar date of an RFC 3339 timestamp
/// (`DateTime::parse_from_rfc3339`, converted to `Utc`).
#[verifier::external_body]
fn rfc3339_utc_date(s: &str) -> (r: Option<(i32, u32, u32)>)
    ensures
        r == utc_date(s@),
{
    match chrono::DateTime::parse_from_rfc3339(s) {
        Ok(d) => {
            let u = d.with_timezone(&chrono::Utc);
            Some((chrono::Datelike::year(&u), chrono::Datelike::month(&u), chrono::Datelike::day(&u)))
        },
        Err(_) => None,
    }
}

/// Decimal digits of `n` (no leading zeros; `0` is `"0"`).
pub open spec fn dec_digits(n: nat) -> Seq<char>
    decreases n,
{
    if n < 10 {
        seq![((48 + n) as u8) as char]
    } else {
        dec_digits(n / 10).push(((48 + n % 10) as u8) as char)
    }
}

/// `d` left-padded with zeros to at least `w` characters.
pub open spec fn zero_pad(d: Seq<char>, w: int) -> Seq<char> {
    Seq::new(if d.len() >= w { 0 } else { (w - d.len()) as nat }, |i: int| '0') + d
}

/// `v` written as `{:0w}` writes it: a `-` for negatives, then the digits
/// zero-padded so the whole takes at least `w` characters.
pub open spec fn padded_int(v: int, w: int) -> Seq<char> {
    if v < 0 {
        seq!['-'] + zero_pad(dec_digits((-v) as nat), w - 1)
    } else {
        zero_pad(dec_digits(v as nat), w)
    }
}

/// The vault-relative path of a note created on the given date:
/// `notes/YYYY/MM/DD/<id>.md`.
pub open spec fn note_rel_path_text(id: u128, date: (i32, u32, u32)) -> Seq<char> {
    seq!['n', 'o', 't', 'e', 's', '/'] + padded_int(date.0 as int, 4) + seq!['/'] + padded_int(
        date.1 as int,
        2,
    ) + seq!['/'] + padded_int(date.2 as int, 2) + seq!['/'] + ulid_encode(id) + seq!['.', 'm', 'd']
}

fn digits_of(n: u64) -> (r: Vec<char>)
    ensures
        r@ == dec_digits(n as nat),
    decreases n,
{
    if n < 10 {
        let c = (48 + n as u8) as char;
        let mut v: Vec<char> = Vec::new();
        v.push(c);
        assert(v@ =~= seq![((48 + n) as u8) as char]);
        v
    } else {
        let mut v = digits_of(n / 10);
        let c = (48 + (n % 10) as u8) as char;
        v.push(c);
        v
    }
}

fn push_padded(out: &mut String, v: i64, w: usize)
    requires
        w >= 1,
        v > i64::MIN,
    ensures
        final(out)@ == old(out)@ + padded_int(v as int, w as int),
{
    let (neg, mag): (bool, u64) = if v < 0 {
        (true, (-v) as u64)
    } else {
        (false, v as u64)
    };
    let d = digits_of(mag);
    let target: usize = if neg {
        w - 1
    } else {
        w
    };
    if neg {
        push_char(out, '-');
    }
    let ghost mid = out@;
    let zeros: usize = if d.len() >= target {
        0
    } else {
        target - d.len()
    };
    let mut z: usize = 0;
    while z < zeros
        invariant
            z <= zeros,
            out@ == mid + Seq::new(z as nat, |i: int| '0'),
        decreases zeros - z,
    {
        push_char(out, '0');
        assert(Seq::new((z + 1) as nat, |i: int| '0') =~= Seq::new(z as nat, |i: int| '0').push('0'));
        z += 1;
    }
    let ghost mid2 = out@;
    let mut k: usize = 0;
    while k < d.len()
        invariant
            k <= d.len(),
            out@ == mid2 + d@.take(k as int),
        decreases d.len() - k,
    {
        push_char(out, d[k]);
        assert(d@.take(k + 1) =~= d@.take(k as int).push(d@[k as int]));
        k += 1;
    }
    assert(d@.take(d.len() as int) =~= d@);
    assert(out@ =~= old(out)@ + padded_int(v as int, w as int));
}

impl Vault {
    /// The vault-relative path of note `id` created at `created`:
    /// `notes/YYYY/MM/DD/<id>.md` with the UTC date of `created`.
    pub fn note_path(&self, id: &NoteId, created: &str) -> (r: Result<String, VaultOpError>)
        ensures
            match utc_date(created@) {
                Some(d) => r matches Ok(p) && p@ == note_rel_path_text(id.value, d),
                None => r matches Err(e) && e is Frontmatter,
            },
    {
        note_rel_path(id, created)
    }
}

/// See [`Vault::note_path`].
pub fn note_rel_path(id: &NoteId, created: &str) -> (r: Result<String, VaultOpError>)
    ensures
        match utc_date(created@) {
            Some(d) => r matches Ok(p) && p@ == note_rel_path_text(id.value, d),
            None => r matches Err(e) && e is Frontmatter,
        },
{
    let (y, m, d) = match rfc3339_utc_date(created) {
        Some(t) => t,
        None => {
            return Err(VaultOpError::Frontmatter(FrontmatterError::DisallowedYaml("timestamp must be ISO-8601 with trailing Z")));
        },
    };
    let mut out = String::new();
    push_str(&mut out, "notes/");
    push_padded(&mut out, y as i64, 4);
    push_char(&mut out, '/');
    push_padded(&mut out, m as i64, 2);
    push_char(&mut out, '/');
    push_padded(&mut out, d as i64, 2);
    push_char(&mut out, '/');
    let idt = id.to_string();
    push_str(&mut out, idt.as_str());
    push_str(&mut out, ".md");
    proof {
        reveal_strlit("notes/");
        reveal_strlit(".md");
    }
    assert(out@ =~= note_rel_path_text(id.value, (y, m, d)));
    Ok(out)
}

/// The file of a new note: where it goes, its frontmatter and its text.
/// The note is stamped `created` = `updated` = `now` and carries no tags,
/// links or attachments.
pub fn new_note_file(id: &NoteId, now: &str, body: &str, title: Option<String>) -> (r: Result<(String, Frontmatter, String), VaultOpError>)
    ensures
        r is Ok <==> utc_date(now@) is Some && iso8601_z_shape(encode_utf8(now@)),
        r matches Ok((path, fm, text)) ==> {
            &&& path@ == note_rel_path_text(id.value, utc_date(now@)->0)
            &&& fm.id == *id
            &&& fm.created@ == now@
            &&& fm.updated@ == now@
            &&& fm.title == title
            &&& fm.tags@.len() == 0
            &&& fm.links@.len() == 0
            &&& fm.attachments@.len() == 0
            &&& text@ == note_text(fm, body@)
        },
{
    let path = note_rel_path(id, now)?;
    let fm = Frontmatter {
        id: *id,
        created: String::from_str(now),
        updated: String::from_str(now),
        title,
        tags: Vec::new(),
        links: Vec::new(),
        attachments: Vec::new(),
    };
    let text = match crate::frontmatter::write(&fm, body) {
        Ok(t) => t,
        Err(e) => {
            return Err(VaultOpError::Frontmatter(e));
        },
    };
    Ok((path, fm, text))
}

/// The list row of a parsed note: its preview is the body's first line.
pub fn summary_of(fm: &Frontmatter, body: &str) -> (r: NoteSummary)
    ensures
        r.id == fm.id,
        r.title == fm.title,
        r.created == fm.created,
        r.updated == fm.updated,
        r.preview@ == crate::reconcile::first_line(body@),
{
    NoteSummary {
        id: fm.id,
        title: match &fm.title {
            Some(t) => Some(t.clone()),
            None => None,
        },
        created: fm.created.clone(),
        updated: fm.updated.clone(),
        preview: crate::reconcile::first_line_of(body),
    }
}

/// The creation stamps of `ss`.
pub open spec fn summary_keys(ss: Seq<NoteSummary>) -> Seq<Seq<char>> {
    ss.map_values(|s: NoteSummary| s.created@)
}

/// `ss` newest first by `created`; equal stamps keep their order.
pub open spec fn summaries_newest_first(ss: Seq<NoteSummary>) -> Seq<NoteSummary>
    decreases ss.len(),
{
    if ss.len() == 0 {
        Seq::empty()
    } else {
        let t = summaries_newest_first(ss.drop_last());
        t.insert(crate::query::desc_slot(summary_keys(t), ss.last().created@, 0), ss.last())
    }
}

/// The chronological list: newest first, at most `limit` rows.
pub fn order_summaries(summaries: Vec<NoteSummary>, limit: usize) -> (r: Vec<NoteSummary>)
    ensures
        r@ == if summaries_newest_first(summaries@).len() <= limit {
            summaries_newest_first(summaries@)
        } else {
            summaries_newest_first(summaries@).take(limit as int)
        },
{
    let ghost ss = summaries@;
    let mut out: Vec<NoteSummary> = Vec::new();
    let mut k: usize = 0;
    assert(out@ =~= summaries_newest_first(ss.take(0)));
    while k < summaries.len()
        invariant
            k <= summaries.len(),
            ss == summaries@,
            out@ == summaries_newest_first(ss.take(k as int)),
        decreases summaries.len() - k,
    {
        let ghost keys = summary_keys(out@);
        let mut p: usize = 0;
        while p < out.len() && !created_before(&out[p], &summaries[k])
            invariant
                p <= out.len(),
                k < summaries.len(),
                keys == summary_keys(out@),
                crate::query::desc_slot(keys, summaries@[k as int].created@, 0) == crate::query::desc_slot(keys, summaries@[k as int].created@, p as int),
            decreases out.len() - p,
        {
            p += 1;
        }
        assert(p < out.len() ==> crate::query::desc_slot(keys, summaries@[k as int].created@, p as int) == p);
        let row = NoteSummary {
            id: summaries[k].id,
            title: match &summaries[k].title {
                Some(t) => Some(t.clone()),
                None => None,
            },
            created: summaries[k].created.clone(),
            updated: summaries[k].updated.clone(),
            preview: summaries[k].preview.clone(),
        };
        out.insert(p, row);
        assert(ss.take(k + 1).drop_last() =~= ss.take(k as int));
        assert(ss.take(k + 1).last() == ss[k as int]);
        k += 1;
    }
    assert(ss.take(ss.len() as int) =~= ss);
    if out.len() > limit {
        out.truncate(limit);
    }
    out
}

fn created_before(a: &NoteSummary, b: &NoteSummary) -> (r: bool)
    ensures
        r == seq_lt(a.created@, b.created@),
{
    match compare_str(a.created.as_str(), b.created.as_str()) {
        Lex::Before => true,
        _ => false,
    }
}

// ───────────────────────── reading notes ───────────────────────────────

/// The file name of note `id`: `<id>.md`.
pub open spec fn note_file_name(id: u128) -> Seq<char> {
    ulid_encode(id) + seq!['.', 'm', 'd']
}

/// The last component of a path: the text after its last `/`.
pub open spec fn file_name(p: Seq<char>) -> Seq<char> {
    match last_slash(p, p.len() as int) {
        Some(k) => p.skip(k + 1),
        None => p,
    }
}

fn file_name_of(path: &str) -> (r: String)
    ensures
        r@ == file_name(path@),
{
    let cs = chars_of(path);
    let mut i: usize = cs.len();
    while i > 0 && cs[i - 1] != '/'
        invariant
            i <= cs.len(),
            cs@ == path@,
            last_slash(cs@, cs.len() as int) == last_slash(cs@, i as int),
        decreases i,
    {
        i -= 1;
    }
    let r = string_from_range(&cs, i, cs.len());
    assert(i == 0 ==> cs@.subrange(0, cs.len() as int) =~= cs@);
    assert(i > 0 ==> cs@.subrange(i as int, cs.len() as int) =~= cs@.skip(i as int));
    r
}

/// The first of the walked `.md` paths whose file name is note `id`'s.
pub fn find_note_file(paths: &Vec<String>, id: &NoteId) -> (r: Option<usize>)
    ensures
        match r {
            Some(i) => i < paths@.len() && file_name(paths@[i as int]@) == note_file_name(id.value)
                && forall|j: int| 0 <= j < i ==> file_name(#[trigger] paths@[j]@) != note_file_name(id.value),
            None => forall|j: int| 0 <= j < paths@.len() ==> file_name(#[trigger] paths@[j]@) != note_file_name(id.value),
        },
{
    let idt = id.to_string();
    let mut want = String::new();
    push_str(&mut want, idt.as_str());
    push_str(&mut want, ".md");
    proof {
        reveal_strlit(".md");
    }
    assert(want@ =~= note_file_name(id.value));
    let mut i: usize = 0;
    while i < paths.len()
        invariant
            i <= paths.len(),
            want@ == note_file_name(id.value),
            forall|j: int| 0 <= j < i ==> file_name(#[trigger] paths@[j]@) != note_file_name(id.value),
        decreases paths.len() - i,
    {
        let f = file_name_of(paths[i].as_str());
        if str_eq(f.as_str(), want.as_str()) {
            return Some(i);
        }
        i += 1;
    }
    None
}

/// A note read from its file's bytes: UTF-8 text in the frontmatter format.
pub fn decode_note(bytes: &[u8]) -> (r: Result<Note, VaultOpError>)
    ensures
        !valid_utf8(bytes@) ==> (r matches Err(e) && e is Utf8),
        valid_utf8(bytes@) ==> match parsed_source(decode_utf8(bytes@)) {
            Some((v, b)) => r matches Ok(n) && frontmatter_view(n.frontmatter) == v && n.body@ == b,
            None => r matches Err(e) && e is Frontmatter,
        },
{
    let text = match crate::reconcile::utf8_text(bytes) {
        Ok(t) => t,
        Err(m) => {
            return Err(VaultOpError::Utf8(m));
        },
    };
    match crate::frontmatter::parse(text.as_str()) {
        Ok((fm, body)) => Ok(Note { frontmatter: fm, body }),
        Err(e) => Err(VaultOpError::Frontmatter(e)),
    }
}

/// The view of a list row: id, title, created, updated, preview.
pub open spec fn summary_view(s: NoteSummary) -> (u128, Option<Seq<char>>, Seq<char>, Seq<char>, Seq<char>) {
    (s.id.value, crate::links::opt_view(s.title), s.created@, s.updated@, s.preview@)
}

/// The list row a file's bytes give, when they hold a note.
pub open spec fn source_summary(b: Seq<u8>) -> Option<(u128, Option<Seq<char>>, Seq<char>, Seq<char>, Seq<char>)> {
    if valid_utf8(b) {
        match parsed_source(decode_utf8(b)) {
            Some((v, body)) => Some((v.id, v.title, v.created, v.updated, first_line(body))),
            None => None,
        }
    } else {
        None
    }
}

/// The list rows of the files that hold notes, in walk order; the others
/// are skipped.
pub open spec fn kept_summaries(sources: Seq<Vec<u8>>) -> Seq<(u128, Option<Seq<char>>, Seq<char>, Seq<char>, Seq<char>)>
    decreases sources.len(),
{
    if sources.len() == 0 {
        Seq::empty()
    } else {
        let rest = kept_summaries(sources.drop_last());
        match source_summary(sources.last()@) {
            Some(s) => rest.push(s),
            None => rest,
        }
    }
}

/// `s` cut to at most `limit` rows.
pub open spec fn limited<A>(s: Seq<A>, limit: usize) -> Seq<A> {
    if s.len() <= limit {
        s
    } else {
        s.take(limit as int)
    }
}

/// The chronological list of the walked note files: the files that are
/// UTF-8 notes, newest first by `created`, at most `limit` of them.
pub fn list_notes_from_sources(sources: &Vec<Vec<u8>>, limit: usize) -> (r: Vec<NoteSummary>)
    ensures
        exists|all: Seq<NoteSummary>|
            all.map_values(|s: NoteSummary| summary_view(s)) == kept_summaries(sources@) && r@
                == limited(summaries_newest_first(all), limit),
{
    let ghost srcs = sources@;
    let mut all: Vec<NoteSummary> = Vec::new();
    let mut k: usize = 0;
    while k < sources.len()
        invariant
            k <= sources.len(),
            srcs == sources@,
            all@.map_values(|s: NoteSummary| summary_view(s)) == kept_summaries(srcs.take(k as int)),
        decreases sources.len() - k,
    {
        assert(srcs.take(k + 1).drop_last() =~= srcs.take(k as int));
        assert(srcs.take(k + 1).last() == srcs[k as int]);
        match decode_note(sources[k].as_slice()) {
            Ok(n) => {
                let s = summary_of(&n.frontmatter, n.body.as_str());
                let ghost before = all@;
                all.push(s);
                assert(all@.map_values(|s: NoteSummary| summary_view(s)) =~= before.map_values(|s: NoteSummary| summary_view(s)).push(summary_view(s)));
            },
            Err(_) => {},
        }
        k += 1;
    }
    assert(srcs.take(srcs.len() as int) =~= srcs);
    let ghost a = all@;
    let r = order_summaries(all, limit);
    assert(r@ == limited(summaries_newest_first(a), limit));
    r
}

/// The text of `note` with its tag set replaced by `tags`; everything else
/// is kept.
pub fn with_tags(note: Note, tags: Vec<String>) -> (r: Result<String, VaultOpError>)
    ensures
        r is Ok <==> iso8601_z_shape(encode_utf8(note.frontmatter.created@)) && iso8601_z_shape(
            encode_utf8(note.frontmatter.updated@),
        ),
        r matches Ok(t) ==> t@ == note_text(Frontmatter { tags: tags, ..note.frontmatter }, note.body@),
        r matches Err(e) ==> e is Frontmatter,
{
    let Note { frontmatter, body } = note;
    let fm = Frontmatter { tags, ..frontmatter };
    match crate::frontmatter::write(&fm, body.as_str()) {
        Ok(t) => Ok(t),
        Err(e) => Err(VaultOpError::Frontmatter(e)),
    }
}

} // verus!
