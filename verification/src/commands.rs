//! What the desktop commands decide.
//!
//! The shell exposes each operation to the frontend as an IPC command; the
//! shell does the locking, the file and device I/O and the serialisation.
//! Everything a command decides on plain values is here: the wire shapes
//! (versioned; a version's shape never changes silently), the error codes
//! the frontend branches on, the recording state machine, and the reads
//! the commands make of the index.
use vstd::prelude::*;

use crate::audio::{audio_error_text, AudioError};
use crate::ids::{ulid_encode, ulid_text_valid, ulid_text_value, NoteId};
use crate::index::{strs_view, Index, LinkRow, NoteRow, ReconcileSummary};
use crate::links::opt_view;
use crate::order::{ascending, as_ints, descending, sort_ascending, sort_descending};
use crate::query::{query_order, query_rows, rows_at, QueryMode};
use crate::stt::{stt_error_text, SttError};
use crate::index::{meta_value, MetaRow};
use crate::reminders::{in_filter, is_active, listed, stamped_as, utc_canonical, Reminder, ReminderError, ReminderFilter};
use crate::text::{last_slash, chars_of, contains_text, has_sub, joined, str_eq, string_from_range, trim, trim_bounds};
use crate::vault::{vault_op_error_text, VaultOpError};

verus! {

// ───────────────────────── errors ──────────────────────────────────────

/// Tagged error for the frontend: it branches on `code`; `message` is for
/// logging.
#[derive(Debug)]
pub struct IpcError {
    pub code: &'static str,
    pub message: String,
}

impl IpcError {
    /// A filesystem or storage failure.
    pub fn io(message: &str) -> (r: IpcError)
        ensures
            r.code@ == "io"@,
            r.message@ == message@,
    {
        IpcError { code: "io", message: String::from_str(message) }
    }

    /// The request was malformed or not allowed in the current state.
    pub fn invalid(message: &str) -> (r: IpcError)
        ensures
            r.code@ == "invalid"@,
            r.message@ == message@,
    {
        IpcError { code: "invalid", message: String::from_str(message) }
    }

    /// The thing asked for does not exist.
    pub fn not_found(message: &str) -> (r: IpcError)
        ensures
            r.code@ == "not_found"@,
            r.message@ == message@,
    {
        IpcError { code: "not_found", message: String::from_str(message) }
    }

    /// The index lock could not be taken.
    pub fn locked() -> (r: IpcError)
        ensures
            r.code@ == "locked"@,
            r.message@ == "could not acquire index lock"@,
    {
        IpcError { code: "locked", message: String::from_str("could not acquire index lock") }
    }

    /// The whisper model is not at the resolved path; the message carries
    /// the path so the first-run prompt can show it.
    pub fn model_missing(path: &str) -> (r: IpcError)
        ensures
            r.code@ == "model_missing"@,
            r.message@ == path@,
    {
        IpcError { code: "model_missing", message: String::from_str(path) }
    }

    /// There is no default audio input device.
    pub fn no_input_device() -> (r: IpcError)
        ensures
            r.code@ == "no_input_device"@,
            r.message@ == "no default audio input device"@,
    {
        IpcError { code: "no_input_device", message: String::from_str("no default audio input device") }
    }

    /// Audio capture failed.
    pub fn audio(message: &str) -> (r: IpcError)
        ensures
            r.code@ == "audio"@,
            r.message@ == message@,
    {
        IpcError { code: "audio", message: String::from_str(message) }
    }

    /// Speech-to-text failed.
    pub fn stt(message: &str) -> (r: IpcError)
        ensures
            r.code@ == "stt"@,
            r.message@ == message@,
    {
        IpcError { code: "stt", message: String::from_str(message) }
    }
}

// ───────────────────────── clock ───────────────────────────────────────

/// `std::time::SystemTime`, carried opaquely from the clock to the epoch
/// difference.
#[verifier::external_type_specification]
#[verifier::external_body]
pub struct ExSystemTime(std::time::SystemTime);

/// The wall clock (`SystemTime::now`); nothing is stated of it.
#[verifier::external_body]
fn system_now() -> std::time::SystemTime {
    std::time::SystemTime::now()
}

/// The time elapsed since the Unix epoch (`SystemTime::duration_since`),
/// `None` when `t` is earlier than the epoch. It depends on the clock
/// reading, which the library cannot see, so nothing more is stated.
#[verifier::external_body]
fn since_unix_epoch(t: &std::time::SystemTime) -> Option<core::time::Duration> {
    t.duration_since(std::time::UNIX_EPOCH).ok()
}

/// Whole milliseconds of a duration (`Duration::as_millis`).
#[verifier::external_body]
fn whole_millis(d: &core::time::Duration) -> u128 {
    d.as_millis()
}

/// Milliseconds since the epoch as the recording state carries them
/// (truncated to 64 bits), or the error for a clock set before the epoch.
pub fn epoch_millis(ms: Option<u128>) -> (r: Result<u64, IpcError>)
    ensures
        match ms {
            Some(m) => r == Ok::<u64, IpcError>(m as u64),
            None => r matches Err(e) && e.code@ == "invalid"@ && e.message@
                == "system clock invalid (before unix epoch)"@,
        },
{
    match ms {
        Some(m) => Ok(m as u64),
        None => Err(IpcError::invalid("system clock invalid (before unix epoch)")),
    }
}

/// The current Unix time in milliseconds. It fails only with the
/// before-the-epoch error.
pub fn now_ms() -> (r: Result<u64, IpcError>)
    ensures
        r matches Err(e) ==> e.code@ == "invalid"@ && e.message@
            == "system clock invalid (before unix epoch)"@,
{
    let now = system_now();
    let ms = match since_unix_epoch(&now) {
        Some(d) => Some(whole_millis(&d)),
        None => None,
    };
    epoch_millis(ms)
}

// ───────────────────────── recording ───────────────────────────────────

/// The user-facing recording state the frontend polls.
#[derive(Debug, Clone)]
pub enum RecordingState {
    Idle,
    /// `started_at_ms` is Unix milliseconds; the UI computes elapsed time.
    Recording { started_at_ms: u64 },
    Transcribing,
    Error { message: String },
}

impl RecordingState {
    /// The state's tag on the wire.
    pub fn kind(&self) -> (r: &'static str)
        ensures
            r@ == match self {
                RecordingState::Idle => "idle"@,
                RecordingState::Recording { .. } => "recording"@,
                RecordingState::Transcribing => "transcribing"@,
                RecordingState::Error { .. } => "error"@,
            },
    {
        match self {
            RecordingState::Idle => "idle",
            RecordingState::Recording { .. } => "recording",
            RecordingState::Transcribing => "transcribing",
            RecordingState::Error { .. } => "error",
        }
    }
}

/// A recording may start from idle or after an error; otherwise the
/// request is refused.
pub fn check_can_start(state: &RecordingState) -> (r: Result<(), IpcError>)
    ensures
        r is Ok <==> (state is Idle || state is Error),
        r matches Err(e) ==> e.code@ == "invalid"@ && e.message@
            == "already recording or transcribing"@,
{
    match state {
        RecordingState::Idle => Ok(()),
        RecordingState::Error { .. } => Ok(()),
        _ => Err(IpcError::invalid("already recording or transcribing")),
    }
}

/// Only a running recording can be stopped.
pub fn check_can_stop(state: &RecordingState) -> (r: Result<(), IpcError>)
    ensures
        r is Ok <==> state is Recording,
        r matches Err(e) ==> e.code@ == "invalid"@ && e.message@ == "not recording"@,
{
    match state {
        RecordingState::Recording { .. } => Ok(()),
        _ => Err(IpcError::invalid("not recording")),
    }
}

/// The error a failed model load is answered with: a missing model names
/// its path, an unusable path is invalid, anything else is an STT error.
pub fn model_load_error(e: &SttError) -> (r: IpcError)
    ensures
        match e {
            SttError::ModelMissing { path } => r.code@ == "model_missing"@ && r.message@ == path@,
            SttError::NonUtf8ModelPath { .. } => r.code@ == "invalid"@ && r.message@
                == "model path is not valid UTF-8"@,
            _ => r.code@ == "stt"@ && r.message@ == stt_error_text(*e),
        },
{
    match e {
        SttError::ModelMissing { path } => IpcError::model_missing(path.as_str()),
        SttError::NonUtf8ModelPath { .. } => IpcError::invalid("model path is not valid UTF-8"),
        _ => {
            let m = e.to_string();
            IpcError::stt(m.as_str())
        },
    }
}

/// The error a failed capture start is answered with.
pub fn capture_start_error(e: &AudioError) -> (r: IpcError)
    ensures
        e is NoInputDevice ==> r.code@ == "no_input_device"@ && r.message@
            == "no default audio input device"@,
        !(e is NoInputDevice) ==> r.code@ == "audio"@ && r.message@ == audio_error_text(*e),
{
    match e {
        AudioError::NoInputDevice => IpcError::no_input_device(),
        _ => {
            let m = e.to_string();
            IpcError::audio(m.as_str())
        },
    }
}

/// After draining the capture failed: the state records the error and
/// the command answers with it as an audio error.
pub fn drain_failure(e: &AudioError) -> (r: (RecordingState, IpcError))
    ensures
        r.0 matches RecordingState::Error { message } && message@ == audio_error_text(*e),
        r.1.code@ == "audio"@,
        r.1.message@ == audio_error_text(*e),
{
    let m = e.to_string();
    let err = IpcError::audio(m.as_str());
    (RecordingState::Error { message: m }, err)
}

/// Stopping needs the capture session that `start_recording` opened; without
/// one the request is invalid and the state stays as it is.
pub fn session_check(present: bool) -> (r: Result<(), IpcError>)
    ensures
        r is Ok <==> present,
        r matches Err(e) ==> e.code@ == "invalid"@ && e.message@ == "no active capture session"@,
{
    if present {
        Ok(())
    } else {
        Err(IpcError::invalid("no active capture session"))
    }
}

/// A transcription that could not run: the state records the message as an
/// error and the caller is answered with it as an STT error.
pub fn stt_failure(message: &str) -> (r: (RecordingState, IpcError))
    ensures
        r.0 matches RecordingState::Error { message: m } && m@ == message@,
        r.1.code@ == "stt"@,
        r.1.message@ == message@,
{
    (RecordingState::Error { message: String::from_str(message) }, IpcError::stt(message))
}

/// The outcome when no speech engine is loaded at stop time: the state
/// records the error and the caller gets the same STT error.
pub fn engine_missing() -> (r: (RecordingState, IpcError))
    ensures
        r.0 matches RecordingState::Error { message: m } && m@
            == "whisper engine missing \u{2014} start_recording should have loaded it"@,
        r.1.code@ == "stt"@,
        r.1.message@ == "whisper engine missing \u{2014} start_recording should have loaded it"@,
{
    stt_failure("whisper engine missing \u{2014} start_recording should have loaded it")
}

/// After transcription: back to idle with the transcript, or the error
/// recorded in the state and answered as an STT error.
pub fn transcription_outcome(res: Result<String, SttError>) -> (r: (
    RecordingState,
    Result<String, IpcError>,
))
    ensures
        match res {
            Ok(text) => r.0 is Idle && r.1 == Ok::<String, IpcError>(text),
            Err(err) => {
                &&& r.0 matches RecordingState::Error { message } && message@ == stt_error_text(err)
                &&& r.1 matches Err(e) && e.code@ == "stt"@ && e.message@ == stt_error_text(err)
            },
        },
{
    match res {
        Ok(text) => (RecordingState::Idle, Ok(text)),
        Err(e) => {
            let m = e.to_string();
            let err = IpcError::stt(m.as_str());
            (RecordingState::Error { message: m }, Err(err))
        },
    }
}

// ───────────────────────── wire types ──────────────────────────────────

/// One row of the chronological and query lists.
#[derive(Debug, Clone)]
pub struct NoteSummaryV1 {
    pub id: String,
    pub title: Option<String>,
    pub created: String,
    pub updated: String,
    pub preview: String,
}

/// A whole note.
#[derive(Debug, Clone)]
pub struct NoteV1 {
    pub id: String,
    pub title: Option<String>,
    pub created: String,
    pub updated: String,
    pub tags: Vec<String>,
    pub body: String,
}

/// The whisper model path the engine loads next, and whether it is the
/// default one (no override in effect).
#[derive(Debug, Clone)]
pub struct EffectiveModelPathV1 {
    pub path: String,
    pub is_default: bool,
}

/// The vault root and the number of indexed notes.
#[derive(Debug, Clone)]
pub struct VaultInfoV1 {
    pub path: String,
    pub note_count: i64,
}

/// What a forced reindex changed.
#[derive(Debug, Clone)]
pub struct ReindexSummaryV1 {
    pub inserted: usize,
    pub updated: usize,
    pub deleted: usize,
}

/// One row of the flat tag tree; the frontend joins rows on `parent`.
#[derive(Debug, Clone)]
pub struct TagRowV1 {
    pub path: String,
    pub parent: Option<String>,
    pub note_count: i64,
}

/// One outbound wikilink occurrence; `target_id` is `None` for a dangling
/// link.
#[derive(Debug, Clone)]
pub struct LinkRefV1 {
    pub raw: String,
    pub target_text: String,
    pub alias: Option<String>,
    pub target_id: Option<String>,
}

/// One backlink: a note whose body links to the current one.
#[derive(Debug, Clone)]
pub struct BacklinkV1 {
    pub source_id: String,
    pub source_title: Option<String>,
    pub source_preview: String,
    pub raw: String,
}

/// One reminder row.
#[derive(Debug, Clone)]
pub struct ReminderV1 {
    pub id: String,
    pub note_id: Option<String>,
    pub fire_at: String,
    pub fired_at: Option<String>,
    pub cancelled_at: Option<String>,
    pub body: String,
}

/// Filter for listing reminders; `Active` when none is given.
#[derive(Debug, Clone, Copy, PartialEq, Eq, Structural)]
pub enum ReminderFilterV1 {
    Active,
    Fired,
    Cancelled,
    All,
}

/// One edge of the graph payload.
#[derive(Debug, Clone)]
pub struct GraphEdgeV1 {
    pub source: String,
    pub target: String,
}

/// One row of the wikilink autocomplete dropdown.
#[derive(Debug, Clone)]
pub struct TitleHitV1 {
    pub id: String,
    pub title: String,
}

fn copy_opt(o: &Option<String>) -> (r: Option<String>)
    ensures
        r == *o,
{
    match o {
        Some(s) => Some(s.clone()),
        None => None,
    }
}

fn opt_id_text(o: &Option<NoteId>) -> (r: Option<String>)
    ensures
        opt_view(r) == match *o {
            Some(n) => Some(ulid_encode(n.value)),
            None => None::<Seq<char>>,
        },
{
    match o {
        Some(n) => Some(n.to_string()),
        None => None,
    }
}

impl NoteSummaryV1 {
    /// The wire row of a list entry; the id goes out as its 26-character
    /// text.
    pub fn from_summary(s: &crate::vault::NoteSummary) -> (r: NoteSummaryV1)
        ensures
            r.id@ == ulid_encode(s.id.value),
            r.title == s.title,
            r.created == s.created,
            r.updated == s.updated,
            r.preview == s.preview,
    {
        NoteSummaryV1 {
            id: s.id.to_string(),
            title: copy_opt(&s.title),
            created: s.created.clone(),
            updated: s.updated.clone(),
            preview: s.preview.clone(),
        }
    }
}

impl NoteV1 {
    /// The wire form of a loaded note.
    pub fn from_note(n: &crate::vault::Note) -> (r: NoteV1)
        ensures
            r.id@ == ulid_encode(n.frontmatter.id.value),
            r.title == n.frontmatter.title,
            r.created == n.frontmatter.created,
            r.updated == n.frontmatter.updated,
            r.tags@ == n.frontmatter.tags@,
            r.body == n.body,
    {
        NoteV1 {
            id: n.frontmatter.id.to_string(),
            title: copy_opt(&n.frontmatter.title),
            created: n.frontmatter.created.clone(),
            updated: n.frontmatter.updated.clone(),
            tags: n.frontmatter.tags.clone(),
            body: n.body.clone(),
        }
    }
}

impl ReindexSummaryV1 {
    /// The wire form of a reconcile summary.
    pub fn from_summary(s: ReconcileSummary) -> (r: ReindexSummaryV1)
        ensures
            r.inserted == s.inserted,
            r.updated == s.updated,
            r.deleted == s.deleted,
    {
        ReindexSummaryV1 { inserted: s.inserted, updated: s.updated, deleted: s.deleted }
    }
}

impl ReminderV1 {
    /// The wire form of a reminder.
    pub fn from_reminder(r: &crate::reminders::Reminder) -> (v: ReminderV1)
        ensures
            v.id == r.id,
            opt_view(v.note_id) == match r.note_id {
                Some(n) => Some(ulid_encode(n.value)),
                None => None::<Seq<char>>,
            },
            v.fire_at == r.fire_at,
            v.fired_at == r.fired_at,
            v.cancelled_at == r.cancelled_at,
            v.body == r.body,
    {
        ReminderV1 {
            id: r.id.clone(),
            note_id: opt_id_text(&r.note_id),
            fire_at: r.fire_at.clone(),
            fired_at: copy_opt(&r.fired_at),
            cancelled_at: copy_opt(&r.cancelled_at),
            body: r.body.clone(),
        }
    }
}

impl ReminderFilterV1 {
    /// The filter it stands for.
    pub fn to_filter(self) -> (r: crate::reminders::ReminderFilter)
        ensures
            r == match self {
                ReminderFilterV1::Active => crate::reminders::ReminderFilter::Active,
                ReminderFilterV1::Fired => crate::reminders::ReminderFilter::Fired,
                ReminderFilterV1::Cancelled => crate::reminders::ReminderFilter::Cancelled,
                ReminderFilterV1::All => crate::reminders::ReminderFilter::All,
            },
    {
        match self {
            ReminderFilterV1::Active => crate::reminders::ReminderFilter::Active,
            ReminderFilterV1::Fired => crate::reminders::ReminderFilter::Fired,
            ReminderFilterV1::Cancelled => crate::reminders::ReminderFilter::Cancelled,
            ReminderFilterV1::All => crate::reminders::ReminderFilter::All,
        }
    }
}

impl Default for ReminderFilterV1 {
    fn default() -> (r: ReminderFilterV1)
        ensures
            r == ReminderFilterV1::Active,
    {
        ReminderFilterV1::Active
    }
}

// ───────────────────────── tags ────────────────────────────────────────

/// The parent of a tag path: the path up to its last `/`, `None` for a
/// root tag.
pub open spec fn tag_parent(p: Seq<char>) -> Option<Seq<char>> {
    match last_slash(p, p.len() as int) {
        Some(k) => Some(p.take(k)),
        None => None,
    }
}

/// How many notes carry tag `t` literally.
pub open spec fn literal_count(pairs: Seq<(u128, Seq<char>)>, t: Seq<char>) -> nat
    decreases pairs.len(),
{
    if pairs.len() == 0 {
        0
    } else {
        literal_count(pairs.drop_last(), t) + if pairs.last().1 == t { 1nat } else { 0nat }
    }
}

/// The view of a tag row.
pub open spec fn tag_row_view(r: TagRowV1) -> (Seq<char>, Option<Seq<char>>, int) {
    (r.path@, opt_view(r.parent), r.note_count as int)
}

/// The row listed for tag path `p`.
pub open spec fn tag_row_of(pairs: Seq<(u128, Seq<char>)>, p: Seq<char>) -> (Seq<char>, Option<Seq<char>>, int) {
    (p, tag_parent(p), literal_count(pairs, p) as int)
}

/// What [`list_tags`] lists: every tag, ordered by path.
pub open spec fn tag_listing(index: &Index) -> Seq<(Seq<char>, Option<Seq<char>>, int)> {
    ascending(index.tag_paths()).map_values(|i: int| tag_row_of(index.note_tag_pairs(), index.tag_paths()[i]))
}

fn parent_of(path: &str) -> (r: Option<String>)
    ensures
        opt_view(r) == tag_parent(path@),
{
    let cs = chars_of(path);
    let mut i: usize = cs.len();
    while i > 0 && cs[i - 1] != '/'
        invariant
            i <= cs.len(),
            cs@ == path@,
            last_slash(cs@, cs.len() as int) == last_slash(cs@, i as int),
        decreases i,
    {
        i -= 1;
    }
    if i == 0 {
        None
    } else {
        Some(string_from_range(&cs, 0, i - 1))
    }
}

fn count_literal(index: &Index, t: &str) -> (r: u64)
    requires
        index.note_tags@.len() <= u64::MAX,
    ensures
        r == literal_count(index.note_tag_pairs(), t@),
        r <= index.note_tags@.len(),
{
    let ghost pairs = index.note_tag_pairs();
    let mut n: u64 = 0;
    let mut k: usize = 0;
    while k < index.note_tags.len()
        invariant
            k <= index.note_tags.len() <= u64::MAX,
            pairs == index.note_tag_pairs(),
            n == literal_count(pairs.take(k as int), t@),
            n <= k,
        decreases index.note_tags.len() - k,
    {
        assert(pairs.take(k + 1).drop_last() =~= pairs.take(k as int));
        assert(pairs.take(k + 1).last() == pairs[k as int]);
        assert(pairs[k as int].1 == index.note_tags@[k as int].tag_path@);
        if str_eq(index.note_tags[k].tag_path.as_str(), t) {
            n += 1;
        }
        k += 1;
    }
    assert(pairs.take(pairs.len() as int) =~= pairs);
    n
}

/// Every tag with its parent and the number of notes carrying it
/// literally, ordered by path.
pub fn list_tags(index: &Index) -> (r: Vec<TagRowV1>)
    requires
        index.note_tags@.len() <= i64::MAX,
    ensures
        r@.map_values(|t: TagRowV1| tag_row_view(t)) == tag_listing(index),
{
    let ghost paths = index.tag_paths();
    let ghost pairs = index.note_tag_pairs();
    let order = sort_ascending(&index.tags);
    proof {
        crate::order::lemma_ascending_positions(paths);
    }
    let ghost pos = ascending(paths);
    let mut out: Vec<TagRowV1> = Vec::new();
    let mut j: usize = 0;
    while j < order.len()
        invariant
            j <= order.len(),
            paths == index.tag_paths(),
            pairs == index.note_tag_pairs(),
            paths == strs_view(index.tags@),
            as_ints(order@) == pos,
            pos == ascending(paths),
            index.note_tags@.len() <= i64::MAX,
            forall|i: int| 0 <= i < order.len() ==> order@[i] < index.tags.len(),
            out@.map_values(|t: TagRowV1| tag_row_view(t)) == pos.take(j as int).map_values(
                |i: int| tag_row_of(pairs, paths[i]),
            ),
        decreases order.len() - j,
    {
        let t = &index.tags[order[j]];
        let parent = parent_of(t.as_str());
        let n = count_literal(index, t.as_str());
        let row = TagRowV1 { path: t.clone(), parent, note_count: n as i64 };
        let ghost before = out@;
        out.push(row);
        proof {
            assert(pos[j as int] == order@[j as int] as int);
            assert(paths[order@[j as int] as int] == t@);
            assert(out@.map_values(|t: TagRowV1| tag_row_view(t)) =~= before.map_values(|t: TagRowV1| tag_row_view(t)).push(tag_row_view(row)));
            assert(pos.take(j + 1).map_values(|i: int| tag_row_of(pairs, paths[i])) =~= pos.take(j as int).map_values(|i: int| tag_row_of(pairs, paths[i])).push(tag_row_of(pairs, paths[pos[j as int]])));
        }
        j += 1;
    }
    assert(pos.take(pos.len() as int) =~= pos);
    out
}

// ───────────────────────── note lists ──────────────────────────────────

/// The elements of `s` at positions `pos`.
pub open spec fn picked<A>(s: Seq<A>, pos: Seq<usize>) -> Seq<A> {
    pos.map_values(|i: usize| s[i as int])
}

/// The view of a list row.
pub open spec fn summary_v1_view(s: NoteSummaryV1) -> (Seq<char>, Option<Seq<char>>, Seq<char>, Seq<char>, Seq<char>) {
    (s.id@, opt_view(s.title), s.created@, s.updated@, s.preview@)
}

/// The list row of an index row.
pub open spec fn row_summary_view(r: NoteRow) -> (Seq<char>, Option<Seq<char>>, Seq<char>, Seq<char>, Seq<char>) {
    (ulid_encode(r.id.value), opt_view(r.title), r.created@, r.updated@, r.body_preview@)
}

/// The mode a query runs in: recursive intersection unless another is
/// given.
pub open spec fn mode_or_default(mode: Option<QueryMode>) -> QueryMode {
    match mode {
        Some(m) => m,
        None => QueryMode::RecursiveIntersection,
    }
}

fn summary_of_row(r: &NoteRow) -> (v: NoteSummaryV1)
    ensures
        summary_v1_view(v) == row_summary_view(*r),
{
    NoteSummaryV1 {
        id: r.id.to_string(),
        title: copy_opt(&r.title),
        created: r.created.clone(),
        updated: r.updated.clone(),
        preview: r.body_preview.clone(),
    }
}

/// The notes a tag query selects, newest first, as list rows read from the
/// index (no note file is read).
pub fn query_notes(index: &Index, tags: &[String], mode: Option<QueryMode>) -> (r: Vec<NoteSummaryV1>)
    ensures
        r@.map_values(|s: NoteSummaryV1| summary_v1_view(s)) == query_rows(
            index,
            strs_view(tags@),
            mode_or_default(mode),
        ).map_values(|n: NoteRow| row_summary_view(n)),
{
    let m = match mode {
        Some(m) => m,
        None => QueryMode::RecursiveIntersection,
    };
    let order = query_order(index, tags, m);
    let ghost rows = rows_at(index.notes@, order@);
    let mut out: Vec<NoteSummaryV1> = Vec::new();
    let mut j: usize = 0;
    while j < order.len()
        invariant
            j <= order.len(),
            rows == rows_at(index.notes@, order@),
            forall|i: int| 0 <= i < order.len() ==> order@[i] < index.notes.len(),
            out@.map_values(|s: NoteSummaryV1| summary_v1_view(s)) == rows.take(j as int).map_values(
                |n: NoteRow| row_summary_view(n),
            ),
        decreases order.len() - j,
    {
        let v = summary_of_row(&index.notes[order[j]]);
        let ghost before = out@;
        out.push(v);
        proof {
            assert(rows[j as int] == index.notes@[order@[j as int] as int]);
            assert(out@.map_values(|s: NoteSummaryV1| summary_v1_view(s)) =~= before.map_values(|s: NoteSummaryV1| summary_v1_view(s)).push(summary_v1_view(v)));
            assert(rows.take(j + 1).map_values(|n: NoteRow| row_summary_view(n)) =~= rows.take(j as int).map_values(|n: NoteRow| row_summary_view(n)).push(row_summary_view(rows[j as int])));
        }
        j += 1;
    }
    assert(rows.take(rows.len() as int) =~= rows);
    out
}

// ───────────────────────── links ───────────────────────────────────────

/// The link rows whose source is note `id`, in table order.
pub open spec fn links_from(links: Seq<LinkRow>, id: u128) -> Seq<LinkRow>
    decreases links.len(),
{
    if links.len() == 0 {
        Seq::empty()
    } else {
        let rest = links_from(links.drop_last(), id);
        if links.last().source.value == id {
            rest.push(links.last())
        } else {
            rest
        }
    }
}

/// The raw spans of link rows.
pub open spec fn raw_keys(ls: Seq<LinkRow>) -> Seq<Seq<char>> {
    ls.map_values(|l: LinkRow| l.raw@)
}

/// The outbound links of note `id`, ordered by raw span.
pub open spec fn outbound(links: Seq<LinkRow>, id: u128) -> Seq<LinkRow> {
    let f = links_from(links, id);
    ascending(raw_keys(f)).map_values(|i: int| f[i])
}

/// The view of an outbound link row.
pub open spec fn link_ref_view(r: LinkRefV1) -> (Seq<char>, Seq<char>, Option<Seq<char>>, Option<Seq<char>>) {
    (r.raw@, r.target_text@, opt_view(r.alias), opt_view(r.target_id))
}

/// The outbound row of a link.
pub open spec fn link_ref_of(l: LinkRow) -> (Seq<char>, Seq<char>, Option<Seq<char>>, Option<Seq<char>>) {
    (l.raw@, l.target_text@, opt_view(l.alias), match l.target_id {
        Some(t) => Some(ulid_encode(t.value)),
        None => None,
    })
}

fn parse_note_id(id: &str) -> (r: Result<NoteId, IpcError>)
    ensures
        r is Ok <==> ulid_text_valid(id@),
        r matches Ok(n) ==> n.value == ulid_text_value(id@, 26),
        r matches Err(e) ==> e.code@ == "invalid"@,
{
    match NoteId::parse(id) {
        Ok(n) => Ok(n),
        Err(e) => {
            let m = e.to_string();
            Err(IpcError::invalid(m.as_str()))
        },
    }
}

/// What note `id` links to, ordered by raw span; an id that is not a
/// ULID is invalid.
pub fn outbound_links_of(index: &Index, id: &str) -> (r: Result<Vec<LinkRefV1>, IpcError>)
    ensures
        r is Ok <==> ulid_text_valid(id@),
        r matches Err(e) ==> e.code@ == "invalid"@,
        r matches Ok(v) ==> v@.map_values(|x: LinkRefV1| link_ref_view(x)) == outbound(
            index.links@,
            ulid_text_value(id@, 26) as u128,
        ).map_values(|l: LinkRow| link_ref_of(l)),
{
    let nid = parse_note_id(id)?;
    let ghost links = index.links@;
    let ghost v = nid.value;
    let mut sel: Vec<usize> = Vec::new();
    let mut keys: Vec<String> = Vec::new();
    let mut k: usize = 0;
    while k < index.links.len()
        invariant
            k <= index.links.len(),
            links == index.links@,
            v == nid.value,
            picked(links, sel@) == links_from(links.take(k as int), v),
            strs_view(keys@) == raw_keys(links_from(links.take(k as int), v)),
            forall|i: int| 0 <= i < sel.len() ==> sel@[i] < k,
        decreases index.links.len() - k,
    {
        assert(links.take(k + 1).drop_last() =~= links.take(k as int));
        assert(links.take(k + 1).last() == links[k as int]);
        if index.links[k].source.value == nid.value {
            let ghost ps = sel@;
            let ghost ks = keys@;
            sel.push(k);
            keys.push(index.links[k].raw.clone());
            assert(picked(links, sel@) =~= picked(links, ps).push(links[k as int]));
            assert(strs_view(keys@) =~= strs_view(ks).push(links[k as int].raw@));
        }
        k += 1;
    }
    assert(links.take(links.len() as int) =~= links);
    let ghost f = links_from(links, v);
    let order = sort_ascending(&keys);
    proof {
        crate::order::lemma_ascending_positions(raw_keys(f));
    }
    let ghost pos = ascending(raw_keys(f));
    let mut out: Vec<LinkRefV1> = Vec::new();
    let mut j: usize = 0;
    while j < order.len()
        invariant
            j <= order.len(),
            links == index.links@,
            f == picked(links, sel@),
            forall|i: int| 0 <= i < sel.len() ==> sel@[i] < links.len(),
            as_ints(order@) == pos,
            pos.len() == sel.len(),
            forall|i: int| 0 <= i < order.len() ==> order@[i] < sel.len(),
            out@.map_values(|x: LinkRefV1| link_ref_view(x)) == pos.take(j as int).map_values(
                |i: int| link_ref_of(f[i]),
            ),
        decreases order.len() - j,
    {
        let l = &index.links[sel[order[j]]];
        let x = LinkRefV1 {
            raw: l.raw.clone(),
            target_text: l.target_text.clone(),
            alias: copy_opt(&l.alias),
            target_id: opt_id_text(&l.target_id),
        };
        let ghost before = out@;
        out.push(x);
        proof {
            assert(pos[j as int] == order@[j as int] as int);
            assert(f[order@[j as int] as int] == links[sel@[order@[j as int] as int] as int]);
            assert(out@.map_values(|x: LinkRefV1| link_ref_view(x)) =~= before.map_values(|x: LinkRefV1| link_ref_view(x)).push(link_ref_view(x)));
            assert(pos.take(j + 1).map_values(|i: int| link_ref_of(f[i])) =~= pos.take(j as int).map_values(|i: int| link_ref_of(f[i])).push(link_ref_of(f[pos[j as int]])));
        }
        j += 1;
    }
    assert(pos.take(pos.len() as int) =~= pos);
    assert(outbound(links, v) == pos.map_values(|i: int| f[i]));
    assert(outbound(links, v).map_values(|l: LinkRow| link_ref_of(l)) =~= pos.map_values(|i: int| link_ref_of(f[i])));
    Ok(out)
}

/// Position of the first index row of note `id` at or after `i`.
pub open spec fn first_row_from(notes: Seq<NoteRow>, id: u128, i: int) -> Option<int>
    decreases notes.len() - i,
{
    if i < 0 || i >= notes.len() {
        None
    } else if notes[i].id.value == id {
        Some(i)
    } else {
        first_row_from(notes, id, i + 1)
    }
}

/// Whether a link row points at note `id`.
pub open spec fn cites(l: LinkRow, id: u128) -> bool {
    l.target_id matches Some(t) && t.value == id
}

/// The links pointing at note `id` whose source note is indexed, each with
/// its source's row, in link-table order.
pub open spec fn backlink_pairs(links: Seq<LinkRow>, notes: Seq<NoteRow>, id: u128) -> Seq<(LinkRow, NoteRow)>
    decreases links.len(),
{
    if links.len() == 0 {
        Seq::empty()
    } else {
        let rest = backlink_pairs(links.drop_last(), notes, id);
        let l = links.last();
        match first_row_from(notes, l.source.value, 0) {
            Some(n) => if cites(l, id) {
                rest.push((l, notes[n]))
            } else {
                rest
            },
            None => rest,
        }
    }
}

/// The creation stamps of the source rows.
pub open spec fn source_created(ps: Seq<(LinkRow, NoteRow)>) -> Seq<Seq<char>> {
    ps.map_values(|p: (LinkRow, NoteRow)| p.1.created@)
}

/// The backlinks of note `id`, newest source first.
pub open spec fn backlinks(links: Seq<LinkRow>, notes: Seq<NoteRow>, id: u128) -> Seq<(LinkRow, NoteRow)> {
    let ps = backlink_pairs(links, notes, id);
    descending(source_created(ps)).map_values(|i: int| ps[i])
}

/// The view of a backlink row.
pub open spec fn backlink_view(b: BacklinkV1) -> (Seq<char>, Option<Seq<char>>, Seq<char>, Seq<char>) {
    (b.source_id@, opt_view(b.source_title), b.source_preview@, b.raw@)
}

/// The backlink row of a link and its source.
pub open spec fn backlink_of(p: (LinkRow, NoteRow)) -> (Seq<char>, Option<Seq<char>>, Seq<char>, Seq<char>) {
    (ulid_encode(p.0.source.value), opt_view(p.1.title), p.1.body_preview@, p.0.raw@)
}

fn first_row(notes: &Vec<NoteRow>, id: u128) -> (r: Option<usize>)
    ensures
        r matches Some(i) ==> i < notes@.len() && first_row_from(notes@, id, 0) == Some(i as int),
        match first_row_from(notes@, id, 0) {
            Some(n) => r == Some(n as usize),
            None => r is None,
        },
{
    let mut i: usize = 0;
    while i < notes.len()
        invariant
            i <= notes.len(),
            first_row_from(notes@, id, 0) == first_row_from(notes@, id, i as int),
        decreases notes.len() - i,
    {
        if notes[i].id.value == id {
            return Some(i);
        }
        i += 1;
    }
    None
}

/// The notes linking to note `id` (links resolved to it, so renames are
/// followed), newest source first; an id that is not a ULID is invalid.
pub fn backlinks_for(index: &Index, id: &str) -> (r: Result<Vec<BacklinkV1>, IpcError>)
    ensures
        r is Ok <==> ulid_text_valid(id@),
        r matches Err(e) ==> e.code@ == "invalid"@,
        r matches Ok(v) ==> v@.map_values(|x: BacklinkV1| backlink_view(x)) == backlinks(
            index.links@,
            index.notes@,
            ulid_text_value(id@, 26) as u128,
        ).map_values(|p: (LinkRow, NoteRow)| backlink_of(p)),
{
    let nid = parse_note_id(id)?;
    let ghost links = index.links@;
    let ghost notes = index.notes@;
    let ghost v = nid.value;
    let mut lsel: Vec<usize> = Vec::new();
    let mut nsel: Vec<usize> = Vec::new();
    let mut keys: Vec<String> = Vec::new();
    let mut k: usize = 0;
    while k < index.links.len()
        invariant
            k <= index.links.len(),
            links == index.links@,
            notes == index.notes@,
            v == nid.value,
            lsel.len() == nsel.len(),
            lsel.len() == backlink_pairs(links.take(k as int), notes, v).len(),
            forall|i: int| 0 <= i < lsel.len() ==> lsel@[i] < k && nsel@[i] < notes.len(),
            forall|i: int|
                0 <= i < lsel.len() ==> (#[trigger] backlink_pairs(links.take(k as int), notes, v)[i])
                    == (links[lsel@[i] as int], notes[nsel@[i] as int]),
            strs_view(keys@) == source_created(backlink_pairs(links.take(k as int), notes, v)),
        decreases index.links.len() - k,
    {
        let ghost before = backlink_pairs(links.take(k as int), notes, v);
        assert(links.take(k + 1).drop_last() =~= links.take(k as int));
        assert(links.take(k + 1).last() == links[k as int]);
        let l = &index.links[k];
        let cited = match &l.target_id {
            Some(t) => t.value == nid.value,
            None => false,
        };
        match first_row(&index.notes, l.source.value) {
            Some(n) => {
                if cited {
                    let ghost ks = keys@;
                    lsel.push(k);
                    nsel.push(n);
                    keys.push(index.notes[n].created.clone());
                    let ghost t = links.take(k + 1);
                    let ghost after = backlink_pairs(t, notes, v);
                    assert(t.drop_last() == links.take(k as int));
                    assert(t.last() == links[k as int]);
                    assert(first_row_from(notes, links[k as int].source.value, 0) == Some(n as int));
                    assert(cites(links[k as int], v));
                    assert(after == before.push((links[k as int], notes[n as int])));
                    assert forall|i: int| 0 <= i < lsel.len() implies (#[trigger] after[i]) == (
                        links[lsel@[i] as int],
                        notes[nsel@[i] as int],
                    ) by {
                        if i < lsel.len() - 1 {
                            assert(after[i] == before[i]);
                        }
                    }
                    assert(strs_view(keys@) =~= strs_view(ks).push(notes[n as int].created@));
                    assert(source_created(after) =~= source_created(before).push(notes[n as int].created@));
                }
            },
            None => {},
        }
        k += 1;
    }
    assert(links.take(links.len() as int) =~= links);
    let ghost ps = backlink_pairs(links, notes, v);
    let order = sort_descending(&keys);
    proof {
        crate::order::lemma_descending_positions(source_created(ps));
    }
    let ghost pos = descending(source_created(ps));
    let mut out: Vec<BacklinkV1> = Vec::new();
    let mut j: usize = 0;
    while j < order.len()
        invariant
            j <= order.len(),
            links == index.links@,
            notes == index.notes@,
            ps.len() == lsel.len(),
            lsel.len() == nsel.len(),
            forall|i: int| 0 <= i < lsel.len() ==> lsel@[i] < links.len() && nsel@[i] < notes.len(),
            forall|i: int| 0 <= i < lsel.len() ==> (#[trigger] ps[i]) == (links[lsel@[i] as int], notes[nsel@[i] as int]),
            as_ints(order@) == pos,
            pos.len() == ps.len(),
            forall|i: int| 0 <= i < order.len() ==> order@[i] < lsel.len(),
            out@.map_values(|x: BacklinkV1| backlink_view(x)) == pos.take(j as int).map_values(
                |i: int| backlink_of(ps[i]),
            ),
        decreases order.len() - j,
    {
        let q = order[j];
        let l = &index.links[lsel[q]];
        let n = &index.notes[nsel[q]];
        let x = BacklinkV1 {
            source_id: l.source.to_string(),
            source_title: copy_opt(&n.title),
            source_preview: n.body_preview.clone(),
            raw: l.raw.clone(),
        };
        let ghost before = out@;
        out.push(x);
        proof {
            assert(pos[j as int] == q as int);
            assert(ps[q as int] == (links[lsel@[q as int] as int], notes[nsel@[q as int] as int]));
            assert(out@.map_values(|x: BacklinkV1| backlink_view(x)) =~= before.map_values(|x: BacklinkV1| backlink_view(x)).push(backlink_view(x)));
            assert(pos.take(j + 1).map_values(|i: int| backlink_of(ps[i])) =~= pos.take(j as int).map_values(|i: int| backlink_of(ps[i])).push(backlink_of(ps[pos[j as int]])));
        }
        j += 1;
    }
    assert(pos.take(pos.len() as int) =~= pos);
    assert(backlinks(links, notes, v).map_values(|p: (LinkRow, NoteRow)| backlink_of(p)) =~= pos.map_values(|i: int| backlink_of(ps[i])));
    Ok(out)
}

// ───────────────────────── title search ────────────────────────────────

/// The view of an autocomplete row.
pub open spec fn title_hit_v1_view(h: TitleHitV1) -> (Seq<char>, Seq<char>) {
    (h.id@, h.title@)
}

/// The autocomplete row of an index row.
pub open spec fn row_title_hit(r: NoteRow) -> (Seq<char>, Seq<char>) {
    (ulid_encode(r.id.value), match r.title {
        Some(t) => t@,
        None => Seq::empty(),
    })
}

/// Wikilink autocomplete: the rows of a case-insensitive title-prefix
/// search, as wire rows.
pub fn search_notes_by_title(index: &Index, prefix: &str, limit: usize) -> (r: Vec<TitleHitV1>)
    ensures
        r@.map_values(|h: TitleHitV1| title_hit_v1_view(h)) == crate::query::title_search_rows(
            index.notes@,
            prefix@,
            limit,
        ).map_values(|n: NoteRow| row_title_hit(n)),
{
    let ghost rows = crate::query::title_search_rows(index.notes@, prefix@, limit);
    let hits = match crate::query::search_by_title_prefix(index, prefix, limit) {
        Ok(h) => h,
        Err(_) => Vec::new(),
    };
    assert(hits@.len() == rows.len()) by {
        assert(hits@.map_values(|h: crate::query::TitleHit| crate::query::hit_view(h)).len() == rows.map_values(|r: NoteRow| crate::query::row_hit(r)).len());
    }
    let mut out: Vec<TitleHitV1> = Vec::new();
    let mut j: usize = 0;
    while j < hits.len()
        invariant
            j <= hits.len(),
            hits@.len() == rows.len(),
            hits@.map_values(|h: crate::query::TitleHit| crate::query::hit_view(h)) == rows.map_values(|r: NoteRow| crate::query::row_hit(r)),
            out@.map_values(|h: TitleHitV1| title_hit_v1_view(h)) == rows.take(j as int).map_values(
                |n: NoteRow| row_title_hit(n),
            ),
        decreases hits.len() - j,
    {
        let x = TitleHitV1 { id: hits[j].id.to_string(), title: hits[j].title.clone() };
        let ghost before = out@;
        out.push(x);
        proof {
            assert(hits@.map_values(|h: crate::query::TitleHit| crate::query::hit_view(h))[j as int] == rows.map_values(|r: NoteRow| crate::query::row_hit(r))[j as int]);
            assert(crate::query::hit_view(hits@[j as int]) == crate::query::row_hit(rows[j as int]));
            assert(out@.map_values(|h: TitleHitV1| title_hit_v1_view(h)) =~= before.map_values(|h: TitleHitV1| title_hit_v1_view(h)).push(title_hit_v1_view(x)));
            assert(rows.take(j + 1).map_values(|n: NoteRow| row_title_hit(n)) =~= rows.take(j as int).map_values(|n: NoteRow| row_title_hit(n)).push(row_title_hit(rows[j as int])));
        }
        j += 1;
    }
    assert(rows.take(rows.len() as int) =~= rows);
    out
}

// ───────────────────────── meta ────────────────────────────────────────

/// The `meta` value under `key`, or `None` for an unknown key.
pub fn get_meta(index: &Index, key: &str) -> (r: Option<String>)
    ensures
        opt_view(r) == meta_value(index.meta@, key@),
{
    index.get_meta(key)
}

/// Upsert a `meta` pair. The `schema_version` key is reserved, so the
/// frontend cannot corrupt migrations; setting it is invalid and changes
/// nothing.
pub fn set_meta(index: &mut Index, key: &str, value: &str) -> (r: Result<(), IpcError>)
    requires
        old(index).wf(),
    ensures
        final(index).wf(),
        r is Err <==> key@ == "schema_version"@,
        r matches Err(e) ==> e.code@ == "invalid"@ && e.message@ == "reserved key: schema_version"@
            && final(index).meta@ == old(index).meta@,
        r is Ok ==> meta_value(final(index).meta@, key@) == Some(value@),
        forall|k: Seq<char>| k != key@ ==> meta_value(final(index).meta@, k) == meta_value(old(index).meta@, k),
        final(index).notes@ == old(index).notes@,
        final(index).note_tags@ == old(index).note_tags@,
        final(index).links@ == old(index).links@,
        final(index).reminders@ == old(index).reminders@,
{
    if str_eq(key, "schema_version") {
        return Err(IpcError::invalid("reserved key: schema_version"));
    }
    index.put_meta(key, value);
    Ok(())
}

// ───────────────────────── model path ──────────────────────────────────

/// The whisper model path override stored in `meta`; an empty value is no
/// override.
pub open spec fn model_override(meta: Seq<MetaRow>) -> Option<Seq<char>> {
    match meta_value(meta, "whisper.model_path"@) {
        Some(v) => if v.len() > 0 {
            Some(v)
        } else {
            None
        },
        None => None,
    }
}

/// The override path, if one is in effect.
pub fn model_path_override(index: &Index) -> (r: Option<String>)
    ensures
        opt_view(r) == model_override(index.meta@),
{
    match index.get_meta("whisper.model_path") {
        Some(v) => if v.as_str().unicode_len() > 0 {
            Some(v)
        } else {
            None
        },
        None => None,
    }
}

/// The path the engine loads next: the override, or else `default_path`.
pub fn get_effective_model_path(index: &Index, default_path: &str) -> (r: EffectiveModelPathV1)
    ensures
        match model_override(index.meta@) {
            Some(p) => r.path@ == p && !r.is_default,
            None => r.path@ == default_path@ && r.is_default,
        },
{
    match model_path_override(index) {
        Some(p) => EffectiveModelPathV1 { path: p, is_default: false },
        None => EffectiveModelPathV1 { path: String::from_str(default_path), is_default: true },
    }
}

/// The override a settings request asks for: the trimmed path when it is
/// not empty; `None` (clear the override) for no path or a blank one.
pub fn requested_model_path(path: &Option<String>) -> (r: Option<String>)
    ensures
        opt_view(r) == match *path {
            Some(p) => if trim(p@).len() > 0 {
                Some(trim(p@))
            } else {
                None::<Seq<char>>
            },
            None => None::<Seq<char>>,
        },
{
    match path {
        Some(p) => {
            let cs = chars_of(p.as_str());
            let (a, b) = trim_bounds(&cs, 0, cs.len());
            assert(cs@.subrange(0, cs.len() as int) =~= cs@);
            if a < b {
                Some(string_from_range(&cs, a, b))
            } else {
                None
            }
        },
        None => None,
    }
}

/// The error for a requested model path that is not a regular file.
pub fn not_a_file(path: &str) -> (r: IpcError)
    ensures
        r.code@ == "not_found"@,
        r.message@ == "not a file: "@ + path@,
{
    let m = joined("not a file: ", path);
    IpcError::not_found(m.as_str())
}

/// Store the override (`""` clears it).
pub fn store_model_path(index: &mut Index, value: &str)
    requires
        old(index).wf(),
    ensures
        final(index).wf(),
        model_override(final(index).meta@) == if value@.len() > 0 {
            Some(value@)
        } else {
            None::<Seq<char>>
        },
        forall|k: Seq<char>|
            k != "whisper.model_path"@ ==> meta_value(final(index).meta@, k) == meta_value(
                old(index).meta@,
                k,
            ),
        final(index).notes@ == old(index).notes@,
        final(index).reminders@ == old(index).reminders@,
{
    index.put_meta("whisper.model_path", value);
}

// ───────────────────────── vault info ──────────────────────────────────

/// The vault root and the number of notes in the index.
pub fn vault_info(index: &Index, root: &str) -> (r: VaultInfoV1)
    requires
        index.notes@.len() <= i64::MAX,
    ensures
        r.path@ == root@,
        r.note_count == index.notes@.len(),
{
    VaultInfoV1 { path: String::from_str(root), note_count: index.notes.len() as i64 }
}

// ───────────────────────── notes ───────────────────────────────────────

/// The error a failed note read is answered with: `not_found` when the
/// message says so, else `io`; the message is the error's.
pub fn read_note_error(e: &VaultOpError) -> (r: IpcError)
    ensures
        r.message@ == vault_op_error_text(*e),
        r.code@ == if has_sub(vault_op_error_text(*e), "not found"@) {
            "not_found"@
        } else {
            "io"@
        },
{
    let m = e.to_string();
    if contains_text(m.as_str(), "not found") {
        IpcError::not_found(m.as_str())
    } else {
        IpcError::io(m.as_str())
    }
}

// ───────────────────────── reminders ───────────────────────────────────

/// The view of a reminder row.
pub open spec fn reminder_v1_view(v: ReminderV1) -> (Seq<char>, Option<Seq<char>>, Seq<char>, Option<Seq<char>>, Option<Seq<char>>, Seq<char>) {
    (v.id@, opt_view(v.note_id), v.fire_at@, opt_view(v.fired_at), opt_view(v.cancelled_at), v.body@)
}

/// The wire row of a reminder.
pub open spec fn reminder_row_of(r: Reminder) -> (Seq<char>, Option<Seq<char>>, Seq<char>, Option<Seq<char>>, Option<Seq<char>>, Seq<char>) {
    (r.id@, match r.note_id {
        Some(n) => Some(ulid_encode(n.value)),
        None => None,
    }, r.fire_at@, opt_view(r.fired_at), opt_view(r.cancelled_at), r.body@)
}

/// The filter a listing uses: `Active` unless another is given.
pub open spec fn filter_or_default(f: Option<ReminderFilterV1>) -> ReminderFilter {
    match f {
        Some(ReminderFilterV1::Fired) => ReminderFilter::Fired,
        Some(ReminderFilterV1::Cancelled) => ReminderFilter::Cancelled,
        Some(ReminderFilterV1::All) => ReminderFilter::All,
        _ => ReminderFilter::Active,
    }
}

/// The reminders a filter selects, soonest first, as wire rows.
pub fn list_reminders(index: &Index, filter: Option<ReminderFilterV1>) -> (r: Vec<ReminderV1>)
    ensures
        r@.map_values(|v: ReminderV1| reminder_v1_view(v)) == listed(
            index.reminders@,
            filter_or_default(filter),
        ).map_values(|x: Reminder| reminder_row_of(x)),
{
    let f = match filter {
        Some(v) => v.to_filter(),
        None => ReminderFilter::Active,
    };
    let ghost rows = listed(index.reminders@, f);
    assert(f == filter_or_default(filter));
    let rs = match crate::reminders::list_reminders(index, f) {
        Ok(v) => v,
        Err(_) => Vec::new(),
    };
    let mut out: Vec<ReminderV1> = Vec::new();
    let mut j: usize = 0;
    while j < rs.len()
        invariant
            j <= rs.len(),
            rs@ == rows,
            out@.map_values(|v: ReminderV1| reminder_v1_view(v)) == rows.take(j as int).map_values(
                |x: Reminder| reminder_row_of(x),
            ),
        decreases rs.len() - j,
    {
        let v = ReminderV1::from_reminder(&rs[j]);
        let ghost before = out@;
        out.push(v);
        proof {
            assert(out@.map_values(|v: ReminderV1| reminder_v1_view(v)) =~= before.map_values(|v: ReminderV1| reminder_v1_view(v)).push(reminder_v1_view(v)));
            assert(rows.take(j + 1).map_values(|x: Reminder| reminder_row_of(x)) =~= rows.take(j as int).map_values(|x: Reminder| reminder_row_of(x)).push(reminder_row_of(rows[j as int])));
        }
        j += 1;
    }
    assert(rows.take(rows.len() as int) =~= rows);
    out
}

/// Whether an optional note id given over the wire is acceptable: absent,
/// or a ULID.
pub open spec fn note_ref_ok(note_id: Option<String>) -> bool {
    match note_id {
        Some(s) => ulid_text_valid(s@),
        None => true,
    }
}

/// The note a valid optional note id names.
pub open spec fn note_ref(note_id: Option<String>) -> Option<NoteId> {
    match note_id {
        Some(s) => Some(NoteId { value: ulid_text_value(s@, 26) as u128 }),
        None => None,
    }
}

/// Schedule a reminder, optionally for a note (which need not exist when
/// it fires). A malformed note id or timestamp is invalid and schedules
/// nothing; on success the reminder is appended with a fresh ULID and its
/// stamp in canonical UTC.
pub fn set_reminder(index: &mut Index, note_id: Option<String>, fire_at: &str, body: &str) -> (r: Result<String, IpcError>)
    ensures
        r is Ok <==> note_ref_ok(note_id) && utc_canonical(fire_at@) is Some,
        r matches Err(e) ==> e.code@ == "invalid"@ && final(index).reminders@ == old(index).reminders@,
        r matches Ok(id) ==> {
            &&& final(index).reminders@.len() == old(index).reminders@.len() + 1
            &&& final(index).reminders@.drop_last() == old(index).reminders@
            &&& final(index).reminders@.last().id == id
            &&& final(index).reminders@.last().note_id == note_ref(note_id)
            &&& Some(final(index).reminders@.last().fire_at@) == utc_canonical(fire_at@)
            &&& final(index).reminders@.last().fired_at is None
            &&& final(index).reminders@.last().cancelled_at is None
            &&& final(index).reminders@.last().body@ == body@
        },
        final(index).notes@ == old(index).notes@,
        final(index).meta@ == old(index).meta@,
{
    let parsed: Option<NoteId> = match &note_id {
        Some(s) => Some(parse_note_id(s.as_str())?),
        None => None,
    };
    let res = match &parsed {
        Some(n) => crate::reminders::create_reminder(index, Some(n), fire_at, body),
        None => crate::reminders::create_reminder(index, None, fire_at, body),
    };
    match res {
        Ok(id) => Ok(id),
        Err(ReminderError::InvalidTimestamp(m)) => Err(IpcError::invalid(m.as_str())),
        Err(other) => {
            let m = other.to_string();
            Err(IpcError::io(m.as_str()))
        },
    }
}

/// Cancel an active reminder. One that is unknown, already fired or
/// already cancelled is `not_found`.
pub fn cancel_reminder(index: &mut Index, id: &str) -> (r: Result<(), IpcError>)
    ensures
        r is Ok <==> exists|i: int|
            0 <= i < old(index).reminders@.len() && (#[trigger] old(index).reminders@[i]).id@ == id@
                && is_active(old(index).reminders@[i]),
        r matches Err(e) ==> e.code@ == "not_found"@,
        final(index).reminders@.len() == old(index).reminders@.len(),
        forall|i: int|
            0 <= i < old(index).reminders@.len() ==> stamped_as(
                #[trigger] old(index).reminders@[i],
                final(index).reminders@[i],
                old(index).reminders@[i].id@ == id@ && is_active(old(index).reminders@[i]),
                true,
            ),
{
    match crate::reminders::cancel_reminder(index, id) {
        Ok(()) => Ok(()),
        Err(ReminderError::NotFound(m)) => Err(IpcError::not_found(m.as_str())),
        Err(other) => {
            let m = other.to_string();
            Err(IpcError::io(m.as_str()))
        },
    }
}

// ───────────────────────── link queries on the index ───────────────────

/// The source ids (as text) of the link rows resolved to note `id`, in
/// table order, one per link occurrence.
pub open spec fn citing_sources(links: Seq<LinkRow>, id: u128) -> Seq<Seq<char>>
    decreases links.len(),
{
    if links.len() == 0 {
        Seq::empty()
    } else {
        let rest = citing_sources(links.drop_last(), id);
        if cites(links.last(), id) {
            rest.push(ulid_encode(links.last().source.value))
        } else {
            rest
        }
    }
}

impl Index {
    /// The notes whose links resolve to `id`, as id texts, one per link.
    pub fn backlinks_of_note(&self, id: &NoteId) -> (r: Vec<String>)
        ensures
            strs_view(r@) == citing_sources(self.links@, id.value),
    {
        let ghost links = self.links@;
        let mut out: Vec<String> = Vec::new();
        let mut k: usize = 0;
        while k < self.links.len()
            invariant
                k <= self.links.len(),
                links == self.links@,
                strs_view(out@) == citing_sources(links.take(k as int), id.value),
            decreases self.links.len() - k,
        {
            assert(links.take(k + 1).drop_last() =~= links.take(k as int));
            assert(links.take(k + 1).last() == links[k as int]);
            let hit = match &self.links[k].target_id {
                Some(t) => t.value == id.value,
                None => false,
            };
            if hit {
                let ghost before = out@;
                out.push(self.links[k].source.to_string());
                assert(strs_view(out@) =~= strs_view(before).push(ulid_encode(links[k as int].source.value)));
            }
            k += 1;
        }
        assert(links.take(links.len() as int) =~= links);
        out
    }

    /// The link rows of note `id`, in table order.
    pub fn outbound_links_of_note(&self, id: &NoteId) -> (r: Vec<LinkRow>)
        ensures
            r@ == links_from(self.links@, id.value),
    {
        let ghost links = self.links@;
        let mut out: Vec<LinkRow> = Vec::new();
        let mut k: usize = 0;
        while k < self.links.len()
            invariant
                k <= self.links.len(),
                links == self.links@,
                out@ == links_from(links.take(k as int), id.value),
            decreases self.links.len() - k,
        {
            assert(links.take(k + 1).drop_last() =~= links.take(k as int));
            assert(links.take(k + 1).last() == links[k as int]);
            if self.links[k].source.value == id.value {
                let l = &self.links[k];
                let row = LinkRow {
                    source: l.source,
                    raw: l.raw.clone(),
                    target_text: l.target_text.clone(),
                    alias: copy_opt(&l.alias),
                    target_id: l.target_id,
                };
                assert(row == links[k as int]);
                out.push(row);
            }
            k += 1;
        }
        assert(links.take(links.len() as int) =~= links);
        out
    }
}

} // verus!
