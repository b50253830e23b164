//! Reminders.
//!
//! Times are ISO-8601 strings with `Z` suffix, the same shape used by the
//! rest of the system; local time is never stored. Canonical stamps compare
//! as text in time order.
use vstd::prelude::*;

use crate::ids::{ulid_encode, NoteId};
use crate::index::Index;
use crate::text::{compare_str, seq_lt, str_eq, Lex};

verus! {

/// Errors from the reminder operations.
#[derive(Debug)]
pub enum ReminderError {
    InvalidTimestamp(String),
    NotFound(String),
}

impl ReminderError {
    /// The error's message.
    pub fn to_string(&self) -> (r: String)
        ensures
            r@ == match self {
                ReminderError::InvalidTimestamp(m) => "invalid timestamp: "@ + m@,
                ReminderError::NotFound(m) => "not found: "@ + m@,
            },
    {
        match self {
            ReminderError::InvalidTimestamp(m) => crate::text::joined("invalid timestamp: ", m.as_str()),
            ReminderError::NotFound(m) => crate::text::joined("not found: ", m.as_str()),
        }
    }
}

/// One reminder.
#[derive(Debug, Clone, PartialEq, Eq)]
pub struct Reminder {
    /// ULID; reminders are not notes (a different namespace).
    pub id: String,
    pub note_id: Option<NoteId>,
    pub fire_at: String,
    pub fired_at: Option<String>,
    pub cancelled_at: Option<String>,
    pub body: String,
}

/// State filter for [`list_reminders`].
#[derive(Debug, Clone, Copy, PartialEq, Eq, Structural)]
pub enum ReminderFilter {
    /// Not yet fired and not cancelled.
    Active,
    /// Already fired (history view).
    Fired,
    /// Cancelled by the user.
    Cancelled,
    /// Everything regardless of state.
    All,
}

// ───────────────────────── time ────────────────────────────────────────

/// The instant an RFC 3339 timestamp `s` denotes, as its Unix seconds and
/// its canonical UTC text (`%Y-%m-%dT%H:%M:%SZ`), or `None` when chrono does
/// not parse `s`.
pub uninterp spec fn utc_instant(s: Seq<char>) -> Option<(i64, Seq<char>)>;

/// The canonical UTC text of the instant `s` denotes.
pub open spec fn utc_canonical(s: Seq<char>) -> Option<Seq<char>> {
    match utc_instant(s) {
        Some(p) => Some(p.1),
        None => None,
    }
}

/// The Unix seconds of the instant `s` denotes.
pub open spec fn utc_seconds_of(s: Seq<char>) -> Option<i64> {
    match utc_instant(s) {
        Some(p) => Some(p.0),
        None => None,
    }
}

/// `chrono::ParseError`, carried opaquely until its message is taken.
#[verifier::external_type_specification]
#[verifier::external_body]
pub struct ExChronoParseError(chrono::ParseError);

/// Parses an RFC 3339 timestamp as `DateTime<Utc>` (`str::parse`; any
/// offset is converted to UTC) and gives its Unix seconds
/// (`DateTime::timestamp`) and its text as `%Y-%m-%dT%H:%M:%SZ`.
#[verifier::external_body]
fn parse_utc(s: &str) -> (r: Result<(i64, String), chrono::ParseError>)
    ensures
        r is Ok <==> utc_instant(s@) is Some,
        r matches Ok(p) ==> utc_instant(s@) == Some((p.0, p.1@)),
{
    s.parse::<chrono::DateTime<chrono::Utc>>().map(|d| (d.timestamp(), d.format("%Y-%m-%dT%H:%M:%SZ").to_string()))
}

/// The instant an ISO-8601 timestamp denotes, as Unix seconds, with any
/// offset converted to UTC; `None` when it does not parse.
pub fn parse_iso(s: &str) -> (r: Option<i64>)
    ensures
        r == utc_seconds_of(s@),
{
    match parse_utc(s) {
        Ok(p) => Some(p.0),
        Err(_) => None,
    }
}

/// The message of a chrono parse error (its `Display`).
#[verifier::external_body]
fn parse_error_text(e: &chrono::ParseError) -> String {
    e.to_string()
}

/// The current time as `%Y-%m-%dT%H:%M:%SZ` (`chrono::Utc::now`). Nothing
/// is stated of it: it depends on the clock.
#[verifier::external_body]
pub(crate) fn utc_now_text() -> String {
    chrono::Utc::now().format("%Y-%m-%dT%H:%M:%SZ").to_string()
}

// ───────────────────────── spec ────────────────────────────────────────

/// The reminder has neither fired nor been cancelled.
pub open spec fn is_active(r: Reminder) -> bool {
    r.fired_at is None && r.cancelled_at is None
}

/// The reminder belongs in the list for `filter`.
pub open spec fn in_filter(r: Reminder, filter: ReminderFilter) -> bool {
    match filter {
        ReminderFilter::Active => is_active(r),
        ReminderFilter::Fired => r.fired_at is Some,
        ReminderFilter::Cancelled => r.cancelled_at is Some,
        ReminderFilter::All => true,
    }
}

/// The first position from `i` on whose reminder fires strictly after `k`.
pub open spec fn fire_slot(keys: Seq<Seq<char>>, k: Seq<char>, i: int) -> int
    decreases keys.len() - i,
{
    if i < 0 || i >= keys.len() {
        keys.len() as int
    } else if seq_lt(k, keys[i]) {
        i
    } else {
        fire_slot(keys, k, i + 1)
    }
}

/// The firing stamps of `rs`.
pub open spec fn fire_keys(rs: Seq<Reminder>) -> Seq<Seq<char>> {
    rs.map_values(|r: Reminder| r.fire_at@)
}

/// The reminders of `rs` in `filter`, by `fire_at` ascending; equal stamps
/// keep table order.
pub open spec fn listed(rs: Seq<Reminder>, filter: ReminderFilter) -> Seq<Reminder>
    decreases rs.len(),
{
    if rs.len() == 0 {
        Seq::empty()
    } else {
        let sorted = listed(rs.drop_last(), filter);
        if in_filter(rs.last(), filter) {
            sorted.insert(fire_slot(fire_keys(sorted), rs.last().fire_at@, 0), rs.last())
        } else {
            sorted
        }
    }
}

/// `a` is at or before `b` as text.
pub open spec fn text_le(a: Seq<char>, b: Seq<char>) -> bool {
    seq_lt(a, b) || a == b
}

/// Active and due at `now`.
pub open spec fn due_at(r: Reminder, now: Seq<char>) -> bool {
    is_active(r) && text_le(r.fire_at@, now)
}

/// Active and still to come after `now`.
pub open spec fn pending_after(r: Reminder, now: Seq<char>) -> bool {
    is_active(r) && seq_lt(now, r.fire_at@)
}

/// Position of the earliest-firing reminder of `rs` that is due at `now`
/// (the first in table order among equal stamps).
pub open spec fn earliest_due(rs: Seq<Reminder>, now: Seq<char>) -> Option<int>
    decreases rs.len(),
{
    if rs.len() == 0 {
        None
    } else {
        let e = earliest_due(rs.drop_last(), now);
        let i = rs.len() - 1;
        if due_at(rs[i], now) && (e is None || seq_lt(rs[i].fire_at@, rs[e->0].fire_at@)) {
            Some(i)
        } else {
            e
        }
    }
}

/// Position of the earliest-firing reminder of `rs` still to come after
/// `now`.
pub open spec fn earliest_pending(rs: Seq<Reminder>, now: Seq<char>) -> Option<int>
    decreases rs.len(),
{
    if rs.len() == 0 {
        None
    } else {
        let e = earliest_pending(rs.drop_last(), now);
        let i = rs.len() - 1;
        if pending_after(rs[i], now) && (e is None || seq_lt(rs[i].fire_at@, rs[e->0].fire_at@)) {
            Some(i)
        } else {
            e
        }
    }
}

/// Reminder `r` after `stamped` is `r` with a stamp put into the field that
/// `cancel` selects, when `selected`; otherwise `r` itself.
pub open spec fn stamped_as(r: Reminder, after: Reminder, selected: bool, cancel: bool) -> bool {
    if selected {
        &&& after.id == r.id
        &&& after.note_id == r.note_id
        &&& after.fire_at == r.fire_at
        &&& after.body == r.body
        &&& if cancel {
            after.cancelled_at is Some && after.fired_at == r.fired_at
        } else {
            after.fired_at is Some && after.cancelled_at == r.cancelled_at
        }
    } else {
        after == r
    }
}

fn clone_opt_string(o: &Option<String>) -> (r: Option<String>)
    ensures
        r == *o,
{
    match o {
        Some(s) => Some(s.clone()),
        None => None,
    }
}

fn clone_reminder(r: &Reminder) -> (c: Reminder)
    ensures
        c == *r,
{
    Reminder {
        id: r.id.clone(),
        note_id: r.note_id,
        fire_at: r.fire_at.clone(),
        fired_at: clone_opt_string(&r.fired_at),
        cancelled_at: clone_opt_string(&r.cancelled_at),
        body: r.body.clone(),
    }
}

/// Insert a new reminder; returns its generated ULID.
///
/// `fire_at_iso` must be an ISO-8601 string with `Z` (or `+HH:MM`); it is
/// parsed and re-formatted as UTC with `Z`, so storage stays canonical no
/// matter what the caller submits.
pub fn create_reminder(index: &mut Index, note_id: Option<&NoteId>, fire_at_iso: &str, body: &str) -> (r: Result<String, ReminderError>)
    ensures
        r is Ok <==> utc_canonical(fire_at_iso@) is Some,
        r matches Err(e) ==> e is InvalidTimestamp && final(index).reminders@ == old(index).reminders@,
        r matches Ok(id) ==> {
            &&& final(index).reminders@.len() == old(index).reminders@.len() + 1
            &&& final(index).reminders@.drop_last() == old(index).reminders@
            &&& final(index).reminders@.last().id == id
            &&& exists|v: u128| id@ == #[trigger] ulid_encode(v)
            &&& final(index).reminders@.last().note_id == match note_id {
                Some(n) => Some(*n),
                None => None,
            }
            &&& Some(final(index).reminders@.last().fire_at@) == utc_canonical(fire_at_iso@)
            &&& final(index).reminders@.last().fired_at is None
            &&& final(index).reminders@.last().cancelled_at is None
            &&& final(index).reminders@.last().body@ == body@
        },
        final(index).notes@ == old(index).notes@,
        final(index).files@ == old(index).files@,
        final(index).tags@ == old(index).tags@,
        final(index).note_tags@ == old(index).note_tags@,
        final(index).links@ == old(index).links@,
        final(index).meta@ == old(index).meta@,
{
    let canonical = match parse_utc(fire_at_iso) {
        Ok(p) => p.1,
        Err(e) => {
            return Err(ReminderError::InvalidTimestamp(parse_error_text(&e)));
        },
    };
    let v = crate::ids::ulid_new();
    let id = NoteId { value: v }.to_string();
    let row = Reminder {
        id: id.clone(),
        note_id: match note_id {
            Some(n) => Some(*n),
            None => None,
        },
        fire_at: canonical,
        fired_at: None,
        cancelled_at: None,
        body: String::from_str(body),
    };
    let ghost before = index.reminders@;
    index.reminders.push(row);
    assert(index.reminders@.drop_last() =~= before);
    Ok(id)
}

/// Stamp the current time into `cancelled_at` (`cancel`) or `fired_at` of
/// every reminder with this id that qualifies; returns whether any did.
fn stamp_reminders(index: &mut Index, id: &str, cancel: bool) -> (hit: bool)
    ensures
        final(index).reminders@.len() == old(index).reminders@.len(),
        forall|i: int|
            0 <= i < old(index).reminders@.len() ==> stamped_as(
                #[trigger] old(index).reminders@[i],
                final(index).reminders@[i],
                old(index).reminders@[i].id@ == id@ && (if cancel {
                    is_active(old(index).reminders@[i])
                } else {
                    old(index).reminders@[i].fired_at is None
                }),
                cancel,
            ),
        hit <==> exists|i: int|
            0 <= i < old(index).reminders@.len() && (#[trigger] old(index).reminders@[i]).id@ == id@
                && (if cancel {
                is_active(old(index).reminders@[i])
            } else {
                old(index).reminders@[i].fired_at is None
            }),
        final(index).notes@ == old(index).notes@,
        final(index).files@ == old(index).files@,
        final(index).tags@ == old(index).tags@,
        final(index).note_tags@ == old(index).note_tags@,
        final(index).links@ == old(index).links@,
        final(index).meta@ == old(index).meta@,
{
    let now = utc_now_text();
    let ghost before = index.reminders@;
    let mut hit = false;
    let mut k: usize = 0;
    while k < index.reminders.len()
        invariant
            k <= index.reminders.len() == before.len(),
            forall|i: int|
                0 <= i < k ==> stamped_as(
                    #[trigger] before[i],
                    index.reminders@[i],
                    before[i].id@ == id@ && (if cancel {
                        is_active(before[i])
                    } else {
                        before[i].fired_at is None
                    }),
                    cancel,
                ),
            forall|i: int| k <= i < before.len() ==> index.reminders@[i] == before[i],
            hit <==> exists|i: int|
                0 <= i < k && (#[trigger] before[i]).id@ == id@ && (if cancel {
                    is_active(before[i])
                } else {
                    before[i].fired_at is None
                }),
            index.notes@ == old(index).notes@,
            index.files@ == old(index).files@,
            index.tags@ == old(index).tags@,
            index.note_tags@ == old(index).note_tags@,
            index.links@ == old(index).links@,
            index.meta@ == old(index).meta@,
        decreases before.len() - k,
    {
        let r = &index.reminders[k];
        assert(*r == before[k as int]);
        let qualifies = if cancel {
            r.fired_at.is_none() && r.cancelled_at.is_none()
        } else {
            r.fired_at.is_none()
        };
        if qualifies && str_eq(r.id.as_str(), id) {
            let mut c = clone_reminder(r);
            if cancel {
                c.cancelled_at = Some(now.clone());
            } else {
                c.fired_at = Some(now.clone());
            }
            index.reminders.set(k, c);
            hit = true;
            assert(before[k as int].id@ == id@);
        }
        proof {
            if exists|i: int| 0 <= i < k + 1 && (#[trigger] before[i]).id@ == id@ && (if cancel {
                is_active(before[i])
            } else {
                before[i].fired_at is None
            }) {
                let i = choose|i: int| 0 <= i < k + 1 && (#[trigger] before[i]).id@ == id@ && (if cancel {
                    is_active(before[i])
                } else {
                    before[i].fired_at is None
                });
                if i < k {
                    assert(hit);
                }
            }
        }
        k += 1;
    }
    hit
}

/// Mark a reminder as cancelled. The row is kept (the audit trail), so a
/// reminder that already fired or was cancelled is `NotFound`.
pub fn cancel_reminder(index: &mut Index, id: &str) -> (r: Result<(), ReminderError>)
    ensures
        r is Ok <==> exists|i: int|
            0 <= i < old(index).reminders@.len() && (#[trigger] old(index).reminders@[i]).id@ == id@
                && is_active(old(index).reminders@[i]),
        r matches Err(e) ==> e matches ReminderError::NotFound(m) && m@ == id@,
        final(index).reminders@.len() == old(index).reminders@.len(),
        forall|i: int|
            0 <= i < old(index).reminders@.len() ==> stamped_as(
                #[trigger] old(index).reminders@[i],
                final(index).reminders@[i],
                old(index).reminders@[i].id@ == id@ && is_active(old(index).reminders@[i]),
                true,
            ),
        final(index).notes@ == old(index).notes@,
        final(index).files@ == old(index).files@,
        final(index).tags@ == old(index).tags@,
        final(index).note_tags@ == old(index).note_tags@,
        final(index).links@ == old(index).links@,
        final(index).meta@ == old(index).meta@,
{
    if stamp_reminders(index, id, true) {
        Ok(())
    } else {
        Err(ReminderError::NotFound(String::from_str(id)))
    }
}

/// Mark a reminder as fired (called by the scheduler after delivery).
/// Marking a reminder that already fired is `NotFound`.
pub fn mark_fired(index: &mut Index, id: &str) -> (r: Result<(), ReminderError>)
    ensures
        r is Ok <==> exists|i: int|
            0 <= i < old(index).reminders@.len() && (#[trigger] old(index).reminders@[i]).id@ == id@
                && old(index).reminders@[i].fired_at is None,
        r matches Err(e) ==> e matches ReminderError::NotFound(m) && m@ == id@,
        final(index).reminders@.len() == old(index).reminders@.len(),
        forall|i: int|
            0 <= i < old(index).reminders@.len() ==> stamped_as(
                #[trigger] old(index).reminders@[i],
                final(index).reminders@[i],
                old(index).reminders@[i].id@ == id@ && old(index).reminders@[i].fired_at is None,
                false,
            ),
        final(index).notes@ == old(index).notes@,
        final(index).files@ == old(index).files@,
        final(index).tags@ == old(index).tags@,
        final(index).note_tags@ == old(index).note_tags@,
        final(index).links@ == old(index).links@,
        final(index).meta@ == old(index).meta@,
{
    if stamp_reminders(index, id, false) {
        Ok(())
    } else {
        Err(ReminderError::NotFound(String::from_str(id)))
    }
}

fn in_filter_exec(r: &Reminder, filter: ReminderFilter) -> (b: bool)
    ensures
        b == in_filter(*r, filter),
{
    match filter {
        ReminderFilter::Active => r.fired_at.is_none() && r.cancelled_at.is_none(),
        ReminderFilter::Fired => r.fired_at.is_some(),
        ReminderFilter::Cancelled => r.cancelled_at.is_some(),
        ReminderFilter::All => true,
    }
}

fn fires_before(a: &Reminder, b: &Reminder) -> (r: bool)
    ensures
        r == seq_lt(a.fire_at@, b.fire_at@),
{
    match compare_str(a.fire_at.as_str(), b.fire_at.as_str()) {
        Lex::Before => true,
        _ => false,
    }
}

/// List reminders matching `filter`, sorted by `fire_at` ascending.
pub fn list_reminders(index: &Index, filter: ReminderFilter) -> (r: Result<Vec<Reminder>, ReminderError>)
    ensures
        r matches Ok(v) && v@ == listed(index.reminders@, filter),
        r matches Ok(v) ==> forall|x: Reminder|
            #[trigger] v@.contains(x) <==> index.reminders@.contains(x) && match filter {
                ReminderFilter::Active => x.fired_at is None && x.cancelled_at is None,
                ReminderFilter::Fired => x.fired_at is Some,
                ReminderFilter::Cancelled => x.cancelled_at is Some,
                ReminderFilter::All => true,
            },
{
    proof {
        law_lists_select_by_state(index.reminders@);
    }
    let ghost rs = index.reminders@;
    let mut out: Vec<Reminder> = Vec::new();
    let mut k: usize = 0;
    assert(out@ =~= listed(rs.take(0), filter));
    while k < index.reminders.len()
        invariant
            k <= index.reminders.len(),
            rs == index.reminders@,
            out@ == listed(rs.take(k as int), filter),
        decreases index.reminders.len() - k,
    {
        let r = &index.reminders[k];
        assert(rs.take(k + 1).drop_last() =~= rs.take(k as int));
        assert(rs.take(k + 1).last() == *r);
        if in_filter_exec(r, filter) {
            let ghost keys = fire_keys(out@);
            let mut p: usize = 0;
            while p < out.len() && !fires_before(r, &out[p])
                invariant
                    p <= out.len(),
                    keys == fire_keys(out@),
                    fire_slot(keys, r.fire_at@, 0) == fire_slot(keys, r.fire_at@, p as int),
                decreases out.len() - p,
            {
                p += 1;
            }
            proof {
                if p < out.len() {
                    assert(seq_lt(r.fire_at@, keys[p as int]));
                }
            }
            out.insert(p, clone_reminder(r));
        }
        k += 1;
    }
    assert(rs.take(rs.len() as int) =~= rs);
    Ok(out)
}

/// The earliest reminder due at `now` (active, `fire_at <= now`), without
/// changing anything: the scheduler marks it fired after delivery, so a
/// failed delivery leaves it pending for the next poll. `now` is a
/// canonical UTC stamp.
pub fn next_due(index: &Index, now: &str) -> (r: Result<Option<Reminder>, ReminderError>)
    ensures
        r matches Ok(o) && match earliest_due(index.reminders@, now@) {
            Some(i) => o == Some(index.reminders@[i]),
            None => o is None,
        },
{
    let ghost rs = index.reminders@;
    let mut best: Option<usize> = None;
    let mut k: usize = 0;
    while k < index.reminders.len()
        invariant
            k <= index.reminders.len(),
            rs == index.reminders@,
            match best {
                Some(b) => b < k && earliest_due(rs.take(k as int), now@) == Some(b as int),
                None => earliest_due(rs.take(k as int), now@) is None,
            },
        decreases index.reminders.len() - k,
    {
        let ghost t = rs.take(k + 1);
        assert(t.drop_last() =~= rs.take(k as int));
        assert(t[k as int] == rs[k as int]);
        let r = &index.reminders[k];
        let due = r.fired_at.is_none() && r.cancelled_at.is_none() && match compare_str(r.fire_at.as_str(), now) {
            Lex::After => false,
            _ => true,
        };
        if due {
            let better = match best {
                None => true,
                Some(b) => {
                    assert(t[b as int] == rs[b as int]);
                    match compare_str(r.fire_at.as_str(), index.reminders[b].fire_at.as_str()) {
                        Lex::Before => true,
                        _ => false,
                    }
                },
            };
            if better {
                best = Some(k);
            }
        }
        proof {
            match best {
                Some(b) => {
                    assert(t[b as int] == rs[b as int]);
                },
                None => {},
            }
            crate::text::lemma_seq_lt_total(r.fire_at@, now@);
            if seq_lt(r.fire_at@, now@) {
                crate::text::lemma_seq_lt_asymmetric(r.fire_at@, now@);
            }
            if r.fire_at@ == now@ {
                crate::text::lemma_seq_lt_irreflexive(now@);
            }
        }
        k += 1;
    }
    assert(rs.take(rs.len() as int) =~= rs);
    match best {
        Some(b) => Ok(Some(clone_reminder(&index.reminders[b]))),
        None => Ok(None),
    }
}

/// The Unix seconds of the earliest `fire_at` among active reminders
/// still to come after `now` (a canonical UTC stamp), for the scheduler's
/// next sleep deadline.
pub fn next_pending_after(index: &Index, now: &str) -> (r: Result<Option<i64>, ReminderError>)
    ensures
        match earliest_pending(index.reminders@, now@) {
            Some(i) => match utc_seconds_of(index.reminders@[i].fire_at@) {
                Some(t) => r == Ok::<Option<i64>, ReminderError>(Some(t)),
                None => r matches Err(e) && e is InvalidTimestamp,
            },
            None => r matches Ok(o) && o is None,
        },
        r matches Ok(Some(t)) ==> exists|i: int|
            0 <= i < index.reminders@.len() && (#[trigger] index.reminders@[i]).fired_at is None
                && index.reminders@[i].cancelled_at is None && seq_lt(now@, index.reminders@[i].fire_at@)
                && utc_seconds_of(index.reminders@[i].fire_at@) == Some(t) && forall|j: int|
                0 <= j < index.reminders@.len() && (#[trigger] index.reminders@[j]).fired_at is None
                    && index.reminders@[j].cancelled_at is None && seq_lt(now@, index.reminders@[j].fire_at@)
                    ==> !seq_lt(index.reminders@[j].fire_at@, index.reminders@[i].fire_at@),
        r matches Ok(None) ==> forall|j: int|
            0 <= j < index.reminders@.len() ==> !((#[trigger] index.reminders@[j]).fired_at is None
                && index.reminders@[j].cancelled_at is None && seq_lt(now@, index.reminders@[j].fire_at@)),
{
    proof {
        law_next_pending_is_earliest(index.reminders@, now@);
    }
    let ghost rs = index.reminders@;
    let mut best: Option<usize> = None;
    let mut k: usize = 0;
    while k < index.reminders.len()
        invariant
            k <= index.reminders.len(),
            rs == index.reminders@,
            match best {
                Some(b) => b < k && earliest_pending(rs.take(k as int), now@) == Some(b as int),
                None => earliest_pending(rs.take(k as int), now@) is None,
            },
        decreases index.reminders.len() - k,
    {
        let ghost t = rs.take(k + 1);
        assert(t.drop_last() =~= rs.take(k as int));
        assert(t[k as int] == rs[k as int]);
        let r = &index.reminders[k];
        let pending = r.fired_at.is_none() && r.cancelled_at.is_none() && match compare_str(now, r.fire_at.as_str()) {
            Lex::Before => true,
            _ => false,
        };
        if pending {
            let better = match best {
                None => true,
                Some(b) => {
                    assert(t[b as int] == rs[b as int]);
                    match compare_str(r.fire_at.as_str(), index.reminders[b].fire_at.as_str()) {
                        Lex::Before => true,
                        _ => false,
                    }
                },
            };
            if better {
                best = Some(k);
            }
        }
        proof {
            match best {
                Some(b) => {
                    assert(t[b as int] == rs[b as int]);
                },
                None => {},
            }
        }
        k += 1;
    }
    assert(rs.take(rs.len() as int) =~= rs);
    match best {
        Some(b) => match parse_utc(index.reminders[b].fire_at.as_str()) {
            Ok(p) => Ok(Some(p.0)),
            Err(e) => Err(ReminderError::InvalidTimestamp(parse_error_text(&e))),
        },
        None => Ok(None),
    }
}

// ───────────────────────── laws ────────────────────────────────────────

/// After a cancel, no reminder with that id is active any more: cancelling
/// it again is `NotFound`.
pub proof fn law_cancel_then_cancel_again_not_found(before: Seq<Reminder>, after: Seq<Reminder>, id: Seq<char>)
    requires
        after.len() == before.len(),
        forall|i: int|
            0 <= i < before.len() ==> stamped_as(
                #[trigger] before[i],
                after[i],
                before[i].id@ == id && is_active(before[i]),
                true,
            ),
    ensures
        !exists|i: int| 0 <= i < after.len() && (#[trigger] after[i]).id@ == id && is_active(after[i]),
{
    assert forall|i: int| 0 <= i < after.len() && (#[trigger] after[i]).id@ == id implies !is_active(after[i]) by {
        assert(stamped_as(before[i], after[i], before[i].id@ == id && is_active(before[i]), true));
    }
}

/// After marking a reminder fired, no reminder with that id is unfired:
/// marking it again is `NotFound`.
pub proof fn law_mark_fired_twice_not_found(before: Seq<Reminder>, after: Seq<Reminder>, id: Seq<char>)
    requires
        after.len() == before.len(),
        forall|i: int|
            0 <= i < before.len() ==> stamped_as(
                #[trigger] before[i],
                after[i],
                before[i].id@ == id && before[i].fired_at is None,
                false,
            ),
    ensures
        !exists|i: int| 0 <= i < after.len() && (#[trigger] after[i]).id@ == id && after[i].fired_at is None,
{
    assert forall|i: int| 0 <= i < after.len() && (#[trigger] after[i]).id@ == id implies after[i].fired_at is Some by {
        assert(stamped_as(before[i], after[i], before[i].id@ == id && before[i].fired_at is None, false));
    }
}

/// A stamped reminder keeps its row: a cancelled one shows up under
/// `Cancelled` and no longer under `Active`.
pub proof fn law_cancelled_leaves_active(r: Reminder, after: Reminder)
    requires
        stamped_as(r, after, is_active(r), true),
        is_active(r),
    ensures
        in_filter(after, ReminderFilter::Cancelled),
        !in_filter(after, ReminderFilter::Active),
        in_filter(after, ReminderFilter::All),
        after.id == r.id,
{
}

proof fn lemma_fire_slot(keys: Seq<Seq<char>>, k: Seq<char>, i: int)
    requires
        0 <= i <= keys.len(),
    ensures
        i <= fire_slot(keys, k, i) <= keys.len(),
        forall|m: int| i <= m < fire_slot(keys, k, i) ==> !seq_lt(k, #[trigger] keys[m]),
        fire_slot(keys, k, i) < keys.len() ==> seq_lt(k, keys[fire_slot(keys, k, i)]),
    decreases keys.len() - i,
{
    if i < keys.len() && !seq_lt(k, keys[i]) {
        lemma_fire_slot(keys, k, i + 1);
    }
}

/// Listed reminders come in `fire_at` order and are exactly the reminders
/// in the filter.
pub proof fn law_listed_in_fire_order(rs: Seq<Reminder>, filter: ReminderFilter)
    ensures
        forall|i: int, j: int|
            0 <= i < j < listed(rs, filter).len() ==> !seq_lt(
                (#[trigger] listed(rs, filter)[j]).fire_at@,
                (#[trigger] listed(rs, filter)[i]).fire_at@,
            ),
        forall|r: Reminder| #[trigger] listed(rs, filter).contains(r) <==> rs.contains(r) && in_filter(r, filter),
    decreases rs.len(),
{
    if rs.len() > 0 {
        let front = rs.drop_last();
        law_listed_in_fire_order(front, filter);
        let sorted = listed(front, filter);
        let x = rs.last();
        assert(rs =~= front.push(x));
        if in_filter(x, filter) {
            let keys = fire_keys(sorted);
            let c = x.fire_at@;
            let p = fire_slot(keys, c, 0);
            lemma_fire_slot(keys, c, 0);
            let out = sorted.insert(p, x);
            assert forall|i: int, j: int| 0 <= i < j < out.len() implies !seq_lt(out[j].fire_at@, out[i].fire_at@) by {
                if i != p && j != p {
                    let a = if i < p { i } else { i - 1 };
                    let b = if j < p { j } else { j - 1 };
                    assert(out[i] == sorted[a]);
                    assert(out[j] == sorted[b]);
                } else if j == p {
                    assert(out[i] == sorted[i]);
                    assert(keys[i] == sorted[i].fire_at@);
                } else {
                    let b = j - 1;
                    assert(out[j] == sorted[b]);
                    let kb = sorted[b].fire_at@;
                    assert(keys[b] == kb);
                    if b > p {
                        assert(!seq_lt(sorted[b].fire_at@, sorted[p].fire_at@));
                        crate::text::lemma_seq_lt_total(kb, keys[p]);
                        if seq_lt(keys[p], kb) {
                            crate::text::lemma_seq_lt_transitive(c, keys[p], kb);
                        }
                    }
                    assert(seq_lt(c, kb));
                    crate::text::lemma_seq_lt_asymmetric(c, kb);
                }
            }
            assert forall|r: Reminder| #[trigger] out.contains(r) <==> rs.contains(r) && in_filter(r, filter) by {
                crate::query::lemma_insert_contains(sorted, p, x, r);
                crate::query::lemma_push_contains(front, x, r);
            }
        } else {
            assert forall|r: Reminder| #[trigger] sorted.contains(r) <==> rs.contains(r) && in_filter(r, filter) by {
                crate::query::lemma_push_contains(front, x, r);
            }
        }
    }
}

/// The reminder `next_due` picks is due, and no due reminder fires before
/// it; with nothing due it picks none.
pub proof fn law_next_due_is_earliest(rs: Seq<Reminder>, now: Seq<char>)
    ensures
        earliest_due(rs, now) matches Some(i) ==> 0 <= i < rs.len() && due_at(rs[i], now) && forall|j: int|
            0 <= j < rs.len() && due_at(#[trigger] rs[j], now) ==> !seq_lt(rs[j].fire_at@, rs[i].fire_at@),
        earliest_due(rs, now) is None ==> forall|j: int| 0 <= j < rs.len() ==> !due_at(#[trigger] rs[j], now),
    decreases rs.len(),
{
    if rs.len() > 0 {
        let front = rs.drop_last();
        law_next_due_is_earliest(front, now);
        let e = earliest_due(front, now);
        let l = rs.len() - 1;
        assert forall|j: int| 0 <= j < l implies rs[j] == front[j] by {}
        match e {
            Some(i) => {
                assert(rs[i] == front[i]);
                if due_at(rs[l], now) && !seq_lt(rs[l].fire_at@, rs[i].fire_at@) {
                    assert forall|j: int| 0 <= j < rs.len() && due_at(#[trigger] rs[j], now) implies !seq_lt(rs[j].fire_at@, rs[i].fire_at@) by {
                        if j < l {
                            assert(rs[j] == front[j]);
                        }
                    }
                } else if due_at(rs[l], now) {
                    assert forall|j: int| 0 <= j < rs.len() && due_at(#[trigger] rs[j], now) implies !seq_lt(rs[j].fire_at@, rs[l].fire_at@) by {
                        if j < l {
                            assert(rs[j] == front[j]);
                            assert(!seq_lt(front[j].fire_at@, front[i].fire_at@));
                            if seq_lt(rs[j].fire_at@, rs[l].fire_at@) {
                                crate::text::lemma_seq_lt_total(rs[j].fire_at@, rs[i].fire_at@);
                                if rs[j].fire_at@ == rs[i].fire_at@ {
                                    crate::text::lemma_seq_lt_asymmetric(rs[l].fire_at@, rs[i].fire_at@);
                                } else {
                                    crate::text::lemma_seq_lt_transitive(rs[l].fire_at@, rs[i].fire_at@, rs[j].fire_at@);
                                    crate::text::lemma_seq_lt_asymmetric(rs[j].fire_at@, rs[l].fire_at@);
                                }
                            }
                        } else {
                            crate::text::lemma_seq_lt_irreflexive(rs[l].fire_at@);
                        }
                    }
                } else {
                    assert forall|j: int| 0 <= j < rs.len() && due_at(#[trigger] rs[j], now) implies !seq_lt(rs[j].fire_at@, rs[i].fire_at@) by {
                        if j < l {
                            assert(rs[j] == front[j]);
                        }
                    }
                }
            },
            None => {
                if due_at(rs[l], now) {
                    assert forall|j: int| 0 <= j < rs.len() && due_at(#[trigger] rs[j], now) implies !seq_lt(rs[j].fire_at@, rs[l].fire_at@) by {
                        if j < l {
                            assert(rs[j] == front[j]);
                        } else {
                            crate::text::lemma_seq_lt_irreflexive(rs[l].fire_at@);
                        }
                    }
                } else {
                    assert forall|j: int| 0 <= j < rs.len() implies !due_at(#[trigger] rs[j], now) by {
                        if j < l {
                            assert(rs[j] == front[j]);
                        }
                    }
                }
            },
        }
    }
}

/// Each list holds exactly the reminders in its state: `Active` those
/// neither fired nor cancelled, `Fired` those with a firing stamp (a
/// reminder that was only cancelled is never among them), `Cancelled` those
/// with a cancel stamp, `All` every reminder.
pub proof fn law_lists_select_by_state(rs: Seq<Reminder>)
    ensures
        forall|r: Reminder|
            #[trigger] listed(rs, ReminderFilter::Active).contains(r) <==> rs.contains(r) && r.fired_at is None
                && r.cancelled_at is None,
        forall|r: Reminder|
            #[trigger] listed(rs, ReminderFilter::Fired).contains(r) <==> rs.contains(r) && r.fired_at is Some,
        forall|r: Reminder|
            #[trigger] listed(rs, ReminderFilter::Cancelled).contains(r) <==> rs.contains(r)
                && r.cancelled_at is Some,
        forall|r: Reminder| #[trigger] listed(rs, ReminderFilter::All).contains(r) <==> rs.contains(r),
{
    law_listed_in_fire_order(rs, ReminderFilter::Active);
    law_listed_in_fire_order(rs, ReminderFilter::Fired);
    law_listed_in_fire_order(rs, ReminderFilter::Cancelled);
    law_listed_in_fire_order(rs, ReminderFilter::All);
}

/// The deadline the scheduler sleeps towards is the earliest still to come:
/// the reminder `next_pending_after` reads is active and fires after `now`,
/// and no active reminder firing after `now` fires before it; with none
/// such it reads none.
pub proof fn law_next_pending_is_earliest(rs: Seq<Reminder>, now: Seq<char>)
    ensures
        earliest_pending(rs, now) matches Some(i) ==> 0 <= i < rs.len() && rs[i].fired_at is None
            && rs[i].cancelled_at is None && seq_lt(now, rs[i].fire_at@) && forall|j: int|
            0 <= j < rs.len() && (#[trigger] rs[j]).fired_at is None && rs[j].cancelled_at is None && seq_lt(
                now,
                rs[j].fire_at@,
            ) ==> !seq_lt(rs[j].fire_at@, rs[i].fire_at@),
        earliest_pending(rs, now) is None ==> forall|j: int|
            0 <= j < rs.len() ==> !((#[trigger] rs[j]).fired_at is None && rs[j].cancelled_at is None && seq_lt(
                now,
                rs[j].fire_at@,
            )),
    decreases rs.len(),
{
    if rs.len() > 0 {
        let front = rs.drop_last();
        law_next_pending_is_earliest(front, now);
        let e = earliest_pending(front, now);
        let l = rs.len() - 1;
        assert forall|j: int| 0 <= j < l implies rs[j] == front[j] by {}
        match e {
            Some(i) => {
                assert(rs[i] == front[i]);
                if pending_after(rs[l], now) && !seq_lt(rs[l].fire_at@, rs[i].fire_at@) {
                    assert forall|j: int| 0 <= j < rs.len() && pending_after(#[trigger] rs[j], now) implies !seq_lt(rs[j].fire_at@, rs[i].fire_at@) by {
                        if j < l {
                            assert(rs[j] == front[j]);
                        }
                    }
                } else if pending_after(rs[l], now) {
                    assert forall|j: int| 0 <= j < rs.len() && pending_after(#[trigger] rs[j], now) implies !seq_lt(rs[j].fire_at@, rs[l].fire_at@) by {
                        if j < l {
                            assert(rs[j] == front[j]);
                            assert(!seq_lt(front[j].fire_at@, front[i].fire_at@));
                            if seq_lt(rs[j].fire_at@, rs[l].fire_at@) {
                                crate::text::lemma_seq_lt_total(rs[j].fire_at@, rs[i].fire_at@);
                                if rs[j].fire_at@ == rs[i].fire_at@ {
                                    crate::text::lemma_seq_lt_asymmetric(rs[l].fire_at@, rs[i].fire_at@);
                                } else {
                                    crate::text::lemma_seq_lt_transitive(rs[l].fire_at@, rs[i].fire_at@, rs[j].fire_at@);
                                    crate::text::lemma_seq_lt_asymmetric(rs[j].fire_at@, rs[l].fire_at@);
                                }
                            }
                        } else {
                            crate::text::lemma_seq_lt_irreflexive(rs[l].fire_at@);
                        }
                    }
                } else {
                    assert forall|j: int| 0 <= j < rs.len() && pending_after(#[trigger] rs[j], now) implies !seq_lt(rs[j].fire_at@, rs[i].fire_at@) by {
                        if j < l {
                            assert(rs[j] == front[j]);
                        }
                    }
                }
            },
            None => {
                if pending_after(rs[l], now) {
                    assert forall|j: int| 0 <= j < rs.len() && pending_after(#[trigger] rs[j], now) implies !seq_lt(rs[j].fire_at@, rs[l].fire_at@) by {
                        if j < l {
                            assert(rs[j] == front[j]);
                        } else {
                            crate::text::lemma_seq_lt_irreflexive(rs[l].fire_at@);
                        }
                    }
                } else {
                    assert forall|j: int| 0 <= j < rs.len() implies !pending_after(#[trigger] rs[j], now) by {
                        if j < l {
                            assert(rs[j] == front[j]);
                        }
                    }
                }
            },
        }
    }
}

} // verus!
