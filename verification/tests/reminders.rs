use plainnote::ids::NoteId;
use plainnote::index::Index;
use plainnote::reminders::{
    cancel_reminder, create_reminder, list_reminders, mark_fired, next_due, next_pending_after, parse_iso, ReminderError,
    ReminderFilter,
};

fn fresh_index() -> Index {
    Index::new()
}

#[test]
fn create_and_list_active() {
    let mut idx = fresh_index();
    let id = create_reminder(&mut idx, None, "2026-06-01T10:00:00Z", "drink water").unwrap();
    let active = list_reminders(&idx, ReminderFilter::Active).unwrap();
    assert_eq!(active.len(), 1);
    assert_eq!(active[0].id, id);
    assert_eq!(active[0].body, "drink water");
    assert_eq!(active[0].fire_at, "2026-06-01T10:00:00Z");
    assert!(active[0].fired_at.is_none());
    assert!(active[0].cancelled_at.is_none());
}

#[test]
fn create_canonicalizes_offset_into_z() {
    let mut idx = fresh_index();
    let id = create_reminder(&mut idx, None, "2026-06-01T13:00:00+03:00", "x").unwrap();
    let r = list_reminders(&idx, ReminderFilter::Active).unwrap();
    assert_eq!(r[0].id, id);
    assert_eq!(r[0].fire_at, "2026-06-01T10:00:00Z");
}

#[test]
fn create_rejects_bad_timestamp() {
    let mut idx = fresh_index();
    let err = create_reminder(&mut idx, None, "tomorrow", "x").unwrap_err();
    assert!(matches!(err, ReminderError::InvalidTimestamp(_)));
    assert!(idx.reminders.is_empty());
}

#[test]
fn cancel_excludes_from_active_but_keeps_row() {
    let mut idx = fresh_index();
    let id = create_reminder(&mut idx, None, "2026-06-01T10:00:00Z", "x").unwrap();
    cancel_reminder(&mut idx, &id).unwrap();
    assert_eq!(list_reminders(&idx, ReminderFilter::Active).unwrap().len(), 0);
    assert_eq!(list_reminders(&idx, ReminderFilter::Cancelled).unwrap().len(), 1);
    assert_eq!(list_reminders(&idx, ReminderFilter::All).unwrap().len(), 1);
}

#[test]
fn cancel_idempotent_returns_not_found_second_time() {
    let mut idx = fresh_index();
    let id = create_reminder(&mut idx, None, "2026-06-01T10:00:00Z", "x").unwrap();
    cancel_reminder(&mut idx, &id).unwrap();
    let err = cancel_reminder(&mut idx, &id).unwrap_err();
    assert!(matches!(err, ReminderError::NotFound(_)));
}

#[test]
fn mark_fired_moves_to_fired_state() {
    let mut idx = fresh_index();
    let id = create_reminder(&mut idx, None, "2026-06-01T10:00:00Z", "x").unwrap();
    mark_fired(&mut idx, &id).unwrap();
    assert_eq!(list_reminders(&idx, ReminderFilter::Active).unwrap().len(), 0);
    let fired = list_reminders(&idx, ReminderFilter::Fired).unwrap();
    assert_eq!(fired.len(), 1);
    assert!(fired[0].fired_at.is_some());
}

#[test]
fn mark_fired_twice_errors() {
    let mut idx = fresh_index();
    let id = create_reminder(&mut idx, None, "2026-06-01T10:00:00Z", "x").unwrap();
    mark_fired(&mut idx, &id).unwrap();
    let err = mark_fired(&mut idx, &id).unwrap_err();
    assert!(matches!(err, ReminderError::NotFound(_)));
}

#[test]
fn next_due_picks_earliest_overdue() {
    let mut idx = fresh_index();
    let _later = create_reminder(&mut idx, None, "2026-06-01T12:00:00Z", "later").unwrap();
    let earlier = create_reminder(&mut idx, None, "2026-06-01T10:00:00Z", "earlier").unwrap();
    let _future = create_reminder(&mut idx, None, "2030-01-01T00:00:00Z", "future").unwrap();
    let due = next_due(&idx, "2026-06-01T11:00:00Z").unwrap().expect("one due");
    assert_eq!(due.id, earlier);
}

#[test]
fn next_due_returns_none_when_nothing_overdue() {
    let mut idx = fresh_index();
    create_reminder(&mut idx, None, "2030-01-01T00:00:00Z", "future").unwrap();
    assert!(next_due(&idx, "2026-06-01T11:00:00Z").unwrap().is_none());
}

#[test]
fn next_due_skips_cancelled_and_fired() {
    let mut idx = fresh_index();
    let cancelled = create_reminder(&mut idx, None, "2026-06-01T10:00:00Z", "cancelled").unwrap();
    cancel_reminder(&mut idx, &cancelled).unwrap();
    let fired = create_reminder(&mut idx, None, "2026-06-01T10:00:00Z", "fired").unwrap();
    mark_fired(&mut idx, &fired).unwrap();
    assert!(next_due(&idx, "2026-06-01T11:00:00Z").unwrap().is_none());
}

#[test]
fn next_pending_after_returns_earliest_future() {
    let mut idx = fresh_index();
    create_reminder(&mut idx, None, "2026-06-01T12:00:00Z", "a").unwrap();
    create_reminder(&mut idx, None, "2026-06-01T15:00:00Z", "b").unwrap();
    let next = next_pending_after(&idx, "2026-06-01T11:00:00Z").unwrap().unwrap();
    let when = chrono::DateTime::from_timestamp(next, 0).unwrap();
    assert_eq!(when.format("%Y-%m-%dT%H:%M:%SZ").to_string(), "2026-06-01T12:00:00Z");
}

#[test]
fn list_active_orders_by_fire_at_ascending() {
    let mut idx = fresh_index();
    let later = create_reminder(&mut idx, None, "2026-06-02T00:00:00Z", "later").unwrap();
    let earlier = create_reminder(&mut idx, None, "2026-06-01T00:00:00Z", "earlier").unwrap();
    let active = list_reminders(&idx, ReminderFilter::Active).unwrap();
    assert_eq!(active[0].id, earlier);
    assert_eq!(active[1].id, later);
}

#[test]
fn note_id_round_trips() {
    let mut idx = fresh_index();
    let nid = NoteId::parse("01HXYZ0000000000000000000A").unwrap();
    let _id = create_reminder(&mut idx, Some(&nid), "2026-06-01T10:00:00Z", "x").unwrap();
    let active = list_reminders(&idx, ReminderFilter::Active).unwrap();
    assert_eq!(active[0].note_id, Some(nid));
}

#[test]
fn reminder_ids_are_ulids_and_distinct() {
    let mut idx = fresh_index();
    let a = create_reminder(&mut idx, None, "2026-06-01T10:00:00Z", "a").unwrap();
    let b = create_reminder(&mut idx, None, "2026-06-01T10:00:00Z", "b").unwrap();
    assert_ne!(a, b);
    assert!(NoteId::parse(&a).is_ok());
    assert!(NoteId::parse(&b).is_ok());
}

#[test]
fn reminder_error_messages() {
    assert_eq!(ReminderError::InvalidTimestamp("x".into()).to_string(), "invalid timestamp: x");
    assert_eq!(ReminderError::NotFound("y".into()).to_string(), "not found: y");
}

#[test]
fn parse_iso_gives_unix_seconds_in_utc() {
    assert_eq!(parse_iso("2030-01-01T00:00:00Z"), Some(1_893_456_000));
    assert_eq!(parse_iso("2030-01-01T01:00:00+01:00"), Some(1_893_456_000));
    assert!(parse_iso("2030-01-01T00:00:01Z") > parse_iso("2030-01-01T00:00:00Z"));
    assert_eq!(parse_iso("not a time"), None);
    assert_eq!(parse_iso(""), None);
}
