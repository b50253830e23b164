//! Reminder scheduler decisions.
//!
//! The scheduler task in the desktop shell loops: it asks [`plan_step`]
//! what to do at the current instant, delivers a due reminder through a
//! [`Notifier`] and marks it fired when delivery succeeded, or sleeps for
//! the planned time unless a [`Wake`] arrives first. Every decision is
//! taken here from fresh index rows, so a restart loses nothing: overdue
//! reminders fire one after another on the first passes.
use vstd::prelude::*;

use crate::index::Index;
use crate::reminders::{earliest_due, earliest_pending, next_due, next_pending_after, utc_seconds_of, Reminder};
use crate::text::joined;

verus! {

/// A failed delivery.
#[derive(Debug)]
pub enum NotifyError {
    Delivery(String),
}

impl NotifyError {
    /// The error's message.
    pub fn to_string(&self) -> (r: String)
        ensures
            r@ == match self {
                NotifyError::Delivery(m) => "notification delivery failed: "@ + m@,
            },
    {
        match self {
            NotifyError::Delivery(m) => joined("notification delivery failed: ", m.as_str()),
        }
    }
}

/// Anything that can deliver a reminder. On `Err` the reminder stays
/// pending and is retried on the next pass.
pub trait Notifier: Send + Sync {
    fn notify(&self, reminder: &Reminder) -> Result<(), NotifyError>;
}

/// Desktop notifications through the session's notification service.
pub struct DesktopNotifier;

/// Shows a desktop notification with `summary` and `body` at normal
/// urgency (`notify_rust::Notification::show`); `Err` carries the
/// service's error message. Whether it is shown depends on the desktop
/// session, so nothing is stated of the outcome.
#[verifier::external_body]
fn show_notification(summary: &str, body: &str) -> Result<(), String> {
    notify_rust::Notification::new().summary(summary).body(body).urgency(
        notify_rust::Urgency::Normal,
    ).show().map(|_| ()).map_err(|e| e.to_string())
}

/// What a delivery attempt reports: success as it is, and the service's
/// error message as a [`NotifyError::Delivery`].
pub fn delivery_result(shown: Result<(), String>) -> (r: Result<(), NotifyError>)
    ensures
        match shown {
            Ok(()) => r is Ok,
            Err(m) => r matches Err(NotifyError::Delivery(d)) && d@ == m@,
        },
{
    match shown {
        Ok(()) => Ok(()),
        Err(m) => Err(NotifyError::Delivery(m)),
    }
}

impl Notifier for DesktopNotifier {
    fn notify(&self, reminder: &Reminder) -> Result<(), NotifyError> {
        delivery_result(show_notification("Plainnote reminder", reminder.body.as_str()))
    }
}

/// Wake signal sent to the scheduler when a reminder is created or
/// cancelled.
#[derive(Debug, Clone, Copy)]
pub struct Wake;

/// The shortest sleep between passes, in milliseconds.
pub const MIN_SLEEP_MS: u64 = 50;

/// What the scheduler does next.
#[derive(Debug)]
pub enum SchedulerStep {
    /// Deliver this reminder, then plan again at once.
    Fire(Reminder),
    /// Sleep this many milliseconds (or until woken), then plan again.
    Sleep(u64),
}

/// The deadline, in Unix seconds, of the next reminder still to come after
/// `now`; `None` when there is none or its stamp does not parse.
pub open spec fn pending_deadline(rs: Seq<Reminder>, now: Seq<char>) -> Option<i64> {
    match earliest_pending(rs, now) {
        Some(i) => utc_seconds_of(rs[i].fire_at@),
        None => None,
    }
}

/// How long to sleep, in milliseconds, at `now_ms` (Unix milliseconds)
/// given the next deadline: the time left until it, no less than zero, no
/// more than `max_idle_ms`, and then no less than [`MIN_SLEEP_MS`];
/// `max_idle_ms` when nothing is pending.
pub open spec fn sleep_for(deadline: Option<i64>, now_ms: i64, max_idle_ms: u64) -> int {
    match deadline {
        Some(d) => {
            let gap = d * 1000 - now_ms;
            let left = if gap < 0 { 0 } else { gap };
            let capped = if left < max_idle_ms { left } else { max_idle_ms as int };
            if capped < MIN_SLEEP_MS { MIN_SLEEP_MS as int } else { capped }
        },
        None => max_idle_ms as int,
    }
}

/// See [`sleep_for`].
pub fn sleep_ms(deadline: Option<i64>, now_ms: i64, max_idle_ms: u64) -> (r: u64)
    ensures
        r == sleep_for(deadline, now_ms, max_idle_ms),
{
    match deadline {
        Some(d) => {
            let gap: i128 = d as i128 * 1000 - now_ms as i128;
            let left: i128 = if gap < 0 { 0 } else { gap };
            let capped: u64 = if left < max_idle_ms as i128 { left as u64 } else { max_idle_ms };
            if capped < MIN_SLEEP_MS { MIN_SLEEP_MS } else { capped }
        },
        None => max_idle_ms,
    }
}

/// The next step at `now` (a canonical UTC stamp) and `now_ms` (the same
/// instant in Unix milliseconds): fire the earliest due reminder if there
/// is one, else sleep until the next deadline, within the bounds of
/// [`sleep_for`].
pub fn plan_step(index: &Index, now: &str, now_ms: i64, max_idle_ms: u64) -> (r: SchedulerStep)
    ensures
        match earliest_due(index.reminders@, now@) {
            Some(i) => r == SchedulerStep::Fire(index.reminders@[i]),
            None => r == SchedulerStep::Sleep(
                sleep_for(pending_deadline(index.reminders@, now@), now_ms, max_idle_ms) as u64,
            ),
        },
{
    match next_due(index, now) {
        Ok(Some(r)) => {
            return SchedulerStep::Fire(r);
        },
        _ => {},
    }
    let deadline = match next_pending_after(index, now) {
        Ok(d) => d,
        Err(_) => None,
    };
    SchedulerStep::Sleep(sleep_ms(deadline, now_ms, max_idle_ms))
}

/// What follows a delivery attempt: `None` when the reminder was delivered
/// (mark it fired and plan again at once); when delivery failed the
/// reminder stays pending and the scheduler pauses for the idle period, no
/// less than [`MIN_SLEEP_MS`] (or until woken), before it tries again.
pub fn after_delivery(delivered: bool, max_idle_ms: u64) -> (r: Option<u64>)
    ensures
        delivered ==> r is None,
        !delivered ==> r == Some(if max_idle_ms < MIN_SLEEP_MS { MIN_SLEEP_MS } else { max_idle_ms }),
{
    if delivered {
        None
    } else if max_idle_ms < MIN_SLEEP_MS {
        Some(MIN_SLEEP_MS)
    } else {
        Some(max_idle_ms)
    }
}

/// Every planned sleep lies between the minimum sleep and the larger of the
/// idle limit and that minimum; with nothing pending it is the idle limit.
pub proof fn law_sleep_is_bounded(deadline: Option<i64>, now_ms: i64, max_idle_ms: u64)
    ensures
        deadline is None ==> sleep_for(deadline, now_ms, max_idle_ms) == max_idle_ms,
        deadline is Some ==> MIN_SLEEP_MS <= sleep_for(deadline, now_ms, max_idle_ms),
        sleep_for(deadline, now_ms, max_idle_ms) <= if max_idle_ms < MIN_SLEEP_MS {
            MIN_SLEEP_MS
        } else {
            max_idle_ms
        },
{
}

/// A reminder whose deadline has passed is never slept over: while one is
/// due, the step fires the earliest of them.
pub proof fn law_due_reminder_fires_first(rs: Seq<Reminder>, now: Seq<char>, i: int)
    requires
        0 <= i < rs.len(),
        crate::reminders::due_at(rs[i], now),
    ensures
        earliest_due(rs, now) is Some,
    decreases rs.len(),
{
    if i < rs.len() - 1 {
        law_due_reminder_fires_first(rs.drop_last(), now, i);
        assert(rs.drop_last()[i] == rs[i]);
    }
}

} // verus!
