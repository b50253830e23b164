//! Filesystem-watch decisions.
//!
//! The desktop shell receives raw change events from the OS watcher. Only
//! creations, modifications and removals matter to the index; bursts of
//! them are coalesced so one quiet window yields one "something changed"
//! signal, and reconciliation does not thrash.
use vstd::prelude::*;

verus! {

/// The kind of a raw filesystem event.
#[derive(Debug, Clone, Copy, PartialEq, Eq, Structural)]
pub enum ChangeKind {
    Any,
    Access,
    Create,
    Modify,
    Remove,
    Other,
}

/// Whether an event of this kind can change what the index holds.
pub fn interesting(kind: ChangeKind) -> (r: bool)
    ensures
        r == (kind == ChangeKind::Create || kind == ChangeKind::Modify || kind
            == ChangeKind::Remove),
{
    match kind {
        ChangeKind::Create => true,
        ChangeKind::Modify => true,
        ChangeKind::Remove => true,
        _ => false,
    }
}

/// The debouncer's state: whether an event awaits emission, and when the
/// latest one arrived (milliseconds on a monotonic clock).
#[derive(Debug, Clone, Copy, PartialEq, Eq, Structural)]
pub struct Debouncer {
    pub pending: bool,
    pub last_event_ms: u64,
}

/// Milliseconds from `since` to `now`, zero if the clock reads earlier.
pub open spec fn elapsed(since: u64, now: u64) -> int {
    if now >= since { now - since } else { 0 }
}

/// The state after a raw event at `now`.
pub open spec fn after_event(now: u64) -> Debouncer {
    Debouncer { pending: true, last_event_ms: now }
}

/// Whether a quiet tick at `now` emits: an event is pending and the window
/// has passed since the last one.
pub open spec fn emits(d: Debouncer, now: u64, window_ms: u64) -> bool {
    d.pending && elapsed(d.last_event_ms, now) >= window_ms
}

/// The state after a quiet tick at `now`.
pub open spec fn after_tick(d: Debouncer, now: u64, window_ms: u64) -> Debouncer {
    if emits(d, now, window_ms) {
        Debouncer { pending: false, last_event_ms: d.last_event_ms }
    } else {
        d
    }
}

impl Debouncer {
    /// Nothing pending; the clock starts at `now`.
    pub fn new(now: u64) -> (r: Debouncer)
        ensures
            !r.pending,
            r.last_event_ms == now,
    {
        Debouncer { pending: false, last_event_ms: now }
    }

    /// A raw event arrived at `now`.
    pub fn on_event(&mut self, now: u64)
        ensures
            *final(self) == after_event(now),
    {
        self.pending = true;
        self.last_event_ms = now;
    }

    /// The wait for the next event timed out at `now`; returns whether to
    /// emit one coalesced event.
    pub fn on_quiet(&mut self, now: u64, window_ms: u64) -> (emit: bool)
        ensures
            emit == emits(*old(self), now, window_ms),
            *final(self) == after_tick(*old(self), now, window_ms),
    {
        let waited: u64 = if now >= self.last_event_ms { now - self.last_event_ms } else { 0 };
        if self.pending && waited >= window_ms {
            self.pending = false;
            true
        } else {
            false
        }
    }
}

/// A burst yields one emission: once a tick has emitted, later ticks emit
/// nothing until another event arrives.
pub proof fn law_one_emission_per_burst(d: Debouncer, t1: u64, t2: u64, window_ms: u64)
    requires
        emits(d, t1, window_ms),
    ensures
        !emits(after_tick(d, t1, window_ms), t2, window_ms),
{
}

/// An event always ends up emitted: after it, a tick a full window later
/// emits.
pub proof fn law_event_is_emitted(now: u64, later: u64, window_ms: u64)
    requires
        later >= now + window_ms,
    ensures
        emits(after_event(now), later, window_ms),
{
}

} // verus!
