use plainnote::watcher::{interesting, ChangeKind, Debouncer};

#[test]
fn only_content_changes_are_interesting() {
    assert!(interesting(ChangeKind::Create));
    assert!(interesting(ChangeKind::Modify));
    assert!(interesting(ChangeKind::Remove));
    assert!(!interesting(ChangeKind::Access));
    assert!(!interesting(ChangeKind::Any));
    assert!(!interesting(ChangeKind::Other));
}

#[test]
fn burst_coalesces_into_single_event() {
    let mut d = Debouncer::new(0);
    for t in 0..20u64 {
        d.on_event(100 + t);
    }
    assert!(!d.on_quiet(200, 150), "window not over yet");
    assert!(d.on_quiet(269, 150));
    assert!(!d.on_quiet(500, 150), "no second event for the same burst");
    assert!(!d.on_quiet(10_000, 150));
}

#[test]
fn new_event_after_emission_is_emitted_again() {
    let mut d = Debouncer::new(0);
    d.on_event(10);
    assert!(d.on_quiet(60, 50));
    d.on_event(100);
    assert!(!d.on_quiet(120, 50));
    assert!(d.on_quiet(150, 50));
}

#[test]
fn clock_reading_earlier_than_event_does_not_emit() {
    let mut d = Debouncer::new(0);
    d.on_event(1_000);
    assert!(!d.on_quiet(10, 50));
    assert!(d.pending);
}
