use plainnote::index::Index;
use plainnote::reminders::{cancel_reminder, create_reminder, mark_fired};
use plainnote::scheduler::{delivery_result, plan_step, sleep_ms, NotifyError, SchedulerStep, Wake, MIN_SLEEP_MS};

fn secs(s: &str) -> i64 {
    chrono::DateTime::parse_from_rfc3339(s).unwrap().timestamp()
}

#[test]
fn overdue_reminder_is_fired_first() {
    let mut idx = Index::new();
    create_reminder(&mut idx, None, "2000-01-01T00:00:00Z", "overdue").unwrap();
    let now = "2026-06-01T11:00:00Z";
    match plan_step(&idx, now, secs(now) * 1000, 500) {
        SchedulerStep::Fire(r) => assert_eq!(r.body, "overdue"),
        other => panic!("expected a fire, got {other:?}"),
    }
}

#[test]
fn overdue_reminders_fire_one_after_another() {
    let mut idx = Index::new();
    for (at, body) in [("2000-01-02T00:00:00Z", "b"), ("2000-01-01T00:00:00Z", "a"), ("2000-01-03T00:00:00Z", "c")] {
        create_reminder(&mut idx, None, at, body).unwrap();
    }
    let now = "2026-06-01T11:00:00Z";
    let mut fired = vec![];
    loop {
        match plan_step(&idx, now, secs(now) * 1000, 500) {
            SchedulerStep::Fire(r) => {
                fired.push(r.body.clone());
                mark_fired(&mut idx, &r.id).unwrap();
            }
            SchedulerStep::Sleep(ms) => {
                assert_eq!(ms, 500);
                break;
            }
        }
    }
    assert_eq!(fired, vec!["a", "b", "c"]);
}

#[test]
fn cancelled_reminder_is_not_fired() {
    let mut idx = Index::new();
    let id = create_reminder(&mut idx, None, "2000-01-01T00:00:00Z", "cancel-me").unwrap();
    cancel_reminder(&mut idx, &id).unwrap();
    let now = "2026-06-01T11:00:00Z";
    assert!(matches!(plan_step(&idx, now, secs(now) * 1000, 500), SchedulerStep::Sleep(500)));
}

#[test]
fn sleeps_until_next_deadline_within_bounds() {
    let mut idx = Index::new();
    create_reminder(&mut idx, None, "2026-06-01T11:00:10Z", "soon").unwrap();
    let now = "2026-06-01T11:00:00Z";
    let now_ms = secs(now) * 1000 + 250;
    match plan_step(&idx, now, now_ms, 60_000) {
        SchedulerStep::Sleep(ms) => assert_eq!(ms, 9_750),
        other => panic!("{other:?}"),
    }
    match plan_step(&idx, now, now_ms, 1_000) {
        SchedulerStep::Sleep(ms) => assert_eq!(ms, 1_000),
        other => panic!("{other:?}"),
    }
}

#[test]
fn sleep_is_clamped() {
    assert_eq!(sleep_ms(None, 0, 777), 777);
    assert_eq!(sleep_ms(Some(10), 10_000, 5_000), MIN_SLEEP_MS);
    assert_eq!(sleep_ms(Some(10), 9_990, 5_000), MIN_SLEEP_MS);
    assert_eq!(sleep_ms(Some(10), 5_000, 1_000), 1_000);
    assert_eq!(sleep_ms(Some(10), 5_000, 10), MIN_SLEEP_MS);
    assert_eq!(sleep_ms(Some(i64::MAX), i64::MIN, u64::MAX), u64::MAX);
}

#[test]
fn notify_error_message() {
    assert_eq!(NotifyError::Delivery("dbus down".into()).to_string(), "notification delivery failed: dbus down");
    let w = Wake;
    let _copy = w;
    let _again = w;
}

#[test]
fn delivery_result_keeps_the_service_message() {
    assert!(delivery_result(Ok(())).is_ok());
    match delivery_result(Err("no session bus".to_string())) {
        Err(NotifyError::Delivery(m)) => assert_eq!(m, "no session bus"),
        other => panic!("unexpected {other:?}"),
    }
}

#[test]
fn failed_delivery_pauses_before_retrying() {
    assert_eq!(plainnote::scheduler::after_delivery(true, 80), None);
    assert_eq!(plainnote::scheduler::after_delivery(false, 80), Some(80));
    assert_eq!(plainnote::scheduler::after_delivery(false, 10), Some(MIN_SLEEP_MS));
}
