use iss_notify::sched::{plan_sighting, resolve_wait, BlinktCmd, WaitPlan, NOTIFY_DURATION};

#[test]
fn lead_time_constant_is_five_minutes() {
    assert_eq!(NOTIFY_DURATION, 300);
}

#[test]
fn wait_is_time_to_event_minus_lead() {
    let now: i64 = 1_700_000_000;
    assert_eq!(plan_sighting(now + 400, now), WaitPlan::Wait { seconds: 100 });
}

#[test]
fn wait_is_floored_at_zero_inside_lead_window() {
    let now: i64 = 1_700_000_000;
    assert_eq!(plan_sighting(now + 300, now), WaitPlan::Wait { seconds: 0 });
    assert_eq!(plan_sighting(now + 10, now), WaitPlan::Wait { seconds: 0 });
    assert_eq!(plan_sighting(now, now), WaitPlan::Wait { seconds: 0 });
}

#[test]
fn past_events_are_skipped() {
    let now: i64 = 1_700_000_000;
    assert_eq!(plan_sighting(now - 1, now), WaitPlan::SkipPast);
    assert_eq!(plan_sighting(now - 100_000, now), WaitPlan::SkipPast);
}

#[test]
fn interrupt_turns_into_terminate() {
    assert_eq!(resolve_wait(true, 123), BlinktCmd::Terminate);
}

#[test]
fn elapsed_wait_turns_into_approach_command() {
    assert_eq!(resolve_wait(false, 123), BlinktCmd::IssApproching(123));
}
