use tasktray_chime::config::Schedule;
use tasktray_chime::recurrence::next_run_time;
use tasktray_chime::recurrence::validate_cron_expression;
use tasktray_chime::recurrence::Recurrence;
use tasktray_chime::recurrence::ScheduleError;
use tasktray_chime::scheduler::decide;
use tasktray_chime::scheduler::sleep_slice_millis;
use tasktray_chime::scheduler::CronScheduler;
use tasktray_chime::scheduler::Decision;
use tasktray_chime::scheduler::Phase;

// 2024-01-01T12:00:00Z
const T0: i64 = 1_704_110_400;

fn hourly() -> Schedule {
    Schedule {
        id: "hourly".to_string(),
        schedule_type: "cron".to_string(),
        cron: "0 * * * *".to_string(),
        file: "./audios/chime.wav".to_string(),
        enabled: true,
    }
}

fn started_with_hourly() -> CronScheduler {
    let mut s = CronScheduler::new(T0);
    s.add_schedule(hourly()).unwrap();
    assert!(s.start(T0));
    s
}

#[test]
fn first_cycle_sleeps_until_next_hour() {
    let mut s = started_with_hourly();
    let plan = s.run_cycle(T0 + 1);
    assert!(plan.fired.is_empty());
    assert!(plan.events.is_empty());
    assert_eq!(plan.earliest, Some(T0 + 3600));
    assert_eq!(plan.sleep_millis, 3_599_000);
}

#[test]
fn next_occurrence_two_seconds_before_the_hour() {
    assert_eq!(next_run_time("0 * * * *", T0 + 3598), Ok(T0 + 3600));
    assert_eq!(decide(T0 + 3598, T0, T0 + 3600, None), Decision::Fire);
}

#[test]
fn due_rule_fires_once_and_is_recorded() {
    let mut s = started_with_hourly();
    let plan = s.run_cycle(T0 + 3598);
    assert_eq!(plan.fired.len(), 1);
    assert_eq!(plan.fired[0].id, "hourly");
    assert_eq!(plan.fired[0].file, "./audios/chime.wav");
    assert_eq!(plan.events.len(), 1);
    assert_eq!(plan.events[0].schedule_id, "hourly");
    assert_eq!(plan.events[0].triggered_at, T0 + 3598);
    assert_eq!(plan.earliest, Some(T0 + 3600));
    assert_eq!(plan.sleep_millis, 2000);
}

#[test]
fn second_cycle_within_dedup_interval_skips() {
    let mut s = started_with_hourly();
    assert_eq!(s.run_cycle(T0 + 3598).fired.len(), 1);
    let plan = s.run_cycle(T0 + 3602);
    assert!(plan.fired.is_empty());
    // the firing check alone: due (2 s past), but fired 4 s ago
    assert_eq!(decide(T0 + 3602, T0, T0 + 3600, Some(T0 + 3598)), Decision::Skip);
}

#[test]
fn removed_rule_is_gone() {
    let mut s = started_with_hourly();
    s.remove_schedule("hourly");
    assert!(s.list().is_empty());
    let plan = s.run_cycle(T0 + 3598);
    assert!(plan.fired.is_empty());
    assert_eq!(plan.earliest, None);
    assert_eq!(plan.sleep_millis, 1000);
}

#[test]
fn registering_twice_changes_nothing() {
    let mut s = CronScheduler::new(T0);
    s.add_schedule(hourly()).unwrap();
    let once = s.list();
    s.add_schedule(hourly()).unwrap();
    let twice = s.list();
    assert_eq!(once.len(), 1);
    assert_eq!(twice.len(), 1);
    assert_eq!(once[0].id, twice[0].id);
    assert_eq!(once[0].cron, twice[0].cron);
    assert_eq!(once[0].file, twice[0].file);
    assert_eq!(once[0].enabled, twice[0].enabled);
}

#[test]
fn replacing_keeps_position() {
    let mut s = CronScheduler::new(T0);
    s.add_schedule(hourly()).unwrap();
    let mut other = hourly();
    other.id = "other".to_string();
    s.add_schedule(other).unwrap();
    let mut changed = hourly();
    changed.file = "./audios/bell.wav".to_string();
    s.add_schedule(changed).unwrap();
    let l = s.list();
    assert_eq!(l.len(), 2);
    assert_eq!(l[0].id, "hourly");
    assert_eq!(l[0].file, "./audios/bell.wav");
    assert_eq!(l[1].id, "other");
}

#[test]
fn invalid_expression_is_refused() {
    let mut s = CronScheduler::new(T0);
    let mut bad = hourly();
    bad.cron = "every hour".to_string();
    assert_eq!(s.add_schedule(bad), Err(ScheduleError::InvalidExpression));
    assert!(s.list().is_empty());
    assert_eq!(validate_cron_expression("61 * * * *"), Err(ScheduleError::InvalidExpression));
    assert_eq!(next_run_time("nope", T0), Err(ScheduleError::InvalidExpression));
    assert!(Recurrence::parse("0 * * * *").is_ok());
}

#[test]
fn expression_that_never_occurs_is_not_found() {
    assert_eq!(next_run_time("0 0 30 2 *", T0), Err(ScheduleError::NotFound));
    let mut s = CronScheduler::new(T0);
    let mut feb30 = hourly();
    feb30.cron = "0 0 30 2 *".to_string();
    s.add_schedule(feb30).unwrap();
    let plan = s.run_cycle(T0 + 100);
    assert_eq!(plan.unresolved, vec!["hourly".to_string()]);
    assert_eq!(plan.earliest, None);
}

#[test]
fn set_enabled_unknown_id_is_not_found() {
    let mut s = CronScheduler::new(T0);
    assert_eq!(s.set_enabled("missing", false), Err(ScheduleError::NotFound));
}

#[test]
fn disabled_rule_is_skipped() {
    let mut s = started_with_hourly();
    assert_eq!(s.set_enabled("hourly", false), Ok(()));
    assert!(!s.list()[0].enabled);
    let plan = s.run_cycle(T0 + 3598);
    assert!(plan.fired.is_empty());
    assert_eq!(plan.earliest, None);
    assert_eq!(s.set_enabled("hourly", true), Ok(()));
    assert_eq!(s.run_cycle(T0 + 3598).fired.len(), 1);
}

#[test]
fn startup_grace_suppresses_firing() {
    let mut s = CronScheduler::new(T0 + 3595);
    s.add_schedule(hourly()).unwrap();
    let plan = s.run_cycle(T0 + 3600);
    assert!(plan.fired.is_empty());
    assert_eq!(plan.earliest, Some(T0 + 3600));
    assert_eq!(decide(T0 + 3600, T0 + 3595, T0 + 3600, None), Decision::Skip);
    assert_eq!(decide(T0 + 3605, T0 + 3595, T0 + 3600, None), Decision::Fire);
}

#[test]
fn firing_window_and_dedup_edges() {
    assert_eq!(decide(T0, T0 - 100, T0 + 5, None), Decision::Fire);
    assert_eq!(decide(T0, T0 - 100, T0 + 6, None), Decision::Skip);
    assert_eq!(decide(T0, T0 - 100, T0 - 5, None), Decision::Fire);
    assert_eq!(decide(T0, T0 - 100, T0 - 6, None), Decision::Skip);
    assert_eq!(decide(T0, T0 - 100, T0, Some(T0 - 29)), Decision::Skip);
    assert_eq!(decide(T0, T0 - 100, T0, Some(T0 - 30)), Decision::Fire);
}

#[test]
fn fires_again_at_the_next_hour() {
    let mut s = started_with_hourly();
    assert_eq!(s.run_cycle(T0 + 3600).fired.len(), 1);
    assert!(s.run_cycle(T0 + 3601).fired.is_empty());
    assert_eq!(s.run_cycle(T0 + 7200).fired.len(), 1);
}

#[test]
fn next_occurrence_is_monotonic_and_not_before_reference() {
    let mut prev = 0;
    for t in [T0, T0 + 1, T0 + 3599, T0 + 3600, T0 + 3601, T0 + 7000] {
        let n = next_run_time("0 * * * *", t).unwrap();
        assert!(n > t - 1);
        assert!(n >= prev);
        prev = n;
    }
    assert_eq!(next_run_time("0 * * * *", T0), Ok(T0));
    assert_eq!(next_run_time("0 * * * *", T0 + 1), Ok(T0 + 3600));
}

#[test]
fn six_field_and_shorthand_expressions() {
    assert_eq!(next_run_time("30 0 * * * *", T0 + 1), Ok(T0 + 30));
    assert_eq!(next_run_time("@hourly", T0 + 1), Ok(T0 + 3600));
    assert_eq!(next_run_time("  15   12 * * *", T0 + 1), Ok(T0 + 900));
}

#[test]
fn lifecycle_transitions() {
    let mut s = CronScheduler::new(T0);
    assert_eq!(s.phase(), Phase::Idle);
    assert!(!s.is_running());
    assert!(s.start(T0 + 20));
    assert!(s.is_running());
    assert_eq!(s.start_time(), T0 + 20);
    assert!(!s.start(T0 + 40));
    assert_eq!(s.start_time(), T0 + 20);
    s.stop();
    assert_eq!(s.phase(), Phase::Stopping);
    s.stop();
    assert_eq!(s.phase(), Phase::Stopping);
    s.finish();
    assert_eq!(s.phase(), Phase::Stopped);
    assert!(!s.start(T0 + 60));
    let mut idle = CronScheduler::new(T0);
    idle.stop();
    assert_eq!(idle.phase(), Phase::Idle);
    assert_eq!(idle.start_time(), T0);
    assert!(idle.start(T0 + 5));
    assert!(idle.is_running());
}

#[test]
fn sleep_is_split_into_second_slices() {
    assert_eq!(sleep_slice_millis(3_600_000), 1000);
    assert_eq!(sleep_slice_millis(1000), 1000);
    assert_eq!(sleep_slice_millis(250), 250);
}

#[test]
fn near_occurrence_waits_the_shortest_sleep() {
    let mut s = CronScheduler::new(T0 - 100);
    let mut r = hourly();
    r.enabled = true;
    s.add_schedule(r).unwrap();
    // the occurrence is exactly now: it fires, and the loop pauses one second
    let plan = s.run_cycle(T0);
    assert_eq!(plan.fired.len(), 1);
    assert_eq!(plan.earliest, Some(T0));
    assert_eq!(plan.sleep_millis, 1000);
}

#[test]
fn grace_counts_from_start_not_creation() {
    let mut s = CronScheduler::new(T0);
    s.add_schedule(hourly()).unwrap();
    assert!(s.start(T0 + 3595));
    // due at T0 + 3600, but only 5 s after polling began
    assert!(s.run_cycle(T0 + 3600).fired.is_empty());
}

#[test]
fn occurrence_is_its_own_next() {
    let n = next_run_time("0 * * * *", T0 + 1).unwrap();
    assert_eq!(next_run_time("0 * * * *", n), Ok(n));
}
