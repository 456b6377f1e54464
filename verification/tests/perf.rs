use vitui_engine::perf::{overrun_by, poll_for, stall_limit, Perf, Watch, POLL_CEILING, POLL_FLOOR, STALL_FACTOR, STALL_FLOOR};

const MS: u64 = 1_000_000;

/// One frame interval at the default sixty frames a second.
const DEFAULT_THRESHOLD: u64 = 16_666_666;

/// Short enough to overrun on purpose.
const TIGHT: u64 = MS;

/// A release-build detector with a sink, pinned to a tight budget.
fn detector() -> Perf {
    Perf::new(TIGHT, true, true, false)
}

#[test]
fn an_iteration_inside_the_threshold_is_not_an_overrun() {
    let entered = 5_000 * MS;
    assert_eq!(overrun_by(Some(entered), entered + 7 * MS, 0, 8 * MS), None);
}

#[test]
fn an_iteration_past_the_threshold_reports_by_how_much() {
    let entered = 5_000 * MS;
    assert_eq!(overrun_by(Some(entered), entered + 20 * MS, 0, 8 * MS), Some(20 * MS));
}

#[test]
fn a_present_with_no_wait_before_it_is_not_an_iteration_at_all() {
    assert_eq!(overrun_by(None, 5_000 * MS, 0, 1), None);
}

#[test]
fn what_a_permit_excused_comes_off_the_iteration_rather_than_off_the_detector() {
    let entered = 5_000 * MS;
    let threshold = 8 * MS;
    let now = entered + 20 * MS;
    assert_eq!(overrun_by(Some(entered), now, 14 * MS, threshold), None);
    assert_eq!(overrun_by(Some(entered), now, 5 * MS, threshold), Some(15 * MS));
}

#[test]
fn the_stall_limit_is_far_past_the_threshold_and_moves_with_it() {
    assert_eq!(stall_limit(16_666_666), 16_666_666 * STALL_FACTOR);
    assert!(stall_limit(DEFAULT_THRESHOLD) > STALL_FLOOR);
}

#[test]
fn the_poll_is_several_polls_inside_the_limit_and_clamped_at_both_ends() {
    assert_eq!(poll_for(stall_limit(DEFAULT_THRESHOLD)), POLL_CEILING);
    assert_eq!(poll_for(STALL_FLOOR), POLL_CEILING);
    assert!(STALL_FLOOR / POLL_CEILING >= 8);
    assert_eq!(poll_for(128 * MS), 16 * MS);
    assert_eq!(poll_for(1_000), POLL_FLOOR);
}

#[test]
fn an_iteration_inside_the_budget_says_nothing_at_all() {
    let mut perf = detector();
    perf.enter(1_000 * MS);
    assert!(perf.leave(1_000 * MS).is_none());
}

#[test]
fn a_present_with_no_wait_before_it_is_charged_to_nothing() {
    let mut perf = detector();
    assert!(perf.leave(4 * TIGHT).is_none());
}

#[test]
fn an_overrun_panics_in_a_debug_build() {
    let mut perf = Perf::new(TIGHT, true, true, true);
    perf.enter(0);
    let v = perf.leave(4 * TIGHT).expect("four budgets is an overrun");
    assert!(v.panic, "a debug build's sanction is a panic");
    assert_eq!(v.charged, 4 * TIGHT);
    assert_eq!(v.threshold, TIGHT);
}

#[test]
fn the_release_sanction_reaches_the_callers_sink_exactly_once() {
    let mut perf = detector();
    assert!(perf.warn_once(), "the first");
    assert!(!perf.warn_once(), "the second");
}

#[test]
fn the_second_overrun_in_a_release_build_formats_nothing() {
    let mut perf = detector();
    assert!(perf.will_report());
    perf.warn_once();
    assert!(!perf.will_report());
    let mut debug = Perf::new(TIGHT, true, true, true);
    debug.warn_once();
    assert!(debug.will_report(), "a debug build panics on the first, so there is never a second to guard");
}

#[test]
fn with_no_sink_the_release_sanction_says_nothing_rather_than_writing_to_the_alt_screen() {
    let mut perf = Perf::new(TIGHT, true, false, false);
    assert!(!perf.warn_once());
}

#[test]
fn a_permitted_region_is_excused_and_the_frame_around_it_is_not() {
    let mut perf = detector();
    perf.enter(0);
    let permit = perf.permit_slow(0, "loading config");
    perf.release(permit, 4 * TIGHT);
    assert!(perf.leave(4 * TIGHT).is_none());
}

#[test]
fn a_permit_that_ended_stops_excusing_the_iteration_it_was_in() {
    let mut perf = detector();
    perf.enter(0);
    let permit = perf.permit_slow(0, "a permit that excused nothing");
    perf.release(permit, 0);
    assert!(perf.would_overrun(4 * TIGHT));
}

#[test]
fn an_observer_from_before_a_suspend_is_not_the_one_a_resume_spawned() {
    let mut perf = detector();
    let before = perf.watch().generation();
    assert!(perf.watch().is_current(before), "the one `observe` just captured");
    perf.stop_observing();
    assert!(!perf.watch().is_current(before), "the stop left the sleeping observer able to match");
    perf.observe_again();
    assert!(!perf.watch().is_current(before), "clearing the flag brought the retired observer back");
    assert!(perf.watch().is_current(perf.watch().generation()), "and the new one is current");
}

#[test]
fn the_reason_a_region_is_slow_is_readable_from_another_thread_while_it_is_held() {
    let mut perf = detector();
    assert_eq!(perf.watch().reason_now(), None);
    let permit = perf.permit_slow(0, "loading config");
    assert_eq!(perf.watch().reason_now(), Some("loading config"));
    perf.release(permit, 0);
    assert_eq!(perf.watch().reason_now(), None);
}

#[test]
fn the_observer_sees_nothing_outside_an_iteration() {
    let perf = detector();
    assert_eq!(perf.watch().stalled(10_000 * MS), None);
}

#[test]
fn an_iteration_inside_the_limit_is_not_a_stall_and_one_past_it_is() {
    let mut watch = Watch::new(20 * MS);
    watch.entered(100 * MS);
    assert_eq!(watch.stalled(100 * MS), None);
    let (inside, reason) = watch.stalled(125 * MS).expect("the iteration has not come back");
    assert!(inside > 20 * MS);
    assert_eq!(reason, None);
}

#[test]
fn the_stall_limit_never_falls_under_its_floor_however_tight_the_budget() {
    assert_eq!(stall_limit(TIGHT), STALL_FLOOR);
    assert_eq!(stall_limit(1), STALL_FLOOR);
    let slow = 100 * MS;
    assert_eq!(stall_limit(slow), slow * STALL_FACTOR);
}

#[test]
fn a_stall_inside_a_permit_still_stalls_and_carries_its_reason() {
    let mut perf = detector();
    perf.enter(0);
    let _permit = perf.permit_slow(0, "loading config");
    let mut watch = *perf.watch();
    watch.set_limit(20 * MS);
    let (_, reason) = watch.stalled(40 * MS).expect("a permit is not an exemption from the observer");
    assert_eq!(reason, Some("loading config"));
}

#[test]
fn a_stopped_observer_leaves_and_the_iteration_it_was_watching_is_none_of_its_business() {
    let mut perf = detector();
    assert!(!perf.watch().stopped());
    perf.stop_observing();
    assert!(perf.watch().stopped());
}

#[test]
fn a_rate_the_application_changed_moves_the_threshold_and_a_pinned_one_does_not() {
    let mut derived = Perf::new(DEFAULT_THRESHOLD, false, false, false);
    assert_eq!(derived.threshold(), DEFAULT_THRESHOLD);
    derived.set_rate(3_333_333);
    assert_eq!(derived.threshold(), 3_333_333);
    let mut pinned = Perf::new(TIGHT, true, false, false);
    pinned.set_rate(3_333_333);
    assert_eq!(pinned.threshold(), TIGHT);
}

#[test]
fn a_permit_held_across_a_present_is_charged_to_each_frame_for_its_own_share() {
    let mut perf = detector();
    perf.enter(0);
    let permit = perf.permit_slow(0, "a long load");
    assert!(perf.leave(10 * TIGHT).is_none(), "the first frame's share was excused");
    perf.enter(10 * TIGHT);
    perf.release(permit, 15 * TIGHT);
    let v = perf.leave(20 * TIGHT).expect("the five budgets after the permit are not excused");
    assert_eq!(v.charged, 5 * TIGHT);
    assert!(v.write && !v.panic);
    perf.enter(20 * TIGHT);
    assert!(perf.leave(30 * TIGHT).is_none(), "the release sanction was spent");
}

#[test]
fn nested_permits_excuse_their_overlap_once() {
    let mut perf = detector();
    perf.enter(0);
    let outer = perf.permit_slow(0, "outer");
    let inner = perf.permit_slow(2 * TIGHT, "inner");
    perf.release(inner, 4 * TIGHT);
    perf.release(outer, 6 * TIGHT);
    let v = perf.leave(8 * TIGHT).expect("two budgets were not covered");
    assert_eq!(v.charged, 2 * TIGHT);
}
