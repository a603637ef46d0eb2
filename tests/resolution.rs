use platforms::resolve::{Exit, LeftoverPolicy, Resolution, MAX_ITERATIONS};

#[test]
fn zero_velocity_makes_no_sweep_and_no_motion() {
    let r = Resolution::begin(true);
    assert!(r.is_finished());
    assert_eq!(r.outcome(), Some(Exit::Stationary));
    assert!(!r.applies_leftover(LeftoverPolicy::Apply));
}

#[test]
fn clear_path_applies_the_whole_motion() {
    let mut r = Resolution::begin(false);
    assert!(!r.is_finished());
    r.first_sweep(false);
    assert_eq!(r.outcome(), Some(Exit::Clear));
    assert!(r.applies_leftover(LeftoverPolicy::Discard));
}

#[test]
fn grazing_candidates_leave_the_loop_unobstructed() {
    let mut r = Resolution::begin(false);
    r.first_sweep(true);
    assert!(!r.sweep_result(false));
    assert_eq!(r.outcome(), Some(Exit::Unobstructed));
    assert!(r.applies_leftover(LeftoverPolicy::Discard));
}

#[test]
fn landing_stops_once_the_velocity_is_gone() {
    // falling onto a platform: one validated hit, after which the vertical
    // velocity is removed and no distance is left to travel
    let mut r = Resolution::begin(false);
    r.first_sweep(true);
    assert!(r.sweep_result(true));
    r.hit_applied(true, false);
    assert_eq!(r.outcome(), Some(Exit::Exhausted));
    assert!(!r.applies_leftover(LeftoverPolicy::Discard));
    assert!(r.applies_leftover(LeftoverPolicy::Apply));
}

#[test]
fn loop_stops_after_five_hits() {
    let mut r = Resolution::begin(false);
    r.first_sweep(true);
    let mut rounds = 0;
    while !r.is_finished() {
        assert!(r.sweep_result(true));
        r.hit_applied(true, true);
        rounds += 1;
    }
    assert_eq!(rounds, MAX_ITERATIONS);
    assert_eq!(rounds, 5);
    assert_eq!(r.outcome(), Some(Exit::Exhausted));
}

#[test]
fn running_out_of_time_ends_the_loop() {
    let mut r = Resolution::begin(false);
    r.first_sweep(true);
    r.sweep_result(true);
    r.hit_applied(false, true);
    assert_eq!(r.outcome(), Some(Exit::Exhausted));
}
