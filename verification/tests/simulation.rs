use racing_core::sim::{Simulation, NUM_LAPS, TICKS_PER_UPDATE, TICK_LIMIT};

#[test]
fn new_simulation_owes_four_crossings_per_lap() {
    let s = Simulation::new(NUM_LAPS);
    assert_eq!(s.ticks, 0);
    assert_eq!(s.laps, 4 * NUM_LAPS);
    assert!(!s.passed_finish);
    assert!(s.running());
}

#[test]
fn controller_is_polled_every_update_interval_but_not_at_start() {
    let mut s = Simulation::new(1);
    assert!(!s.should_refresh_action());
    for _ in 0..TICKS_PER_UPDATE {
        s.begin_tick();
    }
    assert_eq!(s.ticks, TICKS_PER_UPDATE);
    assert!(s.should_refresh_action());
    s.begin_tick();
    assert!(!s.should_refresh_action());
}

#[test]
fn forward_crossing_pays_off_one_outstanding_crossing() {
    let mut s = Simulation::new(1);
    assert!(!s.passed_finish_line(true, true));
    assert_eq!(s.laps, 3);
    assert!(!s.passed_finish);
}

#[test]
fn backward_crossing_adds_an_outstanding_crossing() {
    let mut s = Simulation::new(1);
    assert!(!s.passed_finish_line(true, false));
    assert_eq!(s.laps, 5);
}

#[test]
fn no_crossing_changes_nothing() {
    let mut s = Simulation::new(1);
    assert!(!s.passed_finish_line(false, true));
    assert!(!s.passed_finish_line(false, false));
    assert_eq!(s.laps, 4);
}

#[test]
fn forward_crossing_with_none_outstanding_finishes() {
    let mut s = Simulation::new(0);
    assert_eq!(s.laps, 0);
    assert!(s.passed_finish_line(true, true));
    assert!(s.passed_finish);
    assert_eq!(s.laps, 0);
    assert!(!s.running());
}

#[test]
fn backward_then_forward_crossings_balance_before_finishing() {
    // Driving backward over the line first leaves more crossings
    // outstanding; they must all be paid off, and the next forward crossing
    // after that finishes the run.
    let mut s = Simulation::new(1);
    for _ in 0..4 {
        assert!(!s.passed_finish_line(true, false));
    }
    assert_eq!(s.laps, 8);
    for _ in 0..8 {
        assert!(!s.passed_finish_line(true, true));
    }
    assert_eq!(s.laps, 0);
    assert!(!s.passed_finish);
    assert!(s.passed_finish_line(true, true));
    assert!(s.passed_finish);
}

#[test]
fn balanced_crossings_restore_the_counter() {
    // Equally many forward and backward crossings, never finishing: the lap
    // counter comes back to where it started.
    let mut s = Simulation::new(1);
    for _ in 0..3 {
        assert!(!s.passed_finish_line(true, false));
    }
    for _ in 0..3 {
        assert!(!s.passed_finish_line(true, true));
    }
    assert_eq!(s.laps, 4);
    assert!(!s.passed_finish);
}

#[test]
fn score_reports_outcome_and_time() {
    let mut s = Simulation::new(1);
    s.begin_tick();
    s.begin_tick();
    let sc = s.score();
    assert!(!sc.successful);
    assert_eq!(sc.time, 2);
}

#[test]
fn run_stops_at_the_tick_limit() {
    let mut s = Simulation::new(1);
    for _ in 0..TICK_LIMIT {
        assert!(s.running());
        s.begin_tick();
    }
    assert!(!s.running());
    let sc = s.score();
    assert!(!sc.successful);
    assert_eq!(sc.time, TICK_LIMIT);
}
