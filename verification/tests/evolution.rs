use sgpe::evolution::{StepMonitor, CONVERGENCE_WINDOW};

/// Runs a monitor over the given per-step flags and returns the number of
/// steps taken.
fn run(timesteps: isize, small: &[bool]) -> (u64, bool) {
    let mut monitor = StepMonitor::new(timesteps);
    let mut k: usize = 0;
    while monitor.should_step() {
        monitor.record_step(small[k]);
        k += 1;
    }
    (monitor.completed_steps(), monitor.converged())
}

#[test]
fn runs_all_planned_steps_without_convergence() {
    let flags = [false; 20];
    assert_eq!(run(10, &flags), (10, false));
}

#[test]
fn stops_after_five_consecutive_small_changes() {
    let flags = [false, true, true, true, true, true, false, false];
    assert_eq!(run(8, &flags), (6, true));
    assert_eq!(CONVERGENCE_WINDOW, 5);
}

#[test]
fn large_change_restarts_the_count() {
    let flags = [true, true, true, true, false, true, true, true, true, true, true];
    assert_eq!(run(11, &flags), (10, true));
}

#[test]
fn non_positive_timesteps_take_no_step() {
    assert_eq!(run(0, &[]), (0, false));
    assert_eq!(run(-3, &[]), (0, false));
}

#[test]
fn convergence_on_the_last_planned_step() {
    let flags = [true; 5];
    assert_eq!(run(5, &flags), (5, true));
}
