use cordis::deadline::{requested_park_millis, wait_result, wait_step, WaitStep};

const SECOND: u64 = 1_000_000_000;

#[test]
fn cancellation_before_worker_wait_is_not_lost() {
    let step = wait_step(true, 0, 2 * SECOND);
    assert_eq!(step, WaitStep::Cancelled);
    assert_eq!(wait_result(step), Some(false));
}

#[test]
fn cancellation_at_worker_park_boundary_wakes_the_worker() {
    let parked = wait_step(false, SECOND / 2, 2 * SECOND);
    assert_eq!(parked, WaitStep::Park { remaining_nanos: 3 * SECOND / 2 });
    assert_eq!(wait_result(parked), None);
    let woken = wait_step(true, SECOND / 2, 2 * SECOND);
    assert_eq!(wait_result(woken), Some(false));
}

#[test]
fn concurrent_long_waits_schedule_remaining_deadlines_not_poll_slices() {
    for elapsed in [0, SECOND / 4, 175_000_000, 900_000_000] {
        match wait_step(false, elapsed, 5 * SECOND) {
            WaitStep::Park { remaining_nanos } => {
                assert!(
                    requested_park_millis(remaining_nanos) >= 4_000,
                    "workers must park for the remaining deadline, not a short polling slice",
                );
                assert_eq!(remaining_nanos + elapsed, 5 * SECOND);
            }
            other => panic!("unexpected step {other:?}"),
        }
    }
}

#[test]
fn elapsed_deadline_times_out() {
    assert_eq!(wait_step(false, 2 * SECOND, 2 * SECOND), WaitStep::TimedOut);
    assert_eq!(wait_result(WaitStep::TimedOut), Some(true));
    assert_eq!(wait_step(false, 3 * SECOND, 2 * SECOND), WaitStep::TimedOut);
}

#[test]
fn park_millis_truncate() {
    assert_eq!(requested_park_millis(1_999_999), 1);
    assert_eq!(requested_park_millis(0), 0);
}
