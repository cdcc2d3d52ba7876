use swarm::config::Workload;
use swarm::scheduler::Scheduler;

#[test]
fn constant_yields_max_users_through_window() {
    let mut s = Scheduler::new(Workload::Constant { duration: 2, max_users: 5 });
    assert_eq!(s.next(0), Some(5));
    assert_eq!(s.next(1), Some(5));
    assert_eq!(s.next(2), Some(5));
    assert_eq!(s.next(3), None);
}

#[test]
fn constant_zero_users_still_covers_window() {
    let mut s = Scheduler::new(Workload::Constant { duration: 2, max_users: 0 });
    assert_eq!(s.next(0), Some(0));
    assert_eq!(s.next(2), Some(0));
    assert_eq!(s.next(3), None);
}

#[test]
fn linear_ramp_targets() {
    // Ramp to 10 users over 4 seconds, then stop after the 4-second window.
    let mut s = Scheduler::new(Workload::Linear {
        duration: 4,
        max_users: 10,
        ramp_up_time: 4,
    });
    assert_eq!(s.next(1), Some(2));
    assert_eq!(s.next(2), Some(5));
    assert_eq!(s.next(4), Some(10));
    assert_eq!(s.next(5), None);
}

#[test]
fn linear_floors_at_one_user() {
    let mut s = Scheduler::new(Workload::Linear {
        duration: 10,
        max_users: 10,
        ramp_up_time: 100,
    });
    assert_eq!(s.next(0), Some(1));
}

#[test]
fn linear_targets_are_monotone_over_ramp() {
    let mut prev = 0;
    for t in 0..=8u64 {
        let mut s = Scheduler::new(Workload::Linear {
            duration: 8,
            max_users: 7,
            ramp_up_time: 8,
        });
        let target = s.next(t).unwrap();
        assert!(target >= prev);
        assert!(target <= 7);
        prev = target;
    }
}

#[test]
fn once_none_always_none() {
    let mut s = Scheduler::new(Workload::Constant { duration: 1, max_users: 3 });
    assert_eq!(s.next(2), None);
    // Even queries back inside the window stay latched.
    assert_eq!(s.next(0), None);
    assert_eq!(s.next(1), None);
}

#[test]
fn ease_out_rises_fast_then_plateaus() {
    let mut s = Scheduler::new(Workload::EaseOut {
        duration: 10,
        max_users: 100,
        ramp_up_time: 10,
    });
    // At half the ramp the eased curve is already at 75% of the population.
    assert_eq!(s.next(5), Some(75));
    let mut s2 = Scheduler::new(Workload::EaseOut {
        duration: 20,
        max_users: 100,
        ramp_up_time: 10,
    });
    assert_eq!(s2.next(15), Some(100));
    assert_eq!(s2.next(21), None);
}

#[test]
fn ease_out_floors_at_one_user() {
    let mut s = Scheduler::new(Workload::EaseOut {
        duration: 10,
        max_users: 10,
        ramp_up_time: 10,
    });
    assert_eq!(s.next(0), Some(1));
}

#[test]
fn sin_starts_at_min_and_stays_within_bounds() {
    let mut s = Scheduler::new(Workload::Sin {
        duration: 20,
        max_users: 10,
        min_users: 2,
        cycle_time: 8,
    });
    assert_eq!(s.next(0), Some(2));
    for t in 0..=20u64 {
        let mut s2 = Scheduler::new(Workload::Sin {
            duration: 20,
            max_users: 10,
            min_users: 2,
            cycle_time: 8,
        });
        let target = s2.next(t).unwrap();
        assert!(target >= 2);
        assert!(target <= 10);
    }
    assert_eq!(s.next(21), None);
}

#[test]
fn sin_peaks_mid_cycle() {
    let mut s = Scheduler::new(Workload::Sin {
        duration: 20,
        max_users: 10,
        min_users: 2,
        cycle_time: 8,
    });
    // At half the cycle the arch is at its peak: the full population.
    assert_eq!(s.next(4), Some(10));
}

#[test]
fn zero_ramp_degenerates_to_constant() {
    let mut s = Scheduler::new(Workload::Linear {
        duration: 3,
        max_users: 0,
        ramp_up_time: 0,
    });
    assert_eq!(s.next(0), Some(0));
    let mut e = Scheduler::new(Workload::EaseOut {
        duration: 3,
        max_users: 4,
        ramp_up_time: 0,
    });
    assert_eq!(e.next(0), Some(4));
}
