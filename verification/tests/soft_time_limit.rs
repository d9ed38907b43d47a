use std::time::{Duration, Instant};
use voxel::soft_time_limit::{Frame, TimeLimiter, RATE_UNIT};

fn busy(span: Duration) {
    let start = Instant::now();
    while start.elapsed() < span {
        std::hint::spin_loop();
    }
}

#[test]
fn timing_repeat() {
    let mut limit = TimeLimiter::new();

    let mut tasks = 0.0;

    let n = 5;

    for _ in 0..n {
        let mut frame_tasks = 0;
        limit.repeat_with_budget(10_000_000, || {
            busy(Duration::from_millis(1));
            tasks += 1.0;
            frame_tasks += 1;
            true
        });
        assert!(frame_tasks <= 10);
    }

    println!("timing_repeat: average tasks (should be 10 or less): {}", tasks / n as f32);
    assert!(tasks / n as f32 <= 10.0);
    assert!(tasks >= 1.0);
    assert!(limit.time_estimate >= 500_000);
}

#[test]
fn timing_explicit() {
    let mut limit = TimeLimiter::new();

    let mut tasks = 0.0;

    let n = 5;

    for _ in 0..n {
        let mut frame = limit.frame(10_000_000);

        while frame.have_time() {
            let _task = frame.time_task();

            busy(Duration::from_millis(1));
            tasks += 1.0;
        }
    }
    println!("timing_explicit: average tasks (should be 10 or less): {}", tasks / n as f32);
    assert!(tasks / n as f32 <= 10.0);
    assert!(tasks >= 1.0);
}

#[test]
fn repeat_stops_when_the_task_says_so() {
    let mut limit = TimeLimiter::new();
    let mut calls = 0;
    limit.repeat_with_budget(10_000_000_000, || {
        calls += 1;
        calls < 3
    });
    assert_eq!(calls, 3);
    let mut never = 0;
    limit.repeat_with_budget(0, || {
        never += 1;
        true
    });
    assert_eq!(never, 0);
}

#[test]
fn default_rates_are_a_tenth_and_ninety_nine_hundredths() {
    let limit = TimeLimiter::new();
    assert_eq!(limit.time_estimate, 0);
    assert_eq!(limit.smoothing, 100_000);
    assert_eq!(limit.decay, 990_000);
    assert_eq!(RATE_UNIT, 1_000_000);
    let same = TimeLimiter::default();
    assert_eq!((same.time_estimate, same.smoothing, same.decay), (0, 100_000, 990_000));
    let other = TimeLimiter::with_rates(250_000, 500_000);
    assert_eq!((other.time_estimate, other.smoothing, other.decay), (0, 250_000, 500_000));
}

#[test]
fn estimate_is_a_running_average() {
    let mut limit = TimeLimiter::with_rates(250_000, 500_000);
    limit.record(1_000);
    assert_eq!(limit.time_estimate, 250);
    limit.record(1_000);
    // 250 * 3/4 + 1000 * 1/4, rounded down
    assert_eq!(limit.time_estimate, 437);
    limit.record(0);
    assert_eq!(limit.time_estimate, 327);
    limit.record(u64::MAX);
    assert_eq!(limit.time_estimate, 4_611_686_018_427_388_149);
    limit.time_estimate = u64::MAX;
    limit.record(u64::MAX);
    assert_eq!(limit.time_estimate, u64::MAX);
}

#[test]
fn estimate_decays_when_a_frame_begins() {
    let mut limit = TimeLimiter::new();
    limit.time_estimate = 1_000_000;
    limit.begin_frame();
    assert_eq!(limit.time_estimate, 990_000);
    {
        let frame = limit.frame(5);
        assert_eq!(frame.limiter.time_estimate, 980_100);
        assert_eq!(frame.budget, 5);
    }
    assert_eq!(limit.time_estimate, 980_100);
    limit.time_estimate = 1;
    limit.begin_frame();
    assert_eq!(limit.time_estimate, 0);
    limit.time_estimate = u64::MAX;
    limit.begin_frame();
    assert_eq!(limit.time_estimate, 18_262_276_632_972_456_098);
}

#[test]
fn there_is_time_while_elapsed_and_estimate_stay_under_the_budget() {
    let mut limit = TimeLimiter::new();
    limit.time_estimate = 1_000;
    let frame = limit.frame(10_000);
    // the estimate has decayed to 990
    assert!(frame.have_time_at(0));
    assert!(frame.have_time_at(9_009));
    assert!(!frame.have_time_at(9_010));
    assert!(!frame.have_time_at(10_000));
    assert!(!frame.have_time_at(u64::MAX));
}

#[test]
fn a_spike_does_not_lock_the_task_out_for_good() {
    let mut limit = TimeLimiter::new();
    limit.record(1_000_000_000);
    assert_eq!(limit.time_estimate, 100_000_000);
    let budget = 10_000_000;
    let mut frames = 0;
    loop {
        let frame = limit.frame(budget);
        frames += 1;
        if frame.have_time_at(0) {
            break;
        }
        assert!(frames < 1_000);
    }
    // 0.99 to the power of 230 is just under a tenth
    assert_eq!(frames, 230);
}

#[test]
fn tasks_per_frame_settle_at_budget_over_duration() {
    // a clock that is told what time it is: every task takes one millisecond
    let budget = 10_000_000;
    let duration = 1_000_000;
    let mut limit = TimeLimiter::new();
    let mut total = 0;
    let frames = 200;
    for n in 0..frames {
        let mut frame = limit.frame(budget);
        let mut elapsed = 0;
        let mut tasks = 0;
        while frame.have_time_at(elapsed) {
            elapsed += duration;
            frame.record(duration);
            tasks += 1;
        }
        // the tenth task starts after nine milliseconds, with just under one in the estimate
        assert_eq!(tasks, 10);
        assert!(n < frames);
        total += tasks;
    }
    assert_eq!(total, 10 * frames);
    assert!(limit.time_estimate > 900_000 && limit.time_estimate < 1_000_000);
    // with tasks of a millisecond and a half only six fit: the seventh would end too late
    let mut slow = TimeLimiter::new();
    let mut last = 0;
    for _ in 0..frames {
        let mut frame = slow.frame(budget);
        let mut elapsed = 0;
        last = 0;
        while frame.have_time_at(elapsed) {
            elapsed += 1_500_000;
            frame.record(1_500_000);
            last += 1;
        }
    }
    assert_eq!(last, 6);
}

#[test]
fn no_task_runs_where_the_estimate_takes_the_budget() {
    let mut limit = TimeLimiter::new();
    limit.time_estimate = 1_000_000;
    let mut calls = 0;
    limit.repeat_with_budget(0, || {
        calls += 1;
        true
    });
    assert_eq!(calls, 0);
    // the estimate has decayed once and nothing else
    assert_eq!(limit.time_estimate, 990_000);
    // a budget that the decayed estimate just takes
    limit.repeat_with_budget(980_100, || {
        calls += 1;
        true
    });
    assert_eq!(calls, 0);
    assert_eq!(limit.time_estimate, 980_100);
    assert_eq!((limit.smoothing, limit.decay), (100_000, 990_000));
}

#[test]
fn a_task_with_no_more_work_runs_once() {
    let mut limit = TimeLimiter::new();
    let mut calls = 0;
    limit.repeat_with_budget(10_000_000_000, || {
        calls += 1;
        busy(Duration::from_millis(1));
        false
    });
    assert_eq!(calls, 1);
    // one measurement of a millisecond or more, a tenth of it taken
    assert!(limit.time_estimate >= 100_000);
    assert!(limit.time_estimate < 1_000_000_000);
}

fn leave_early(frame: &mut Frame<'_>, fail: bool) -> Result<u32, u32> {
    let _task = frame.time_task();
    busy(Duration::from_millis(1));
    if fail {
        return Err(7);
    }
    busy(Duration::from_millis(1));
    Ok(3)
}

#[test]
fn a_task_is_measured_however_its_scope_is_left() {
    let mut limit = TimeLimiter::new();
    {
        let mut frame = limit.frame(10_000_000);
        assert_eq!(leave_early(&mut frame, true), Err(7));
    }
    let early = limit.time_estimate;
    assert!(early >= 100_000);
    let mut other = TimeLimiter::new();
    {
        let mut frame = other.frame(10_000_000);
        assert_eq!(leave_early(&mut frame, false), Ok(3));
    }
    assert!(other.time_estimate >= 200_000);
}

#[test]
fn a_task_can_be_measured_by_hand() {
    let mut limit = TimeLimiter::with_rates(500_000, 500_000);
    let mut frame = limit.frame(10_000_000);
    let began = frame.start_task();
    busy(Duration::from_millis(2));
    frame.measure(began);
    assert!(frame.limiter.time_estimate >= 1_000_000);
    assert_eq!(frame.budget, 10_000_000);
    let before = frame.limiter.time_estimate;
    let began = frame.start_task();
    frame.measure(began);
    // a task that took next to no time pulls the average down by about half
    assert!(frame.limiter.time_estimate < before);
    assert!(frame.limiter.time_estimate >= before / 2);
}
