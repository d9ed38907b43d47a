//! This module allows you to roughly limit the amount of time taken by a repetitive task.
//!
//! For it to work well, the task you're doing should take a reasonably consistent amount of
//! time.
//!
//! A `TimeLimiter` keeps a running average of the time that one task has taken. Each frame
//! gets a budget; a task is started only while the time that has passed in the frame and the
//! running average together stay under the budget.
//!
//! If you have multiple tasks you want to limit, you should create a *separate* `TimeLimiter`
//! for each task.
//!
//! All times are whole nanoseconds. The two rates are parts in `RATE_UNIT`.
//!
//! Note: nothing here ever sleeps; it just chooses whether to go on or not based on the
//! system time.
use vstd::prelude::*;
use std::time::{Duration, Instant};

verus! {

/// A point on the clock; nothing of it is read here but through `elapsed`.
#[verifier::external_type_specification]
#[verifier::external_body]
pub struct ExInstant(Instant);

/// `Instant::now`: the reading of the clock. Nothing is promised of it.
#[verifier::external_body]
fn now() -> Instant {
    Instant::now()
}

/// `Instant::elapsed`: the time that has passed since `start`. Nothing is promised of it but
/// that the call returns: where the clock has gone back, the time is nothing.
#[verifier::external_body]
fn elapsed(start: &Instant) -> Duration
    opens_invariants none
    no_unwind
{
    start.elapsed()
}

/// `Duration::as_nanos`: a span of time in nanoseconds. Nothing is promised of it but that
/// the call returns.
#[verifier::external_body]
fn as_nanos(span: &Duration) -> u128
    opens_invariants none
    no_unwind
{
    span.as_nanos()
}

/// The whole that the two rates are parts of.
pub const RATE_UNIT: u32 = 1_000_000;

/// The estimate `estimate` after one frame has begun: the part `decay` of it, rounded down.
pub open spec fn decayed(estimate: u64, decay: u32) -> u64 {
    ((estimate * decay) / 1_000_000) as u64
}

/// The running average after a task that took `duration`: the part `smoothing` of the
/// duration and the rest of the estimate, rounded down.
pub open spec fn blended(estimate: u64, duration: u64, smoothing: u32) -> u64 {
    ((estimate * (1_000_000 - smoothing) + duration * smoothing) / 1_000_000) as u64
}

/// The estimate after `frames` frames have begun and no task was run.
pub open spec fn decayed_often(estimate: u64, decay: u32, frames: nat) -> u64
    decreases frames,
{
    if frames == 0 {
        estimate
    } else {
        decayed(decayed_often(estimate, decay, (frames - 1) as nat), decay)
    }
}

/// The running average after tasks that took the times `durations`, one after the other.
pub open spec fn measured(estimate: u64, durations: Seq<u64>, smoothing: u32) -> u64
    decreases durations.len(),
{
    if durations.len() == 0 {
        estimate
    } else {
        blended(measured(estimate, durations.drop_last(), smoothing), durations.last(), smoothing)
    }
}

/// Whether there is time for one more task in a frame with the budget `budget` in which
/// `elapsed` has passed.
pub open spec fn time_left(estimate: u64, elapsed: u64, budget: u64) -> bool {
    elapsed + estimate < budget
}

/// `span` as a time: spans too long to count are the longest time.
fn saturate(span: u128) -> (t: u64)
    ensures
        t == (if span > u64::MAX {
            u64::MAX as u128
        } else {
            span
        }),
    opens_invariants none
    no_unwind
{
    if span > u64::MAX as u128 {
        u64::MAX
    } else {
        span as u64
    }
}

/// Keeps track of the time taken by some task.
#[derive(Clone, Debug)]
pub struct TimeLimiter {
    /// A running average of the time taken by the task in the past.
    /// In units of nanoseconds.
    pub time_estimate: u64,
    /// The proportion used in the running average, in parts of `RATE_UNIT`:
    ///
    /// `time_estimate = task_time * smoothing + time_estimate * (1 - smoothing);`
    pub smoothing: u32,
    /// The decay of the time estimate used every frame, in parts of `RATE_UNIT`:
    ///
    /// `time_estimate = time_estimate * decay;`
    ///
    /// If the time estimate didn't decay, then the system would lock forever
    /// if the time estimate went over the per-frame time budget.
    /// This way the system is guaranteed to at least run one task every few frames.
    pub decay: u32,
}

impl TimeLimiter {
    /// Both rates lie strictly between nothing and the whole.
    pub open spec fn wf(&self) -> bool {
        &&& 0 < self.smoothing < RATE_UNIT
        &&& 0 < self.decay < RATE_UNIT
    }

    /// Create a TimeLimiter with the default averaging rates (a tenth smoothing, 99 hundredths
    /// decay)
    pub fn new() -> (limiter: TimeLimiter)
        ensures
            limiter.wf(),
            limiter.time_estimate == 0,
            limiter.smoothing == 100_000,
            limiter.decay == 990_000,
    {
        TimeLimiter::with_rates(100_000, 990_000)
    }

    /// Create a TimeLimiter with a custom smoothing rate for the running average
    /// and a custom decay rate. Both must lie strictly between 0 and `RATE_UNIT`.
    pub fn with_rates(smoothing: u32, decay: u32) -> (limiter: TimeLimiter)
        requires
            0 < smoothing < RATE_UNIT,
            0 < decay < RATE_UNIT,
        ensures
            limiter.wf(),
            limiter.time_estimate == 0,
            limiter.smoothing == smoothing,
            limiter.decay == decay,
    {
        TimeLimiter { smoothing, decay, time_estimate: 0 }
    }

    /// Lets the estimate decay as it does when a frame begins.
    pub fn begin_frame(&mut self)
        requires
            old(self).wf(),
        ensures
            final(self).time_estimate == decayed(old(self).time_estimate, old(self).decay),
            final(self).smoothing == old(self).smoothing,
            final(self).decay == old(self).decay,
            final(self).time_estimate <= old(self).time_estimate,
            old(self).time_estimate > 0 ==> final(self).time_estimate < old(self).time_estimate,
    {
        assert(0 <= self.time_estimate * self.decay <= self.time_estimate * 999_999)
            by (nonlinear_arith)
            requires
                0 <= self.time_estimate,
                0 <= self.decay <= 999_999,
        ;
        let product: u128 = self.time_estimate as u128 * self.decay as u128;
        self.time_estimate = (product / 1_000_000) as u64;
    }

    /// Takes the time `duration` that a task has taken into the running average.
    pub fn record(&mut self, duration: u64)
        requires
            old(self).wf(),
        ensures
            final(self).time_estimate == blended(
                old(self).time_estimate,
                duration,
                old(self).smoothing,
            ),
            final(self).smoothing == old(self).smoothing,
            final(self).decay == old(self).decay,
            old(self).time_estimate <= duration ==> old(self).time_estimate <= final(
                self
            ).time_estimate <= duration,
            duration <= old(self).time_estimate ==> duration <= final(self).time_estimate <= old(
                self
            ).time_estimate,
        opens_invariants none
        no_unwind
    {
        let keep: u128 = (RATE_UNIT - self.smoothing) as u128;
        let take: u128 = self.smoothing as u128;
        proof {
            lemma_blend_bounds(self.time_estimate as int, duration as int, self.smoothing as int);
        }
        let old_part: u128 = self.time_estimate as u128 * keep;
        let new_part: u128 = duration as u128 * take;
        self.time_estimate = ((old_part + new_part) / 1_000_000) as u64;
    }

    /// Manually start timing a single frame, which has `budget` nanoseconds.
    pub fn frame(&mut self, budget: u64) -> (frame: Frame<'_>)
        requires
            old(self).wf(),
        ensures
            frame.estimate() == decayed(old(self).time_estimate, old(self).decay),
            frame.smoothing() == old(self).smoothing,
            frame.decay() == old(self).decay,
            frame.budget == budget,
            frame.wf(),
            *final(self) == *final(frame.limiter),
    {
        self.begin_frame();
        Frame { limiter: self, started: now(), budget }
    }

    /// Repeatedly calls a function until either:
    /// 1. The estimated time to complete the task goes over the time budget, OR
    /// 2. The function returns false.
    ///
    /// No frame runs more than `u64::MAX` tasks.
    ///
    /// How often that is, and how long each call takes, is for the clock to say. Whatever it
    /// says, the rates stay what they are, and the estimate is in the end what the times of
    /// the calls make of it, from what it was after it has decayed once. A call is made
    /// where the clock leaves time for it, and only there; none is made after one that has
    /// returned false. So where the decayed estimate alone takes the budget the estimate ends
    /// as it has decayed, and a task that never returns true is measured once at most.
    #[verifier::loop_isolation(false)]
    pub fn repeat_with_budget<F: FnMut() -> bool>(&mut self, budget: u64, f: F)
        requires
            old(self).wf(),
            call_requires(f, ()),
        ensures
            final(self).wf(),
            final(self).smoothing == old(self).smoothing,
            final(self).decay == old(self).decay,
            exists|durations: Seq<u64>, reports: Seq<bool>, readings: Seq<u64>| #[trigger]
                repeated(
                    f,
                    decayed(old(self).time_estimate, old(self).decay),
                    old(self).smoothing,
                    budget,
                    durations,
                    reports,
                    readings,
                    final(self).time_estimate,
                ),
            budget <= decayed(old(self).time_estimate, old(self).decay)
                ==> final(self).time_estimate == decayed(old(self).time_estimate, old(self).decay),
            stops(f) ==> final(self).time_estimate == decayed(
                old(self).time_estimate,
                old(self).decay,
            ) || exists|duration: u64|
                final(self).time_estimate == #[trigger] blended(
                    decayed(old(self).time_estimate, old(self).decay),
                    duration,
                    old(self).smoothing,
                ),
    {
        let mut frame = self.frame(budget);
        let ghost promised = *final(frame.limiter);
        let ghost start = frame.estimate();
        let ghost smoothing = frame.smoothing();
        let ghost mut durations: Seq<u64> = Seq::empty();
        let ghost mut reports: Seq<bool> = Seq::empty();
        let ghost mut readings: Seq<u64> = Seq::empty();
        let mut run = f;
        let mut tasks_left: u64 = u64::MAX;
        let mut should_continue = true;
        while should_continue
            invariant
                run == f,
                frame.wf(),
                frame.smoothing() == smoothing,
                frame.decay() == old(self).decay,
                frame.budget == budget,
                *final(frame.limiter) == promised,
                frame.estimate() == measured(start, durations, smoothing),
                reported(f, reports),
                reports.len() == durations.len(),
                durations.len() + tasks_left == u64::MAX,
                started_on_time(start, smoothing, budget, durations, readings),
                should_continue ==> readings.len() == durations.len(),
                should_continue && reports.len() > 0 ==> reports.last(),
                !should_continue ==> stopped(start, smoothing, budget, durations, reports, readings),
            decreases tasks_left + (if should_continue { 1int } else { 0int }),
        {
            if tasks_left == 0 {
                should_continue = false;
            } else {
                let in_time = frame.have_time();
                proof {
                    let reading = choose|elapsed: u64|
                        in_time == #[trigger] time_left(frame.estimate(), elapsed, budget);
                    let read = readings.push(reading);
                    assert(read.drop_last() =~= readings);
                    assert(durations.take(durations.len() as int) =~= durations);
                    readings = read;
                }
                if in_time {
                    let began = frame.start_task();
                    should_continue = run();
                    let ghost before = frame.estimate();
                    frame.measure(began);
                    proof {
                        let duration = choose|duration: u64| #[trigger]
                            blended(before, duration, smoothing) == frame.estimate();
                        let longer = durations.push(duration);
                        assert(longer.drop_last() =~= durations);
                        assert forall|i: int| 0 <= i < longer.len() implies time_left(
                            measured(start, longer.take(i), smoothing),
                            #[trigger] readings[i],
                            budget,
                        ) by {
                            if i < durations.len() {
                                assert(longer.take(i) =~= durations.take(i));
                            } else {
                                assert(longer.take(i) =~= durations);
                            }
                        }
                        durations = longer;
                        reports = reports.push(should_continue);
                    }
                    tasks_left = tasks_left - 1;
                } else {
                    should_continue = false;
                }
            }
        }
        proof {
            if durations.len() > 0 {
                assert(durations.take(0).len() == 0);
                assert(measured(start, durations.take(0), smoothing) == start);
                assert(time_left(start, readings[0], budget));
            }
            if stops(f) && reports.len() > 1 {
                assert(call_ensures(f, (), reports[0]));
            }
            if durations.len() == 1 {
                assert(durations.drop_last() =~= durations.take(0));
                assert(frame.estimate() == blended(start, durations.last(), smoothing));
            }
        }
        assert(repeated(
            f,
            start,
            smoothing,
            budget,
            durations,
            reports,
            readings,
            frame.estimate(),
        ));
    }
}

/// Whether `f` never returns true: whether the task reports each time that there is no more
/// work.
pub open spec fn stops<F: FnMut() -> bool>(f: F) -> bool {
    forall|b: bool| call_ensures(f, (), b) ==> !b
}

/// Whether `reports` can be what `f` returned, call by call, to a caller that went on for as
/// long as it returned true: each but the last is true.
pub open spec fn reported<F: FnMut() -> bool>(f: F, reports: Seq<bool>) -> bool {
    &&& forall|i: int| 0 <= i < reports.len() ==> call_ensures(f, (), #[trigger] reports[i])
    &&& forall|i: int| 0 <= i < reports.len() - 1 ==> #[trigger] reports[i]
}

/// Whether each of the tasks that took the times `durations` was started with time left for
/// it, by the reading of the clock that was taken before it: `readings` holds, in nanoseconds
/// since the frame began, those readings, and after them at most one more.
pub open spec fn started_on_time(
    estimate: u64,
    smoothing: u32,
    budget: u64,
    durations: Seq<u64>,
    readings: Seq<u64>,
) -> bool {
    &&& durations.len() <= readings.len() <= durations.len() + 1
    &&& forall|i: int|
        0 <= i < durations.len() ==> time_left(
            measured(estimate, durations.take(i), smoothing),
            #[trigger] readings[i],
            budget,
        )
}

/// Whether a frame had a reason to run no more tasks than those that took the times
/// `durations`: the last of them reported no more work, or the clock was read once more
/// and left no time for another, or there were as many as a frame runs at most.
pub open spec fn stopped(
    estimate: u64,
    smoothing: u32,
    budget: u64,
    durations: Seq<u64>,
    reports: Seq<bool>,
    readings: Seq<u64>,
) -> bool {
    if readings.len() > durations.len() {
        !time_left(measured(estimate, durations, smoothing), readings.last(), budget)
    } else {
        durations.len() == u64::MAX || (reports.len() > 0 && !reports.last())
    }
}

/// Whether a frame with the budget `budget` that began with the estimate `estimate`, the
/// estimate decayed already, can have run the task `f` again and again, the runs taking the
/// times `durations` and returning `reports`, the clock reading `readings` before each, and
/// have ended with the estimate `last`:
/// the estimate is what those times make of it; a task was started where the clock left time
/// for it, so that none is run at all where the estimate alone takes the budget from the
/// beginning; none was started after one that reported no more work, so that a task which
/// always reports so is run once at most; and the frame went on until it had a reason to
/// stop.
pub open spec fn repeated<F: FnMut() -> bool>(
    f: F,
    estimate: u64,
    smoothing: u32,
    budget: u64,
    durations: Seq<u64>,
    reports: Seq<bool>,
    readings: Seq<u64>,
    last: u64,
) -> bool {
    &&& measured(estimate, durations, smoothing) == last
    &&& started_on_time(estimate, smoothing, budget, durations, readings)
    &&& stopped(estimate, smoothing, budget, durations, reports, readings)
    &&& reports.len() == durations.len()
    &&& reported(f, reports)
    &&& budget <= estimate ==> durations.len() == 0
    &&& stops(f) ==> durations.len() <= 1
}

impl Default for TimeLimiter {
    fn default() -> (limiter: Self)
        ensures
            limiter.wf(),
            limiter.time_estimate == 0,
            limiter.smoothing == 100_000,
            limiter.decay == 990_000,
    {
        TimeLimiter::with_rates(100_000, 990_000)
    }
}

proof fn lemma_blend_bounds(estimate: int, duration: int, smoothing: int)
    requires
        0 <= estimate <= u64::MAX,
        0 <= duration <= u64::MAX,
        0 < smoothing < 1_000_000,
    ensures
        ({
            let sum = estimate * (1_000_000 - smoothing) + duration * smoothing;
            &&& 0 <= estimate * (1_000_000 - smoothing) <= u64::MAX * 1_000_000
            &&& 0 <= duration * smoothing <= u64::MAX * 1_000_000
            &&& estimate <= duration ==> estimate <= sum / 1_000_000 <= duration
            &&& duration <= estimate ==> duration <= sum / 1_000_000 <= estimate
        }),
{
    let keep = 1_000_000 - smoothing;
    let sum = estimate * keep + duration * smoothing;
    assert(0 <= estimate * keep <= u64::MAX * 1_000_000) by (nonlinear_arith)
        requires
            0 <= estimate <= u64::MAX,
            0 < keep < 1_000_000,
    ;
    assert(0 <= duration * smoothing <= u64::MAX * 1_000_000) by (nonlinear_arith)
        requires
            0 <= duration <= u64::MAX,
            0 < smoothing < 1_000_000,
    ;
    if estimate <= duration {
        assert(estimate * 1_000_000 <= sum <= duration * 1_000_000) by (nonlinear_arith)
            requires
                sum == estimate * keep + duration * smoothing,
                keep + smoothing == 1_000_000,
                0 < keep,
                0 < smoothing,
                0 <= estimate <= duration,
        ;
    } else {
        assert(duration * 1_000_000 <= sum <= estimate * 1_000_000) by (nonlinear_arith)
            requires
                sum == estimate * keep + duration * smoothing,
                keep + smoothing == 1_000_000,
                0 < keep,
                0 < smoothing,
                0 <= duration <= estimate,
        ;
    }
}

/// However high a single measurement has driven the estimate, it does not lock the task out
/// for good: as frame after frame begins and no task runs, the estimate never rises, and
/// after at most as many frames as it has nanoseconds it is nothing, so that any budget has
/// room for a task again.
pub proof fn lemma_decay_reopens(estimate: u64, decay: u32, budget: u64, frames: nat)
    requires
        0 < decay < RATE_UNIT,
        budget > 0,
        frames >= estimate,
    ensures
        decayed_often(estimate, decay, frames) == 0,
        time_left(decayed_often(estimate, decay, frames), 0, budget),
{
    lemma_decay_falls(estimate, decay, frames);
}

/// Each frame that begins takes at least a nanosecond off an estimate that is not nothing.
proof fn lemma_decay_falls(estimate: u64, decay: u32, frames: nat)
    requires
        0 < decay < RATE_UNIT,
    ensures
        decayed_often(estimate, decay, frames) <= estimate,
        decayed_often(estimate, decay, frames) + frames <= estimate || decayed_often(
            estimate,
            decay,
            frames,
        ) == 0,
    decreases frames,
{
    if frames > 0 {
        lemma_decay_falls(estimate, decay, (frames - 1) as nat);
        let before = decayed_often(estimate, decay, (frames - 1) as nat);
        assert(before * decay <= before * 999_999) by (nonlinear_arith)
            requires
                0 <= before,
                decay <= 999_999,
        ;
        assert(0 <= before * decay) by (nonlinear_arith)
            requires
                0 <= before,
                0 <= decay,
        ;
    }
}

/// Tasks that each take `duration` never drive an estimate that is not above that duration
/// over it.
proof fn lemma_steady(estimate: u64, durations: Seq<u64>, smoothing: u32, duration: u64)
    requires
        0 < smoothing < RATE_UNIT,
        estimate <= duration,
        forall|i: int| 0 <= i < durations.len() ==> durations[i] == duration,
    ensures
        measured(estimate, durations, smoothing) <= duration,
    decreases durations.len(),
{
    if durations.len() > 0 {
        lemma_steady(estimate, durations.drop_last(), smoothing, duration);
        lemma_blend_bounds(
            measured(estimate, durations.drop_last(), smoothing) as int,
            duration as int,
            smoothing as int,
        );
    }
}

/// A frame runs as many tasks as fit its budget, to within one. Let `repeat_with_budget`
/// have run a task that had more work each time, in a frame that did not run as many tasks
/// as a frame runs at most; let each run have taken `duration` and nothing else any time, so
/// that the clock read before each task the time of the tasks before it; and let the
/// estimate not have been above that duration. Then the tasks that were run take no more
/// than the budget and one task more, and no less than the budget but for one task.
pub proof fn lemma_tasks_fill_budget<F: FnMut() -> bool>(
    f: F,
    estimate: u64,
    smoothing: u32,
    budget: u64,
    durations: Seq<u64>,
    reports: Seq<bool>,
    readings: Seq<u64>,
    last: u64,
    duration: u64,
)
    requires
        0 < smoothing < RATE_UNIT,
        estimate <= duration,
        repeated(f, estimate, smoothing, budget, durations, reports, readings, last),
        forall|i: int| 0 <= i < durations.len() ==> durations[i] == duration,
        forall|i: int| 0 <= i < readings.len() ==> readings[i] == i * duration,
        forall|i: int| 0 <= i < reports.len() ==> reports[i],
        durations.len() < u64::MAX,
    ensures
        durations.len() * duration + duration >= budget,
        durations.len() >= 1 ==> (durations.len() - 1) * duration < budget,
{
    let tasks = durations.len() as int;
    lemma_steady(estimate, durations, smoothing, duration);
    assert(readings.len() == tasks + 1);
    assert(readings.last() == readings[tasks]);
    if tasks >= 1 {
        assert(time_left(
            measured(estimate, durations.take(tasks - 1), smoothing),
            readings[tasks - 1],
            budget,
        ));
    }
}

/// A lock representing a single frame.
pub struct Frame<'a> {
    /// The limiter that this frame belongs to.
    pub limiter: &'a mut TimeLimiter,
    /// When the frame began.
    pub started: Instant,
    /// The time that the frame has in all, in nanoseconds.
    pub budget: u64,
}

impl<'a> Frame<'a> {
    /// The running average as it stands in this frame.
    pub open spec fn estimate(&self) -> u64 {
        self.limiter.time_estimate
    }

    pub open spec fn smoothing(&self) -> u32 {
        self.limiter.smoothing
    }

    pub open spec fn decay(&self) -> u32 {
        self.limiter.decay
    }

    pub open spec fn wf(&self) -> bool {
        self.limiter.wf()
    }

    /// Whether there is enough time for one of our tasks when `elapsed` nanoseconds of the
    /// frame have passed.
    pub fn have_time_at(&self, elapsed: u64) -> (b: bool)
        ensures
            b == time_left(self.estimate(), elapsed, self.budget),
    {
        match elapsed.checked_add(self.limiter.time_estimate) {
            Some(needed) => needed < self.budget,
            None => false,
        }
    }

    /// Whether or not there's enough time available to perform one of our tasks. The clock
    /// says how much of the frame has passed; what it says decides.
    pub fn have_time(&self) -> (b: bool)
        ensures
            exists|elapsed: u64| b == #[trigger] time_left(self.estimate(), elapsed, self.budget),
    {
        let passed = saturate(as_nanos(&elapsed(&self.started)));
        self.have_time_at(passed)
    }

    /// Takes the time `duration` that a task has taken into the running average.
    pub fn record(&mut self, duration: u64)
        requires
            old(self).wf(),
        ensures
            final(self).wf(),
            final(self).estimate() == blended(old(self).estimate(), duration, old(self).smoothing()),
            final(self).smoothing() == old(self).smoothing(),
            final(self).decay() == old(self).decay(),
            final(self).budget == old(self).budget,
            *final(final(self).limiter) == *final(old(self).limiter),
        opens_invariants none
        no_unwind
    {
        self.limiter.record(duration);
    }

    /// Create a Task; when it is dropped, we'll compute the elapsed time and update
    /// our time estimates. That holds however the scope of the task is left.
    ///
    /// What the frame is after the task has gone is known to the task alone: a caller that
    /// is to prove anything of the estimate reads the clock with `start_task` and reports
    /// with `measure`.
    pub fn time_task(&mut self) -> (task: Task<'_, 'a>)
        requires
            old(self).wf(),
        ensures
            task.estimate() == old(self).estimate(),
            task.smoothing() == old(self).smoothing(),
    {
        Task { start: now(), frame: self }
    }

    /// The reading of the clock at the start of a task that is to be reported with
    /// `measure`.
    pub fn start_task(&self) -> Instant {
        now()
    }

    /// Ends a task that began at `start`: the time since then goes into the running average.
    /// How long that was is for the clock to say.
    pub fn measure(&mut self, start: Instant)
        requires
            old(self).wf(),
        ensures
            final(self).wf(),
            exists|duration: u64| #[trigger]
                blended(old(self).estimate(), duration, old(self).smoothing()) == final(
                    self
                ).estimate(),
            final(self).smoothing() == old(self).smoothing(),
            final(self).decay() == old(self).decay(),
            final(self).budget == old(self).budget,
            *final(final(self).limiter) == *final(old(self).limiter),
    {
        let duration = saturate(as_nanos(&elapsed(&start)));
        self.record(duration);
    }
}

/// A lock representing a single task within a frame.
pub struct Task<'b, 'a: 'b> {
    frame: &'b mut Frame<'a>,
    start: Instant,
}

impl<'b, 'a: 'b> Task<'b, 'a> {
    #[verifier::type_invariant]
    spec fn sound(self) -> bool {
        self.frame.wf()
    }

    /// The running average of the frame as it stands while the task runs.
    pub closed spec fn estimate(&self) -> u64 {
        self.frame.estimate()
    }

    /// The smoothing rate of the frame's limiter.
    pub closed spec fn smoothing(&self) -> u32 {
        self.frame.smoothing()
    }
}

impl<'b, 'a: 'b> Drop for Task<'b, 'a> {
    /// The time since the task was created goes into the running average of its frame.
    fn drop(&mut self)
        ensures
            exists|duration: u64| #[trigger]
                blended(old(self).estimate(), duration, old(self).smoothing()) == final(
                    self
                ).estimate(),
            final(self).smoothing() == old(self).smoothing(),
        opens_invariants none
        no_unwind
    {
        proof {
            use_type_invariant(&*self);
        }
        let duration = saturate(as_nanos(&elapsed(&self.start)));
        self.frame.record(duration);
        assert(blended(old(self).estimate(), duration, old(self).smoothing()) == self.estimate());
    }
}

} // verus!
