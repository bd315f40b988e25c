//! The countdown timer state machine: one `TimerState` per tracked
//! pickup, plus the display computation that a periodic refresh tick
//! performs on it.

use vstd::prelude::*;

verus! {

/// Remaining seconds at or below which the display shows a warning.
pub const WARNING_THRESHOLD_SECS: u32 = 10;

/// Remaining seconds at or below which the display shows critical.
pub const CRITICAL_THRESHOLD_SECS: u32 = 5;

/// One countdown timer. It is idle (no start instant) or running
/// (start instant recorded). Instants are milliseconds on the caller's
/// monotonic clock; remaining time is whole seconds, with sub-second
/// elapsed time truncated.
#[derive(Clone, Copy)]
pub struct TimerState {
    /// `Some(instant)` exactly while the timer is running.
    pub start_time: Option<u64>,
    /// The fixed budget in seconds, set at construction.
    pub total_duration: u32,
}

impl TimerState {
    /// The fixed budget of this timer, in seconds.
    pub open spec fn duration(self) -> u32 {
        self.total_duration
    }

    /// A timer is running exactly when it has a start instant.
    pub open spec fn running(self) -> bool {
        self.start_time is Some
    }

    /// Whole seconds elapsed since the start instant, truncated.
    /// Meaningful only while running; an earlier `now_ms` counts as 0.
    pub open spec fn spec_elapsed_secs(self, now_ms: u64) -> int
        recommends
            self.running(),
    {
        if now_ms >= self.start_time->Some_0 {
            (now_ms - self.start_time->Some_0) / 1000
        } else {
            0
        }
    }

    /// Remaining seconds: the full budget while idle, zero once the
    /// elapsed whole seconds reach the budget, the difference otherwise.
    pub open spec fn spec_time_left(self, now_ms: u64) -> u32 {
        if !self.running() {
            self.total_duration
        } else if self.spec_elapsed_secs(now_ms) >= self.total_duration {
            0u32
        } else {
            (self.total_duration - self.spec_elapsed_secs(now_ms)) as u32
        }
    }

    /// The state after `start` at `now_ms`: records the instant when
    /// idle, and is a no-op when already running.
    pub open spec fn spec_start(self, now_ms: u64) -> TimerState {
        if self.running() {
            self
        } else {
            TimerState { start_time: Some(now_ms), total_duration: self.total_duration }
        }
    }

    /// The state after `reset`: idle with the same budget.
    pub open spec fn spec_reset(self) -> TimerState {
        TimerState { start_time: None, total_duration: self.total_duration }
    }

    /// Constructs an idle timer with the given fixed budget. Until it
    /// is started, its remaining time is the full budget at any instant.
    pub fn new(duration: u32) -> (t: TimerState)
        ensures
            !t.running(),
            t.duration() == duration,
            forall|now_ms: u64| #[trigger] t.spec_time_left(now_ms) == duration,
    {
        TimerState { start_time: None, total_duration: duration }
    }

    /// Starts the timer if it is idle, recording `now_ms` as the start
    /// instant; does nothing if it is already running.
    pub fn start(&mut self, now_ms: u64)
        ensures
            *final(self) == old(self).spec_start(now_ms),
            final(self).running(),
            final(self).duration() == old(self).duration(),
            old(self).running() ==> *final(self) == *old(self),
            !old(self).running() ==> final(self).start_time == Some(now_ms),
    {
        if self.start_time.is_some() {
            return ;
        }
        self.start_time = Some(now_ms);
    }

    /// Returns the timer to idle with its full budget; does nothing if
    /// it is already idle. From any state, the result is idle and its
    /// remaining time is the full budget at any instant.
    pub fn reset(&mut self)
        ensures
            *final(self) == old(self).spec_reset(),
            !final(self).running(),
            final(self).duration() == old(self).duration(),
            forall|now_ms: u64| #[trigger] final(self).spec_time_left(now_ms) == old(self).duration(),
    {
        if self.start_time.is_none() {
            return ;
        }
        self.start_time = None;
    }

    /// Remaining whole seconds at the instant `now_ms`.
    pub fn time_left(&self, now_ms: u64) -> (r: u32)
        ensures
            r == self.spec_time_left(now_ms),
    {
        match self.start_time {
            None => self.total_duration,
            Some(s) => {
                let elapsed_ms: u64 = if now_ms >= s {
                    now_ms - s
                } else {
                    0
                };
                let elapsed_secs: u64 = elapsed_ms / 1000;
                if elapsed_secs >= self.total_duration as u64 {
                    0
                } else {
                    self.total_duration - (elapsed_secs as u32)
                }
            },
        }
    }

    /// Whether the timer is running.
    pub fn is_running(&self) -> (r: bool)
        ensures
            r == self.running(),
    {
        self.start_time.is_some()
    }
}

/// Starting a running timer changes nothing: a second `start`, at any
/// instant, neither restarts nor extends the countdown.
pub proof fn lemma_start_idempotent(t: TimerState, n1: u64, n2: u64)
    requires
        !t.running(),
    ensures
        t.spec_start(n1).running(),
        t.spec_start(n1).spec_start(n2) == t.spec_start(n1),
        t.spec_start(n1).start_time == Some(n1),
{
}

/// For a running timer with budget `d` started at `s`, exactly `t`
/// whole seconds later the remaining time is `d - t` while `t < d`,
/// and 0 from `t >= d` on.
pub proof fn lemma_time_left_after_elapsed(timer: TimerState, s: u64, t: u64)
    requires
        timer.start_time == Some(s),
        s + t * 1000 <= u64::MAX,
    ensures
        t < timer.duration() ==> timer.spec_time_left((s + t * 1000) as u64) == timer.duration() - t,
        t >= timer.duration() ==> timer.spec_time_left((s + t * 1000) as u64) == 0,
{
    let now: u64 = (s + t * 1000) as u64;
    assert((now - s) == t * 1000);
    assert(t * 1000 / 1000 == t) by (nonlinear_arith);
    assert(timer.spec_elapsed_secs(now) == t);
}

/// What one refresh tick pushes to the UI for one timer.
#[derive(Clone, Copy, PartialEq, Eq, Structural, Debug)]
pub struct TimerDisplay {
    /// Remaining whole seconds.
    pub remaining: u32,
    /// Running and not yet expired.
    pub active: bool,
    /// Remaining time at or below the warning threshold.
    pub warning: bool,
    /// Remaining time at or below the critical threshold.
    pub critical: bool,
}

/// The display derived from a timer at an instant. The warning and
/// critical thresholds are the fixed 10 s / 5 s values; the refresh
/// path deliberately does not consult the configured thresholds, a
/// known quirk kept as-is rather than silently repaired.
pub open spec fn spec_display(t: TimerState, now_ms: u64) -> TimerDisplay {
    let left = t.spec_time_left(now_ms);
    TimerDisplay {
        remaining: left,
        active: t.running() && left > 0,
        warning: left <= WARNING_THRESHOLD_SECS,
        critical: left <= CRITICAL_THRESHOLD_SECS,
    }
}

/// One refresh tick over one timer: computes the display for `now_ms`
/// and, as the system's sole expiry-detection point, resets the timer
/// if it is running with no time left. The pushed display still shows
/// the observed zero, not the post-reset budget.
pub fn refresh_tick(timer: &mut TimerState, now_ms: u64) -> (d: TimerDisplay)
    ensures
        d == spec_display(*old(timer), now_ms),
        old(timer).running() && old(timer).spec_time_left(now_ms) == 0 ==> *final(timer)
            == old(timer).spec_reset(),
        !(old(timer).running() && old(timer).spec_time_left(now_ms) == 0) ==> *final(timer)
            == *old(timer),
{
    let time_left = timer.time_left(now_ms);
    let was_running = timer.is_running();
    if was_running && time_left == 0 {
        timer.reset();
    }
    TimerDisplay {
        remaining: time_left,
        active: was_running && time_left > 0,
        warning: time_left <= WARNING_THRESHOLD_SECS,
        critical: time_left <= CRITICAL_THRESHOLD_SECS,
    }
}

} // verus!
