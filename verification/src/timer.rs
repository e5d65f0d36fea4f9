//! A pausable, seekable virtual clock.
//!
//! The timer never reads the wall clock itself: every operation that needs
//! the current instant takes it as a `now_ms` argument, so the whole state
//! machine is exact integer arithmetic. The host reads its own clock and
//! passes the instant in.

use vstd::prelude::*;

verus! {

/// Largest instant (in milliseconds) the timer accepts from the host.
pub const TIMER_NOW_MAX_MS: i64 = 1_000_000_000_000_000;

/// Bound on the timer's stored instants; wide enough that every operation
/// on admissible inputs stays inside it.
pub const TIMER_FIELD_MAX_MS: i64 = 1_500_000_000_000_000;

/// A pausable, seekable monotonic clock, decoupled from wall-clock audio
/// playback.
///
/// The encoding uses two stored instants: the timer is running exactly when
/// `start_time > pause_time`. While running, the elapsed reading is
/// `now - start_time`; while paused it is frozen at
/// `pause_time - start_time`. A freshly created timer is paused at reading
/// zero. `start` and `pause` on an already-matching state are no-ops.
#[derive(Clone, Copy, PartialEq, Eq, Structural, Debug)]
pub struct Timer {
    /// When the timer started; if `start_time > pause_time` it is running.
    pub start_time: i64,
    /// When the timer paused; if `pause_time >= start_time` it is paused.
    pub pause_time: i64,
}

impl Timer {
    /// Both stored instants stay within a fixed range, so that every
    /// operation on admissible `now` values is free of overflow.
    pub open spec fn wf(self) -> bool {
        -TIMER_FIELD_MAX_MS <= self.start_time <= TIMER_FIELD_MAX_MS
            && -TIMER_FIELD_MAX_MS <= self.pause_time <= TIMER_FIELD_MAX_MS
    }

    /// Whether the timer is running.
    pub open spec fn spec_is_started(self) -> bool {
        self.start_time > self.pause_time
    }

    /// The elapsed reading at instant `now`.
    pub open spec fn spec_read(self, now: int) -> int {
        if self.spec_is_started() {
            now - self.start_time
        } else {
            self.pause_time - self.start_time
        }
    }

    /// A new timer: paused, reading zero.
    pub fn new(now_ms: i64) -> (timer: Timer)
        requires
            -TIMER_NOW_MAX_MS <= now_ms <= TIMER_NOW_MAX_MS,
        ensures
            timer.wf(),
            !timer.spec_is_started(),
            timer.spec_read(now_ms as int) == 0,
    {
        Timer { start_time: now_ms, pause_time: now_ms }
    }

    /// Reset to a paused timer reading zero.
    pub fn reset(&mut self, now_ms: i64)
        requires
            -TIMER_NOW_MAX_MS <= now_ms <= TIMER_NOW_MAX_MS,
        ensures
            final(self).wf(),
            !final(self).spec_is_started(),
            final(self).spec_read(now_ms as int) == 0,
    {
        *self = Timer { start_time: now_ms, pause_time: now_ms };
    }

    /// Whether the timer is running.
    pub fn is_started(&self) -> (started: bool)
        ensures
            started == self.spec_is_started(),
    {
        self.start_time > self.pause_time
    }

    /// Read the elapsed virtual duration at instant `now`.
    pub fn read(&self, now_ms: i64) -> (elapsed: i64)
        requires
            self.wf(),
            -TIMER_NOW_MAX_MS <= now_ms <= TIMER_NOW_MAX_MS,
        ensures
            elapsed == self.spec_read(now_ms as int),
            -3_000_000_000_000_000 <= elapsed <= 3_000_000_000_000_000,
    {
        if self.is_started() {
            now_ms - self.start_time
        } else {
            self.pause_time - self.start_time
        }
    }

    /// Pause the timer, freezing the reading it has at instant `now`; a
    /// no-op if it is already paused.
    ///
    /// A paused timer cannot store a negative reading, so a running timer
    /// whose reading is still negative (the host passed an instant before
    /// the running origin) freezes at zero.
    pub fn pause(&mut self, now_ms: i64)
        requires
            old(self).wf(),
            -TIMER_NOW_MAX_MS <= now_ms <= TIMER_NOW_MAX_MS,
        ensures
            final(self).wf(),
            !final(self).spec_is_started(),
            final(self).spec_read(now_ms as int) == if old(self).spec_read(now_ms as int) >= 0 {
                old(self).spec_read(now_ms as int)
            } else {
                0
            },
            forall|later: int| !old(self).spec_is_started()
                ==> final(self).spec_read(later) == old(self).spec_read(later),
    {
        if self.is_started() {
            if now_ms >= self.start_time {
                self.pause_time = now_ms;
            } else {
                self.pause_time = self.start_time;
            }
        }
    }

    /// Start the timer at instant `now`, preserving the elapsed reading it
    /// had while paused; a no-op if it is already running.
    ///
    /// The paused instant is pushed two seconds behind the running origin so
    /// that the running state is unambiguous even after small rebasing.
    pub fn start(&mut self, now_ms: i64)
        requires
            old(self).wf(),
            -TIMER_NOW_MAX_MS <= now_ms <= TIMER_NOW_MAX_MS,
            -TIMER_FIELD_MAX_MS + 2_000 <= now_ms - old(self).spec_read(now_ms as int),
            now_ms - old(self).spec_read(now_ms as int) <= TIMER_FIELD_MAX_MS,
        ensures
            final(self).wf(),
            final(self).spec_is_started(),
            final(self).spec_read(now_ms as int) == old(self).spec_read(now_ms as int),
    {
        let elapsed = self.read(now_ms);
        if !self.is_started() {
            self.pause_time = now_ms - elapsed - 2_000;
            self.start_time = now_ms - elapsed;
        }
    }

    /// Rebase the clock by a relative offset without changing the run
    /// state: after the call every reading is larger by `offset_ms`. A
    /// paused reading that would become negative clamps at zero.
    pub fn set(&mut self, offset_ms: i64)
        requires
            old(self).wf(),
            -1_000_000_000_000 <= offset_ms <= 1_000_000_000_000,
            -TIMER_FIELD_MAX_MS + 1_000_000_000_000 <= old(self).start_time,
            old(self).start_time <= TIMER_FIELD_MAX_MS - 1_000_000_000_000,
            -TIMER_FIELD_MAX_MS + 1_000_000_000_000 <= old(self).pause_time,
            old(self).pause_time <= TIMER_FIELD_MAX_MS - 1_000_000_000_000,
        ensures
            final(self).wf(),
            final(self).spec_is_started() == old(self).spec_is_started(),
            old(self).spec_is_started() ==> forall|now: int|
                final(self).spec_read(now) == old(self).spec_read(now) + offset_ms,
            !old(self).spec_is_started() ==> forall|now: int|
                final(self).spec_read(now) == if old(self).spec_read(now) + offset_ms >= 0 {
                    old(self).spec_read(now) + offset_ms
                } else {
                    0
                },
    {
        if self.is_started() {
            self.pause_time = self.pause_time - offset_ms;
            self.start_time = self.start_time - offset_ms;
        } else {
            let frozen = self.pause_time - self.start_time;
            let moved = frozen + offset_ms;
            let clamped: i64 = if moved >= 0 { moved } else { 0 };
            self.pause_time = self.start_time + clamped;
        }
    }

    /// Force the elapsed reading to exactly `point_ms` at instant `now`,
    /// without changing the run state.
    pub fn set_to(&mut self, point_ms: i64, now_ms: i64)
        requires
            old(self).wf(),
            -TIMER_NOW_MAX_MS <= now_ms <= TIMER_NOW_MAX_MS,
            0 <= point_ms <= 1_000_000_000_000,
            !old(self).spec_is_started()
                ==> old(self).start_time <= TIMER_FIELD_MAX_MS - 1_000_000_000_000,
        ensures
            final(self).wf(),
            final(self).spec_is_started() == old(self).spec_is_started(),
            final(self).spec_read(now_ms as int) == point_ms,
    {
        if self.is_started() {
            self.pause_time = now_ms - point_ms - 2_000;
            self.start_time = now_ms - point_ms;
        } else {
            self.pause_time = self.start_time + point_ms;
        }
    }
}

impl Default for Timer {
    /// A paused timer whose logical origin is instant zero.
    fn default() -> (timer: Timer)
        ensures
            timer.wf(),
            !timer.spec_is_started(),
            timer.spec_read(0) == 0,
    {
        Timer { start_time: 0, pause_time: 0 }
    }
}

} // verus!
