use vstd::prelude::*;
use std::time::{Duration, Instant};

verus! {

#[verifier::external_type_specification]
#[verifier::external_body]
pub struct ExInstant(Instant);

/// Relies on `Instant::now`: the current instant of the monotonic clock. Nothing is known of
/// its value.
#[verifier::external_body]
fn now() -> (r: Instant) {
    Instant::now()
}

/// Relies on `Instant::duration_since`: the time from `earlier` to `later`, zero when
/// `earlier` is the later one. Nothing is stated of its value.
#[verifier::external_body]
fn elapsed_between(later: &Instant, earlier: &Instant) -> (r: Duration) {
    later.duration_since(*earlier)
}

/// Relies on `Duration::from_secs`, called with zero: the empty duration.
#[verifier::external_body]
fn zero_duration() -> (r: Duration) {
    Duration::from_secs(0)
}

/// Keeps the times of the frames: when the timeline started, when the last frame ended and how
/// long it took.
pub struct Timeline {
    pub start_time: Instant,
    pub previous_frame_time: Instant,
    pub previous_frame_duration: Duration,
}

impl Timeline {
    pub fn new() -> (r: Timeline) {
        let start_time = now();
        let previous_frame_time = now();
        Timeline { start_time, previous_frame_time, previous_frame_duration: zero_duration() }
    }

    /// Records that the frame ending at `now` began at the end of the previous one, whose
    /// length it took.
    pub fn frame_ended(&mut self, now: Instant, duration: Duration)
        ensures
            final(self).start_time == old(self).start_time,
            final(self).previous_frame_time == now,
            final(self).previous_frame_duration == duration,
    {
        self.previous_frame_time = now;
        self.previous_frame_duration = duration;
    }

    /// Notify the timeline that we've ended the current frame and proceeding to the next.
    pub fn next_frame(&mut self) -> (r: &mut Self)
        ensures
            r.start_time == old(self).start_time,
            *final(self) == *final(r),
    {
        let now = now();
        let duration = elapsed_between(&now, &self.previous_frame_time);
        self.frame_ended(now, duration);
        self
    }

    /// Returns the duration of the last frame
    pub fn previous_frame_duration(&self) -> (r: Duration)
        ensures
            r == self.previous_frame_duration,
    {
        self.previous_frame_duration
    }
}

} // verus!
