//! Frame timing: a frame counter beside the clock readings of the current run.

use vstd::prelude::*;
use std::time::{Duration, Instant};

verus! {

/// A reading of the monotonic clock. Nothing is known of what it holds.
#[verifier::external_type_specification]
#[verifier::external_body]
pub struct ExInstant(std::time::Instant);

/// The duration that `Duration::from_secs` makes of a number of whole seconds.
pub uninterp spec fn duration_of_secs(secs: u64) -> Duration;

/// `Instant::now`: the clock as it stands, of which nothing can be promised.
#[verifier::external_body]
fn clock_now() -> (now: Instant) {
    Instant::now()
}

/// `Duration::from_secs`: the duration of `secs` whole seconds.
#[verifier::external_body]
fn duration_from_secs(secs: u64) -> (duration: Duration)
    ensures
        duration == duration_of_secs(secs),
{
    Duration::from_secs(secs)
}

/// `Instant - Instant`: the time from `earlier` to `later`, which std cuts to zero
/// where `earlier` is the later of the two. Nothing is promised of it here.
#[verifier::external_body]
fn span_between(later: Instant, earlier: Instant) -> (span: Duration) {
    later - earlier
}

/// `Instant::elapsed`: the time since `start`, which depends on the clock.
#[verifier::external_body]
fn elapsed_since(start: &Instant) -> (elapsed: Duration) {
    start.elapsed()
}

pub struct Time {
    start_time: Instant,
    last_frame_time: Instant,
    delta_time: Duration,
    frames: u64,
}

impl Time {
    /// The clock reading at which the run began.
    pub closed spec fn started(&self) -> Instant {
        self.start_time
    }

    /// The clock reading of the latest frame.
    pub closed spec fn last_frame(&self) -> Instant {
        self.last_frame_time
    }

    /// The time between the latest two frames.
    pub closed spec fn spec_delta_time(&self) -> Duration {
        self.delta_time
    }

    /// The number of frames counted.
    pub closed spec fn spec_frame_count(&self) -> u64 {
        self.frames
    }

    /// A run that begins now: no frame counted, no time between frames.
    pub fn new() -> (time: Self)
        ensures
            time.spec_frame_count() == 0,
            time.spec_delta_time() == duration_of_secs(0),
            time.last_frame() == time.started(),
    {
        let start_time = clock_now();
        Time {
            start_time,
            last_frame_time: start_time,
            delta_time: duration_from_secs(0),
            frames: 0,
        }
    }

    /// Counts one frame that was drawn at `current`, `delta` after the one before.
    pub fn record_frame(&mut self, current: Instant, delta: Duration)
        requires
            old(self).spec_frame_count() < u64::MAX,
        ensures
            final(self).spec_frame_count() == old(self).spec_frame_count() + 1,
            final(self).spec_delta_time() == delta,
            final(self).last_frame() == current,
            final(self).started() == old(self).started(),
    {
        self.delta_time = delta;
        self.last_frame_time = current;
        self.frames += 1;
    }

    /// Counts one frame, drawn now. What the clock says decides the new frame time.
    pub fn update(&mut self)
        requires
            old(self).spec_frame_count() < u64::MAX,
        ensures
            final(self).spec_frame_count() == old(self).spec_frame_count() + 1,
            final(self).started() == old(self).started(),
    {
        let current_time = clock_now();
        let delta = span_between(current_time, self.last_frame_time);
        self.record_frame(current_time, delta);
    }

    /// The number of frames since the start of the run.
    #[verifier::when_used_as_spec(spec_frame_count)]
    pub fn frame_count(&self) -> (frames: u64)
        ensures
            frames == self.spec_frame_count(),
    {
        self.frames
    }

    /// The time since the start of the run, by the clock as it stands.
    pub fn elapsed_time(&self) -> (elapsed: Duration) {
        elapsed_since(&self.start_time)
    }

    /// The time between the latest two frames.
    #[verifier::when_used_as_spec(spec_delta_time)]
    pub fn delta_time(&self) -> (delta: Duration)
        ensures
            delta == self.spec_delta_time(),
    {
        self.delta_time
    }
}

} // verus!
