//! The capture worker's frame count, and the rate that is reported from it.

use vstd::prelude::*;

verus! {

/// Frames between two reports of the capture rate.
pub const REPORT_EVERY: u128 = 30;

/// Counts the frames that the capture worker has synchronised.
pub struct FrameCounter {
    frames: u128,
}

impl View for FrameCounter {
    type V = nat;

    /// The number of frames counted.
    closed spec fn view(&self) -> nat {
        self.frames as nat
    }
}

impl FrameCounter {
    /// A counter that has seen no frame.
    pub fn new() -> (counter: Self)
        ensures
            counter@ == 0,
    {
        FrameCounter { frames: 0 }
    }

    /// The number of frames counted.
    pub fn frames(&self) -> (frames: u128)
        ensures
            frames == self@,
    {
        self.frames
    }

    /// Counts one more frame and says whether a report is due with it, which
    /// it is with every `REPORT_EVERY`-th frame.
    pub fn count_frame(&mut self) -> (due: bool)
        requires
            old(self)@ < u128::MAX,
        ensures
            final(self)@ == old(self)@ + 1,
            due == (final(self)@ % (REPORT_EVERY as nat) == 0),
    {
        self.frames = self.frames + 1;
        self.frames % REPORT_EVERY == 0
    }

    /// The capture rate in tenths of a frame per second, rounded down, when
    /// the frames counted took `elapsed_ms` milliseconds.
    pub fn rate_tenths(&self, elapsed_ms: u128) -> (rate: u128)
        requires
            elapsed_ms > 0,
            self@ * 10000 <= u128::MAX,
        ensures
            rate == (self@ * 10000) / (elapsed_ms as nat),
    {
        (self.frames * 10000) / elapsed_ms
    }
}

} // verus!
