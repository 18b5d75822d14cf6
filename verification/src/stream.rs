//! Frame-stream accounting: the decision logic of the read loop that
//! assembles fixed-size frames from arbitrarily sized chunks.
//!
//! The surrounding I/O loop reads into the unfilled tail of the frame buffer
//! and reports each chunk size here; a zero-length read is end of stream. A
//! stream that ends exactly on a frame boundary terminates cleanly, while one
//! that ends mid-frame terminates cleanly with a warning.

use vstd::prelude::*;

verus! {

/// What the read loop must do after one chunk has been accepted.
#[derive(Clone, Copy, Debug, PartialEq, Eq, Structural)]
pub enum ReadStep {
    /// The frame is still incomplete; this many bytes are missing.
    NeedMore(usize),
    /// A full frame has been assembled and may be processed.
    FrameReady,
    /// The stream has ended; `partial` says whether a frame was left
    /// incomplete, which is reported as a warning but not as a failure.
    EndOfStream { partial: bool },
}

/// Tracks how much of the current fixed-size frame has been collected.
pub struct FrameCollector {
    pub frame_size: usize,
    pub collected: usize,
}

impl FrameCollector {
    pub open spec fn wf(self) -> bool {
        &&& 1 <= self.frame_size
        &&& self.collected < self.frame_size
    }

    /// Starts collecting frames of `frame_size` bytes.
    pub fn new(frame_size: usize) -> (r: FrameCollector)
        requires
            1 <= frame_size,
        ensures
            r.wf(),
            r.frame_size == frame_size,
            r.collected == 0,
    {
        FrameCollector { frame_size, collected: 0 }
    }

    /// How many bytes of the current frame are still missing; the I/O loop
    /// reads into exactly this much buffer tail.
    pub fn remaining(&self) -> (r: usize)
        requires
            self.wf(),
        ensures
            r == self.frame_size - self.collected,
            1 <= r,
    {
        self.frame_size - self.collected
    }

    /// Accounts for one read of `chunk` bytes. A zero-length chunk is end of
    /// stream: collection stops, and the step says whether the current frame
    /// was partially filled. Otherwise the chunk fills part of the frame;
    /// when the frame completes, collection restarts at zero for the next
    /// frame and the step says the frame is ready.
    pub fn accept(&mut self, chunk: usize) -> (r: ReadStep)
        requires
            old(self).wf(),
            chunk <= old(self).frame_size - old(self).collected,
        ensures
            final(self).wf(),
            final(self).frame_size == old(self).frame_size,
            chunk == 0 ==> r == (ReadStep::EndOfStream { partial: old(self).collected > 0 })
                && final(self).collected == old(self).collected,
            chunk > 0 && old(self).collected + chunk == old(self).frame_size ==> r
                == ReadStep::FrameReady && final(self).collected == 0,
            chunk > 0 && old(self).collected + chunk < old(self).frame_size ==> r
                == ReadStep::NeedMore((old(self).frame_size - old(self).collected - chunk) as usize)
                && final(self).collected == old(self).collected + chunk,
    {
        if chunk == 0 {
            return ReadStep::EndOfStream { partial: self.collected > 0 };
        }
        let filled = self.collected + chunk;
        if filled == self.frame_size {
            self.collected = 0;
            ReadStep::FrameReady
        } else {
            self.collected = filled;
            ReadStep::NeedMore(self.frame_size - filled)
        }
    }
}

} // verus!
