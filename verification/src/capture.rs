//! The decisions of the live-camera loop: grab frames until the requested number
//! is reached or the stream ends.

use vstd::prelude::*;

verus! {

/// What to do with the result of one camera read.
#[derive(Clone, Copy, Debug, PartialEq, Eq)]
pub enum CaptureStep {
    /// A frame came: detect on it; `frame` counts from 0.
    Process { frame: u32 },
    /// The stream ended after `frames` frames.
    StreamEnded { frames: u32 },
}

/// How many of the requested frames have been processed.
pub struct CaptureProgress {
    frames_done: u32,
    frame_limit: u32,
}

impl CaptureProgress {
    #[verifier::type_invariant]
    spec fn within_limit(&self) -> bool {
        self.frames_done <= self.frame_limit
    }

    /// Frames processed so far.
    pub closed spec fn done(&self) -> u32 {
        self.frames_done
    }

    /// Frames requested.
    pub closed spec fn limit(&self) -> u32 {
        self.frame_limit
    }

    /// Nothing processed yet, `frame_limit` frames requested.
    pub fn new(frame_limit: u32) -> (r: CaptureProgress)
        ensures
            r.done() == 0,
            r.limit() == frame_limit,
    {
        CaptureProgress { frames_done: 0, frame_limit }
    }

    /// Frames processed so far.
    pub fn frames_done(&self) -> (r: u32)
        ensures
            r == self.done(),
    {
        self.frames_done
    }

    /// Whether another frame is to be read.
    pub fn wants_frame(&self) -> (r: bool)
        ensures
            r == (self.done() < self.limit()),
    {
        self.frames_done < self.frame_limit
    }

    /// The step for one camera read: `grabbed` is whether the camera returned a
    /// frame and `empty` whether that frame holds no pixels.
    pub fn on_read(&mut self, grabbed: bool, empty: bool) -> (step: CaptureStep)
        requires
            old(self).done() < old(self).limit(),
        ensures
            final(self).limit() == old(self).limit(),
            final(self).done() <= final(self).limit(),
            grabbed && !empty ==> step == (CaptureStep::Process { frame: old(self).done() })
                && final(self).done() == old(self).done() + 1,
            !(grabbed && !empty) ==> step == (CaptureStep::StreamEnded {
                frames: old(self).done(),
            }) && final(self).done() == old(self).done(),
    {
        if grabbed && !empty {
            let frame = self.frames_done;
            self.frames_done = self.frames_done + 1;
            CaptureStep::Process { frame }
        } else {
            CaptureStep::StreamEnded { frames: self.frames_done }
        }
    }
}

} // verus!
