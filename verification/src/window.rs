//! The playback window over an interleaved buffer: which samples a bounded
//! playback source yields, and where a seek puts it. Positions are whole
//! frames, so a window never starts mid-frame (that would swap the channels).
use vstd::prelude::*;

verus! {

/// A cursor over the samples `[start, end)` of an interleaved buffer with
/// `channels` channels; `pos` is the next sample to yield.
pub struct SampleWindow {
    pub start: usize,
    pub pos: usize,
    pub end: usize,
    pub channels: usize,
}

impl SampleWindow {
    /// `start <= pos <= end`, at least one channel.
    pub open spec fn wf(&self) -> bool {
        self.start <= self.pos <= self.end && self.channels >= 1
    }

    /// The window over frames `[from_frame, to_frame)` of a buffer of `total`
    /// samples, cut back to the buffer; a window that would end before it
    /// starts is empty.
    pub fn new(total: usize, channels: usize, from_frame: usize, to_frame: usize) -> (w: SampleWindow)
        requires
            channels >= 1,
            from_frame * channels <= usize::MAX,
            to_frame * channels <= usize::MAX,
        ensures
            w.wf(),
            w.channels == channels,
            w.start == if from_frame * channels < total { from_frame * channels } else { total as int },
            w.end == if to_frame * channels < w.start {
                w.start as int
            } else if to_frame * channels > total {
                total as int
            } else {
                to_frame * channels
            },
            w.pos == w.start,
    {
        let a = from_frame * channels;
        let start = if a < total { a } else { total };
        let b = to_frame * channels;
        let end = if b < start { start } else if b > total { total } else { b };
        SampleWindow { start, pos: start, end, channels }
    }

    /// The index of the next sample to play, moving past it; `None` once the
    /// window has run out.
    pub fn next_index(&mut self) -> (i: Option<usize>)
        requires
            old(self).wf(),
        ensures
            final(self).wf(),
            final(self).start == old(self).start,
            final(self).end == old(self).end,
            final(self).channels == old(self).channels,
            old(self).pos < old(self).end ==> i == Some(old(self).pos) && final(self).pos == old(self).pos + 1,
            old(self).pos >= old(self).end ==> i is None && final(self).pos == old(self).pos,
    {
        if self.pos >= self.end {
            return None;
        }
        let i = self.pos;
        self.pos = self.pos + 1;
        Some(i)
    }

    /// How many samples are left to play.
    pub fn remaining(&self) -> (n: usize)
        requires
            self.wf(),
        ensures
            n == self.end - self.pos,
    {
        self.end - self.pos
    }

    /// How many whole frames the window covers.
    pub fn frames(&self) -> (n: usize)
        requires
            self.wf(),
        ensures
            n == (self.end - self.start) / (self.channels as int),
    {
        (self.end - self.start) / self.channels
    }

    /// Moves to `frame` frames past the window's start (not the buffer's),
    /// stopping at the window's end.
    pub fn seek(&mut self, frame: usize)
        requires
            old(self).wf(),
            old(self).start + frame * old(self).channels <= usize::MAX,
        ensures
            final(self).wf(),
            final(self).start == old(self).start,
            final(self).end == old(self).end,
            final(self).channels == old(self).channels,
            final(self).pos == if old(self).start + frame * old(self).channels < old(self).end {
                old(self).start + frame * old(self).channels
            } else {
                old(self).end as int
            },
    {
        proof {
            assert(frame * self.channels >= 0) by (nonlinear_arith)
                requires self.channels >= 1;
        }
        let p = self.start + frame * self.channels;
        self.pos = if p < self.end { p } else { self.end };
    }
}

} // verus!
