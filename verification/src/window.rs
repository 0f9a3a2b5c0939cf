//! A reference-coordinate window under analysis.

use vstd::prelude::*;

verus! {

/// A half-open reference interval on a named chromosome.
pub struct Window {
    /// Chromosome name.
    pub chrom: String,
    /// Inclusive start coordinate.
    pub start: u64,
    /// Exclusive end coordinate.
    pub end: u64,
}

/// A window's end always lies strictly past its start.
pub open spec fn window_wf(w: Window) -> bool {
    w.start < w.end
}

impl Window {
    /// Builds a window over `[start, end)`.
    pub fn new(chrom: String, start: u64, end: u64) -> (w: Window)
        requires
            start < end,
        ensures
            w.chrom == chrom && w.start == start && w.end == end,
            window_wf(w),
    {
        Window { chrom, start, end }
    }

    /// Widens the window by the configured buffer on both sides; the start
    /// saturates at the origin.
    pub fn widen(self, buffer: u64) -> (w: Window)
        requires
            window_wf(self),
            self.end + buffer <= 0x40_0000_0000,
        ensures
            w.chrom == self.chrom,
            w.start == (if self.start >= buffer {
                (self.start - buffer) as u64
            } else {
                0u64
            }),
            w.end == self.end + buffer,
            window_wf(w),
            w.end <= 0x40_0000_0000,
    {
        let start: u64 = if self.start >= buffer {
            self.start - buffer
        } else {
            0
        };
        Window { chrom: self.chrom, start, end: self.end + buffer }
    }
}

} // verus!
