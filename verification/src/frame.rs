//! Physical-frame capabilities: allocation, release, and the start address
//! of a single physical page.
use vstd::prelude::*;

verus! {

/// A capability over a single physical page frame.
///
/// Implementations decide how frames are allocated and released; the
/// memory-set core only stores and counts cloneable references to them.
pub trait FrameTracker: Sized {
    /// Builds a tracker over the frame at `pa` without allocating.
    fn new(pa: usize) -> Self;

    /// Builds a tracker over the frame at `pa` that neither allocates
    /// nor releases the frame.
    fn no_tracking(pa: usize) -> Self;

    /// Allocates a fresh frame and returns its tracker.
    fn alloc_frame() -> Self;

    /// Releases the frame.
    fn dealloc_frame(&mut self);

    /// Returns the physical start address of the frame.
    fn start(&self) -> usize;

    /// Returns the page size covered by one frame, in bytes.
    fn size() -> usize;
}

/// A page: a frame tracker used as the unit of virtual-memory bookkeeping.
pub trait Page: FrameTracker {
}

} // verus!
