//! The per-area mapping backend: the strategy that actually touches the
//! page table when an area is mapped, unmapped, or re-protected.
use vstd::prelude::*;

use crate::addr::spec_is_aligned_4k;
use crate::frame::FrameTracker;

verus! {

/// Whether the keys of a frame list are strictly increasing.
pub open spec fn frame_keys_sorted<V>(s: Seq<(usize, V)>) -> bool {
    forall|i: int, j: int| 0 <= i < j < s.len() ==> s[i].0 < s[j].0
}

/// Whether every key of a frame list is 4K-aligned and lies in
/// `[start, start + size)`.
pub open spec fn frame_keys_in<V>(s: Seq<(usize, V)>, start: usize, size: usize) -> bool {
    forall|i: int|
        0 <= i < s.len() ==> spec_is_aligned_4k(#[trigger] s[i].0) && start <= s[i].0 < start
            + size
}

/// Whether the frame list holds an entry for virtual address `k`.
pub open spec fn has_key<V>(s: Seq<(usize, V)>, k: usize) -> bool {
    exists|i: int| 0 <= i < s.len() && s[i].0 == k
}

/// The position of the entry for `k` in the frame list.
pub open spec fn key_index<V>(s: Seq<(usize, V)>, k: usize) -> int {
    choose|i: int| 0 <= i < s.len() && s[i].0 == k
}

/// The value stored for `k` in the frame list.
pub open spec fn val_at<V>(s: Seq<(usize, V)>, k: usize) -> V {
    s[key_index(s, k)].1
}

/// Underlying operations to do when manipulating mappings within a
/// [`MemoryArea`](crate::MemoryArea).
///
/// The backend can be different for different memory areas. For linear
/// mappings, the target physical address is known when the area is added to
/// the page table; for lazy mappings, an empty mapping is installed and page
/// faults populate it later.
///
/// `map` hands back the references of the frames it newly installed, as a
/// frame list sorted by virtual address whose keys are 4K-aligned and lie in
/// the requested sub-range. `unmap` must not release frames: the area's frame
/// table owns them, and releases them when entries are dropped.
pub trait MappingBackend: Sized + Clone {
    /// The flags type attached to each area, e.g. permission bits.
    type Flags: Copy;

    /// The page table the backend operates on.
    type PageTable;

    /// The frame capability type behind each frame reference.
    type FrameTrackerImpl: FrameTracker;

    /// A cloneable, shared reference to a tracked frame.
    type FrameTrackerRef: Clone;

    /// Installs mappings for `[start, start + size)` in the page table and
    /// returns the newly installed frames, or `Err(())` on failure.
    fn map(
        &self,
        start: usize,
        size: usize,
        flags: Self::Flags,
        page_table: &mut Self::PageTable,
    ) -> (r: Result<Vec<(usize, Self::FrameTrackerRef)>, ()>)
        requires
            start + size <= usize::MAX,
        ensures
            r matches Ok(frames) ==> frame_keys_sorted(frames@) && frame_keys_in(
                frames@,
                start,
                size,
            ),
    ;

    /// Removes the mappings of `[start, start + size)` from the page table.
    /// Must not release frames; returns whether the operation succeeded.
    fn unmap(&self, start: usize, size: usize, page_table: &mut Self::PageTable) -> bool
        requires
            start + size <= usize::MAX,
    ;

    /// Updates the access flags of `[start, start + size)` in the page
    /// table; returns whether the operation succeeded.
    fn protect(
        &self,
        start: usize,
        size: usize,
        new_flags: Self::Flags,
        page_table: &mut Self::PageTable,
    ) -> bool
        requires
            start + size <= usize::MAX,
    ;
}

} // verus!
