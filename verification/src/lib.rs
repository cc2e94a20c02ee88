//! A virtual-memory area set: a sorted, non-overlapping collection of
//! virtual-address ranges ("areas"), each bound to a flags value and a
//! mapping backend that installs, removes, or alters page-table entries.
//!
//! The set keeps several invariants at once: areas are sorted by start and
//! pairwise non-overlapping, every stored area is non-empty, and each area's
//! frame table only holds page-aligned keys inside the area's range.
use vstd::prelude::*;

pub mod addr;
pub mod area;
pub mod backend;
pub mod frame;
pub mod laws;
pub mod set;

pub use addr::AddrRange;
pub use addr::PAGE_SIZE_4K;
pub use area::AreaStat;
pub use area::MemoryArea;
pub use backend::MappingBackend;
pub use frame::FrameTracker;
pub use frame::Page;
pub use set::MemorySet;

verus! {

/// Errors that memory-mapping operations can report.
#[derive(Debug, Clone, Copy, PartialEq, Eq, Structural)]
pub enum MappingError {
    /// Invalid parameter, such as an empty range or out-of-range arithmetic.
    InvalidParam,
    /// The address range overlaps an existing area and eviction was not allowed.
    AlreadyExists,
    /// The backend page table is in a bad state and rejected the request.
    BadState,
}

/// The result type of memory-mapping operations.
pub type MappingResult = Result<(), MappingError>;

} // verus!
