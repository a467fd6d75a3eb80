//! Hard errors and soft findings of an analysis run.

use vstd::prelude::*;

verus! {

/// A reason why the header region of an image cannot be reconstructed.
#[derive(Clone, Copy, Debug, PartialEq, Eq, Structural)]
pub enum HeaderError {
    /// The image is shorter than the header region.
    TruncatedImage,
    /// A free-list link leads to a slot that a free list already holds;
    /// the payload is the link.
    DuplicateFreeSlot(u16),
    /// A non-zero free-list link does not address a slot of the table;
    /// the payload is the link.
    FreePointerOutOfRange(u16),
    /// The discriminant does not name the table's offset, or the padding
    /// behind the table is not zero.
    CorruptHeaderRegion,
    /// The block header at this table index has none of the known shapes.
    InvalidDescriptor(usize),
    /// A never-used slot lies at this table index, inside the used prefix
    /// of the table.
    UnusedWithinLiveRange(usize),
}

/// A finding that is reported beside the result and does not end the run.
#[derive(Clone, Copy, Debug, PartialEq, Eq, Structural)]
pub enum Diagnostic {
    /// The candidate string at this index of the list occurs nowhere.
    NotFound(usize),
    /// A segment of the data area starts at `start`, below the offset
    /// `covered` up to which earlier segments already reach.
    OverlappingAllocations { start: u16, covered: u32 },
    /// A label starts at `start`, below the offset `covered` up to which
    /// earlier labels already reach.
    OverlappingLabels { start: u16, covered: u32 },
    /// A free block claims the bytes from `start` to `end`, past the end of
    /// the image.
    FreedPastImageEnd { start: u16, end: u16 },
}

} // verus!
