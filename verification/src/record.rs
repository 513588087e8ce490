use vstd::prelude::*;

verus! {

/// Program header type of a loadable segment.
pub const PT_LOAD: u32 = 1;

/// Section header type of the inactive null section.
pub const SHT_NULL: u32 = 0;

/// First address above the reserved low region.
pub const FLASH_FLOOR: u32 = 0x1000;

/// A program header record, reduced to what image construction reads.
#[derive(Clone, Copy, Debug, PartialEq, Eq)]
pub struct RawSegment {
    pub p_type: u32,
    pub p_paddr: u32,
    /// Offset of the segment's data in the file.
    pub offset: u64,
    /// Size of the segment's data in the file.
    pub size: u64,
}

/// A section header record, reduced to what image construction reads.
#[derive(Clone, Copy, Debug, PartialEq, Eq)]
pub struct RawSection {
    pub sh_type: u32,
    /// Offset and size of the section's data in the file; `None` for a
    /// section that occupies no file space.
    pub file_range: Option<(u64, u64)>,
}

} // verus!
