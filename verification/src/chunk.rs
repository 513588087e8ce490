use vstd::prelude::*;

verus! {

/// A piece of the image: the bytes of one accepted segment, with the
/// address at which the first of them is placed. The bytes are borrowed from
/// the file. A chunk is empty where the first section of its segment starts
/// at the segment's end.
#[derive(Clone, Copy, Debug)]
pub struct Chunk<'a> {
    pub flash_addr: u32,
    pub data: &'a [u8],
}

/// What a chunk stands for: an address and the bytes placed from there on.
pub struct ChunkModel {
    pub flash_addr: u32,
    pub data: Seq<u8>,
}

impl<'a> View for Chunk<'a> {
    type V = ChunkModel;

    open spec fn view(&self) -> ChunkModel {
        ChunkModel { flash_addr: self.flash_addr, data: self.data@ }
    }
}

impl ChunkModel {
    /// The first address after the chunk.
    pub open spec fn end(self) -> int {
        self.flash_addr + self.data.len()
    }

    /// Whether the chunk places a byte at `addr`.
    pub open spec fn covers(self, addr: int) -> bool {
        self.flash_addr <= addr < self.end()
    }
}

/// The models of a sequence of chunks, in the same order.
pub open spec fn models<'a>(chunks: Seq<Chunk<'a>>) -> Seq<ChunkModel> {
    chunks.map_values(|c: Chunk<'a>| c@)
}

} // verus!
