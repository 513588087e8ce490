//! Rejecting chunks that collide.

use vstd::prelude::*;
use crate::chunk::{Chunk, ChunkModel, models};
use crate::error::ImageError;
use crate::order::{
    in_address_order, is_reordering, is_sorted_by_address, precedes, sort_by_address,
};

verus! {

/// Chunk `j` follows chunk `i` in order of address, yet starts before
/// chunk `i` has ended.
pub open spec fn collides(chunks: Seq<ChunkModel>, i: int, j: int) -> bool {
    &&& 0 <= i < chunks.len()
    &&& 0 <= j < chunks.len()
    &&& precedes(chunks, i, j)
    &&& chunks[j].flash_addr < chunks[i].end()
}

/// Some chunk starts before a chunk in front of it has ended.
pub open spec fn has_collision(chunks: Seq<ChunkModel>) -> bool {
    exists|i: int, j: int| collides(chunks, i, j)
}

/// `addr` is the lowest address at which a chunk starts inside the extent
/// of a chunk that comes before it.
pub open spec fn is_first_collision(chunks: Seq<ChunkModel>, addr: u32) -> bool {
    &&& exists|i: int, j: int| collides(chunks, i, j) && chunks[j].flash_addr == addr
    &&& forall|i: int, j: int| collides(chunks, i, j) ==> addr <= chunks[j].flash_addr
}

/// The address of the first collision, where chunks collide.
pub open spec fn first_collision(chunks: Seq<ChunkModel>) -> u32 {
    choose|addr: u32| is_first_collision(chunks, addr)
}

/// Two chunks overlap when each starts before the other has ended.
pub open spec fn overlap(a: ChunkModel, b: ChunkModel) -> bool {
    a.flash_addr < b.end() && b.flash_addr < a.end()
}

/// Why a set of chunks cannot be laid out, if it cannot.
pub open spec fn rejection(chunks: Seq<ChunkModel>) -> Option<ImageError> {
    if has_collision(chunks) {
        Some(ImageError::OverlappingChunks { addr: first_collision(chunks) })
    } else if chunks.len() == 0 {
        Some(ImageError::NoLoadableSegments)
    } else {
        None
    }
}

/// No chunk starts below a chunk in front of it.
pub open spec fn is_ascending(sorted: Seq<ChunkModel>) -> bool {
    forall|p: int, q: int|
        0 <= p <= q < sorted.len() ==> (#[trigger] sorted[p]).flash_addr <= (
        #[trigger] sorted[q]).flash_addr
}

/// Every chunk ends before the chunks after it start.
pub open spec fn is_separated(sorted: Seq<ChunkModel>, n: int) -> bool {
    forall|p: int, q: int|
        0 <= p < q < n ==> (#[trigger] sorted[p]).end() <= (#[trigger] sorted[q]).flash_addr
}

/// There is one first collision at most.
pub proof fn lemma_first_collision_unique(chunks: Seq<ChunkModel>, a: u32, b: u32)
    requires
        is_first_collision(chunks, a),
        is_first_collision(chunks, b),
    ensures
        a == b,
{
}

proof fn lemma_first_collision_is(chunks: Seq<ChunkModel>, addr: u32)
    requires
        is_first_collision(chunks, addr),
    ensures
        has_collision(chunks),
        first_collision(chunks) == addr,
{
    lemma_first_collision_unique(chunks, addr, first_collision(chunks));
}

proof fn lemma_first_collision_below(chunks: Seq<ChunkModel>, bound: int)
    requires
        exists|i: int, j: int| collides(chunks, i, j) && chunks[j].flash_addr <= bound,
    ensures
        exists|addr: u32| is_first_collision(chunks, addr),
    decreases bound,
{
    let (i, j) = choose|i: int, j: int| collides(chunks, i, j) && chunks[j].flash_addr <= bound;
    if exists|i: int, j: int| collides(chunks, i, j) && chunks[j].flash_addr <= bound - 1 {
        lemma_first_collision_below(chunks, bound - 1);
    } else {
        let addr = chunks[j].flash_addr;
        assert forall|p: int, q: int| collides(chunks, p, q) implies addr
            <= chunks[q].flash_addr by {
            if chunks[q].flash_addr < addr {
                assert(collides(chunks, p, q) && chunks[q].flash_addr <= bound - 1);
            }
        }
        assert(is_first_collision(chunks, addr));
    }
}

/// Among chunks that collide there is a first collision, and it is the one
/// that the rejection names.
pub proof fn lemma_first_collision_exists(chunks: Seq<ChunkModel>)
    requires
        has_collision(chunks),
    ensures
        is_first_collision(chunks, first_collision(chunks)),
{
    let (i, j) = choose|i: int, j: int| collides(chunks, i, j);
    lemma_first_collision_below(chunks, chunks[j].flash_addr as int);
}

/// Two different chunks that overlap are rejected as overlapping, whatever
/// else the chunks hold.
pub proof fn lemma_overlap_rejected(chunks: Seq<ChunkModel>, i: int, j: int)
    requires
        0 <= i < chunks.len(),
        0 <= j < chunks.len(),
        i != j,
        overlap(chunks[i], chunks[j]),
    ensures
        rejection(chunks) == Some(ImageError::OverlappingChunks { addr: first_collision(chunks) }),
        is_first_collision(chunks, first_collision(chunks)),
{
    if precedes(chunks, i, j) {
        assert(collides(chunks, i, j));
    } else {
        assert(precedes(chunks, j, i));
        assert(collides(chunks, j, i));
    }
    lemma_first_collision_exists(chunks);
}

/// A chunk that precedes another stands before it in the sorted order.
pub(crate) proof fn lemma_position_order(
    chunks: Seq<ChunkModel>,
    sorted: Seq<ChunkModel>,
    perm: Seq<int>,
    inv: Seq<int>,
    i: int,
    j: int,
)
    requires
        is_reordering(chunks, sorted, perm, inv),
        in_address_order(chunks, perm),
        0 <= i < chunks.len(),
        0 <= j < chunks.len(),
        precedes(chunks, i, j),
    ensures
        inv[i] < inv[j],
{
    let p = inv[i];
    let q = inv[j];
    assert(perm[p] == i && perm[q] == j);
    if q < p {
        assert(precedes(chunks, perm[q], perm[p]));
    }
}

proof fn lemma_sorted_addresses(
    chunks: Seq<ChunkModel>,
    sorted: Seq<ChunkModel>,
    perm: Seq<int>,
    inv: Seq<int>,
)
    requires
        is_reordering(chunks, sorted, perm, inv),
        in_address_order(chunks, perm),
    ensures
        is_ascending(sorted),
{
    assert forall|p: int, q: int| 0 <= p <= q < sorted.len() implies (
    #[trigger] sorted[p]).flash_addr <= (#[trigger] sorted[q]).flash_addr by {
        if p < q {
            assert(precedes(chunks, perm[p], perm[q]));
        }
    }
}

/// Chunks sorted by address ascend, and there are as many as before.
pub proof fn lemma_sorted_is_ascending(chunks: Seq<ChunkModel>, sorted: Seq<ChunkModel>)
    requires
        is_sorted_by_address(chunks, sorted),
    ensures
        sorted.len() == chunks.len(),
        is_ascending(sorted),
{
    let (perm, inv) = choose|perm: Seq<int>, inv: Seq<int>|
        is_reordering(chunks, sorted, perm, inv) && in_address_order(chunks, perm);
    lemma_sorted_addresses(chunks, sorted, perm, inv);
}

/// Where the sorted chunks are separated up to position `k`, and the chunk
/// there starts before its predecessor has ended, its address is the first
/// collision.
proof fn lemma_collision_at(
    chunks: Seq<ChunkModel>,
    sorted: Seq<ChunkModel>,
    perm: Seq<int>,
    inv: Seq<int>,
    k: int,
)
    requires
        is_reordering(chunks, sorted, perm, inv),
        in_address_order(chunks, perm),
        1 <= k < sorted.len(),
        is_separated(sorted, k),
        sorted[k].flash_addr < sorted[k - 1].end(),
    ensures
        is_first_collision(chunks, sorted[k].flash_addr),
{
    let addr = sorted[k].flash_addr;
    lemma_sorted_addresses(chunks, sorted, perm, inv);
    assert(precedes(chunks, perm[k - 1], perm[k]));
    assert(collides(chunks, perm[k - 1], perm[k]));
    assert forall|i: int, j: int| collides(chunks, i, j) implies addr <= chunks[j].flash_addr by {
        lemma_position_order(chunks, sorted, perm, inv, i, j);
        let p = inv[i];
        let q = inv[j];
        assert(sorted[p] == chunks[perm[p]] && sorted[q] == chunks[perm[q]]);
        if q < k {
            assert(sorted[p].end() <= sorted[q].flash_addr);
        } else {
            assert(sorted[k].flash_addr <= sorted[q].flash_addr);
        }
    }
}

/// Chunks whose sorted order is separated do not collide.
pub(crate) proof fn lemma_separated_no_collision(
    chunks: Seq<ChunkModel>,
    sorted: Seq<ChunkModel>,
    perm: Seq<int>,
    inv: Seq<int>,
)
    requires
        is_reordering(chunks, sorted, perm, inv),
        in_address_order(chunks, perm),
        is_separated(sorted, sorted.len() as int),
    ensures
        !has_collision(chunks),
{
    assert forall|i: int, j: int| !collides(chunks, i, j) by {
        if collides(chunks, i, j) {
            lemma_position_order(chunks, sorted, perm, inv, i, j);
            let p = inv[i];
            let q = inv[j];
            assert(sorted[p] == chunks[perm[p]] && sorted[q] == chunks[perm[q]]);
            assert(sorted[p].end() <= sorted[q].flash_addr);
        }
    }
}

/// Chunks that do not collide are separated in their sorted order.
pub(crate) proof fn lemma_no_collision_separated(
    chunks: Seq<ChunkModel>,
    sorted: Seq<ChunkModel>,
    perm: Seq<int>,
    inv: Seq<int>,
)
    requires
        is_reordering(chunks, sorted, perm, inv),
        in_address_order(chunks, perm),
        !has_collision(chunks),
    ensures
        is_separated(sorted, sorted.len() as int),
{
    assert forall|p: int, q: int| 0 <= p < q < sorted.len() implies (#[trigger] sorted[p]).end()
        <= (#[trigger] sorted[q]).flash_addr by {
        assert(precedes(chunks, perm[p], perm[q]));
        assert(!collides(chunks, perm[p], perm[q]));
    }
}

/// Puts the chunks in order of address and checks that none starts before
/// the one before it has ended, and that there is a chunk at all.
pub fn validate_chunks<'a>(chunks: &[Chunk<'a>]) -> (r: Result<Vec<Chunk<'a>>, ImageError>)
    ensures
        match r {
            Ok(sorted) => rejection(models(chunks@)) is None && is_sorted_by_address(
                models(chunks@),
                models(sorted@),
            ),
            Err(e) => rejection(models(chunks@)) == Some(e),
        },
{
    let (sorted, Ghost(perm), Ghost(inv)) = sort_by_address(chunks);
    let ghost orig = models(chunks@);
    let ghost s = models(sorted@);
    proof {
        lemma_sorted_addresses(orig, s, perm, inv);
    }
    let mut k: usize = 1;
    while k < sorted.len()
        invariant
            1 <= k,
            orig == models(chunks@),
            s == models(sorted@),
            is_reordering(orig, s, perm, inv),
            in_address_order(orig, perm),
            is_separated(s, k as int),
            is_ascending(s),
        decreases sorted.len() - k,
    {
        let before = sorted[k - 1];
        let chunk = sorted[k];
        assert(s[k - 1] == before@ && s[k as int] == chunk@);
        if ((chunk.flash_addr - before.flash_addr) as usize) < before.data.len() {
            proof {
                lemma_collision_at(orig, s, perm, inv, k as int);
                lemma_first_collision_is(orig, chunk.flash_addr);
            }
            return Err(ImageError::OverlappingChunks { addr: chunk.flash_addr });
        }
        assert forall|p: int, q: int| 0 <= p < q < k + 1 implies (#[trigger] s[p]).end() <= (
        #[trigger] s[q]).flash_addr by {
            if q == k && p < k - 1 {
                assert(s[p].end() <= s[k - 1].flash_addr);
            }
        }
        k += 1;
    }
    proof {
        lemma_separated_no_collision(orig, s, perm, inv);
    }
    if sorted.len() == 0 {
        return Err(ImageError::NoLoadableSegments);
    }
    Ok(sorted)
}

} // verus!
