//! The flat image of a set of chunks.

use vstd::prelude::*;
use crate::chunk::{Chunk, ChunkModel, models};
use crate::error::ImageError;
use crate::order::{in_address_order, is_reordering, is_sorted_by_address, precedes};
use crate::validate::{collides, has_collision, is_separated, lemma_no_collision_separated};

verus! {

/// The lowest address at which a chunk starts.
pub open spec fn lowest_addr(chunks: Seq<ChunkModel>) -> int
    decreases chunks.len(),
{
    if chunks.len() == 0 {
        0
    } else if chunks.len() == 1 {
        chunks[0].flash_addr as int
    } else {
        let rest = lowest_addr(chunks.drop_last());
        if chunks.last().flash_addr < rest {
            chunks.last().flash_addr as int
        } else {
            rest
        }
    }
}

/// The highest address at which a chunk ends.
pub open spec fn highest_end(chunks: Seq<ChunkModel>) -> int
    decreases chunks.len(),
{
    if chunks.len() == 0 {
        0
    } else if chunks.len() == 1 {
        chunks[0].end()
    } else {
        let rest = highest_end(chunks.drop_last());
        if chunks.last().end() > rest {
            chunks.last().end()
        } else {
            rest
        }
    }
}

/// Chunk `i` places a byte at `addr`.
pub open spec fn covers_at(chunks: Seq<ChunkModel>, i: int, addr: int) -> bool {
    0 <= i < chunks.len() && chunks[i].covers(addr)
}

/// Some chunk places a byte at `addr`.
pub open spec fn is_covered(chunks: Seq<ChunkModel>, addr: int) -> bool {
    exists|i: int| covers_at(chunks, i, addr)
}

/// The byte that the image holds for `addr`: the byte of the chunk that
/// covers the address, and zero where none does.
pub open spec fn byte_at(chunks: Seq<ChunkModel>, addr: int) -> u8 {
    if is_covered(chunks, addr) {
        let i = choose|i: int| covers_at(chunks, i, addr);
        chunks[i].data[addr - chunks[i].flash_addr]
    } else {
        0
    }
}

/// The image of a set of chunks: one byte for each address from the lowest
/// start to the highest end.
pub open spec fn flat_image(chunks: Seq<ChunkModel>) -> Seq<u8> {
    Seq::new(
        (highest_end(chunks) - lowest_addr(chunks)) as nat,
        |k: int| byte_at(chunks, lowest_addr(chunks) + k),
    )
}

/// No address is covered by two chunks.
pub open spec fn covered_once(chunks: Seq<ChunkModel>) -> bool {
    forall|i: int, j: int, addr: int|
        #[trigger] covers_at(chunks, i, addr) && #[trigger] covers_at(chunks, j, addr) ==> i == j
}

/// Chunk `k` starts before the chunk in front of it has ended.
pub open spec fn steps_back(chunks: Seq<ChunkModel>, k: int) -> bool {
    1 <= k < chunks.len() && chunks[k].flash_addr < chunks[k - 1].end()
}

/// The lowest start is the start of a chunk, and no chunk starts below it.
pub proof fn lemma_lowest_addr(chunks: Seq<ChunkModel>)
    requires
        chunks.len() > 0,
    ensures
        exists|i: int|
            0 <= i < chunks.len() && (#[trigger] chunks[i]).flash_addr == lowest_addr(chunks),
        forall|i: int|
            0 <= i < chunks.len() ==> lowest_addr(chunks) <= (#[trigger] chunks[i]).flash_addr,
    decreases chunks.len(),
{
    if chunks.len() == 1 {
        assert(chunks[0].flash_addr == lowest_addr(chunks));
    } else {
        let rest = chunks.drop_last();
        lemma_lowest_addr(rest);
        let w = choose|i: int|
            0 <= i < rest.len() && (#[trigger] rest[i]).flash_addr == lowest_addr(rest);
        assert(chunks[w] == rest[w]);
        let last = chunks.len() - 1;
        if chunks.last().flash_addr < lowest_addr(rest) {
            assert(chunks[last].flash_addr == lowest_addr(chunks));
        } else {
            assert(chunks[w].flash_addr == lowest_addr(chunks));
        }
        assert forall|i: int| 0 <= i < chunks.len() implies lowest_addr(chunks) <= (
        #[trigger] chunks[i]).flash_addr by {
            if i < last {
                assert(chunks[i] == rest[i]);
            }
        }
    }
}

/// The highest end is the end of a chunk, and no chunk ends above it.
pub proof fn lemma_highest_end(chunks: Seq<ChunkModel>)
    requires
        chunks.len() > 0,
    ensures
        exists|i: int|
            0 <= i < chunks.len() && (#[trigger] chunks[i]).end() == highest_end(chunks),
        forall|i: int|
            0 <= i < chunks.len() ==> (#[trigger] chunks[i]).end() <= highest_end(chunks),
    decreases chunks.len(),
{
    if chunks.len() == 1 {
        assert(chunks[0].end() == highest_end(chunks));
    } else {
        let rest = chunks.drop_last();
        lemma_highest_end(rest);
        let w = choose|i: int|
            0 <= i < rest.len() && (#[trigger] rest[i]).end() == highest_end(rest);
        assert(chunks[w] == rest[w]);
        let last = chunks.len() - 1;
        if chunks.last().end() > highest_end(rest) {
            assert(chunks[last].end() == highest_end(chunks));
        } else {
            assert(chunks[w].end() == highest_end(chunks));
        }
        assert forall|i: int| 0 <= i < chunks.len() implies (#[trigger] chunks[i]).end()
            <= highest_end(chunks) by {
            if i < last {
                assert(chunks[i] == rest[i]);
            }
        }
    }
}

/// Where no address is covered twice, the image holds at a covered address
/// the byte of the chunk that covers it.
pub proof fn lemma_byte_at_covered(chunks: Seq<ChunkModel>, i: int, addr: int)
    requires
        covered_once(chunks),
        covers_at(chunks, i, addr),
    ensures
        byte_at(chunks, addr) == chunks[i].data[addr - chunks[i].flash_addr],
{
    let j = choose|j: int| covers_at(chunks, j, addr);
    assert(covers_at(chunks, j, addr));
}

/// Chunks that do not collide cover no address twice.
pub proof fn lemma_no_collision_covered_once(chunks: Seq<ChunkModel>)
    requires
        !has_collision(chunks),
    ensures
        covered_once(chunks),
{
    assert forall|i: int, j: int, addr: int|
        #[trigger] covers_at(chunks, i, addr) && #[trigger] covers_at(chunks, j, addr) implies i
        == j by {
        if i != j {
            if precedes(chunks, i, j) {
                assert(collides(chunks, i, j));
            } else {
                assert(precedes(chunks, j, i));
                assert(collides(chunks, j, i));
            }
        }
    }
}

/// Chunks of which none steps back are separated.
proof fn lemma_forward_separated(chunks: Seq<ChunkModel>, n: int)
    requires
        forall|k: int| k < n ==> !steps_back(chunks, k),
        0 <= n <= chunks.len(),
    ensures
        is_separated(chunks, n),
    decreases n,
{
    if n > 0 {
        lemma_forward_separated(chunks, n - 1);
        assert forall|p: int, q: int| 0 <= p < q < n implies (#[trigger] chunks[p]).end() <= (
        #[trigger] chunks[q]).flash_addr by {
            if q == n - 1 {
                assert(!steps_back(chunks, q));
                if p < q - 1 {
                    assert(chunks[p].end() <= chunks[q - 1].flash_addr);
                }
            }
        }
    }
}

/// Separated chunks cover no address twice.
proof fn lemma_separated_covered_once(chunks: Seq<ChunkModel>)
    requires
        is_separated(chunks, chunks.len() as int),
    ensures
        covered_once(chunks),
{
    assert forall|i: int, j: int, addr: int|
        #[trigger] covers_at(chunks, i, addr) && #[trigger] covers_at(chunks, j, addr) implies i
        == j by {
        if i < j {
            assert(chunks[i].end() <= chunks[j].flash_addr);
        } else if j < i {
            assert(chunks[j].end() <= chunks[i].flash_addr);
        }
    }
}

/// Separated chunks reach from the start of the first to the end of the
/// last.
proof fn lemma_separated_extent(chunks: Seq<ChunkModel>)
    requires
        chunks.len() > 0,
        is_separated(chunks, chunks.len() as int),
    ensures
        lowest_addr(chunks) == chunks[0].flash_addr,
        highest_end(chunks) == chunks.last().end(),
{
    lemma_lowest_addr(chunks);
    lemma_highest_end(chunks);
    let lo = choose|i: int|
        0 <= i < chunks.len() && (#[trigger] chunks[i]).flash_addr == lowest_addr(chunks);
    let hi = choose|i: int|
        0 <= i < chunks.len() && (#[trigger] chunks[i]).end() == highest_end(chunks);
    let last = chunks.len() - 1;
    if 0 < lo {
        assert(chunks[0].end() <= chunks[lo].flash_addr);
    }
    if hi < last {
        assert(chunks[hi].end() <= chunks[last].flash_addr);
    }
    assert(chunks[0].flash_addr >= lowest_addr(chunks));
    assert(chunks[last].end() <= highest_end(chunks));
}

/// The bytes between two chunks.
pub open spec fn zeros(count: int) -> Seq<u8> {
    Seq::new(count as nat, |k: int| 0u8)
}

/// The image of separated chunks is the image of all but the last, the
/// gap in front of the last filled with zeros, and the bytes of the last.
proof fn lemma_flat_image_push(chunks: Seq<ChunkModel>)
    requires
        chunks.len() > 0,
        is_separated(chunks, chunks.len() as int),
    ensures
        chunks.len() == 1 ==> flat_image(chunks) == chunks[0].data,
        chunks.len() > 1 ==> flat_image(chunks) == flat_image(chunks.drop_last()) + zeros(
            chunks.last().flash_addr - chunks[chunks.len() - 2].end(),
        ) + chunks.last().data,
{
    let last = chunks.len() - 1;
    let base = chunks[0].flash_addr as int;
    lemma_separated_extent(chunks);
    lemma_separated_covered_once(chunks);
    if chunks.len() == 1 {
        assert forall|k: int| 0 <= k < chunks[0].data.len() implies byte_at(chunks, base + k)
            == chunks[0].data[k] by {
            assert(covers_at(chunks, 0, base + k));
            lemma_byte_at_covered(chunks, 0, base + k);
        }
        assert(flat_image(chunks) =~= chunks[0].data);
    } else {
        let rest = chunks.drop_last();
        assert forall|p: int, q: int| 0 <= p < q < rest.len() implies (#[trigger] rest[p]).end()
            <= (#[trigger] rest[q]).flash_addr by {
            assert(rest[p] == chunks[p] && rest[q] == chunks[q]);
            assert(chunks[p].end() <= chunks[q].flash_addr);
        }
        lemma_separated_extent(rest);
        lemma_separated_covered_once(rest);
        assert(rest[0] == chunks[0]);
        assert(rest.last() == chunks[last - 1]);
        let before_end = chunks[last - 1].end();
        let gap = chunks[last].flash_addr - before_end;
        assert(chunks[last - 1].end() <= chunks[last].flash_addr);
        if 0 < last - 1 {
            assert(chunks[0].end() <= chunks[last - 1].flash_addr);
        }
        let joined = flat_image(rest) + zeros(gap) + chunks[last].data;
        assert(joined.len() == flat_image(chunks).len());
        assert forall|k: int| 0 <= k < joined.len() implies flat_image(chunks)[k]
            == joined[k] by {
            let addr = base + k;
            if addr < before_end {
                assert(joined[k] == byte_at(rest, addr));
                if exists|i: int| covers_at(chunks, i, addr) {
                    let i = choose|i: int| covers_at(chunks, i, addr);
                    if i == last {
                        assert(false);
                    }
                    assert(rest[i] == chunks[i]);
                    assert(covers_at(rest, i, addr));
                    lemma_byte_at_covered(chunks, i, addr);
                    lemma_byte_at_covered(rest, i, addr);
                } else {
                    if exists|i: int| covers_at(rest, i, addr) {
                        let i = choose|i: int| covers_at(rest, i, addr);
                        assert(rest[i] == chunks[i]);
                        assert(covers_at(chunks, i, addr));
                    }
                }
            } else if addr < chunks[last].flash_addr {
                assert(joined[k] == 0);
                if exists|i: int| covers_at(chunks, i, addr) {
                    let i = choose|i: int| covers_at(chunks, i, addr);
                    if i < last - 1 {
                        assert(chunks[i].end() <= chunks[last - 1].flash_addr);
                    }
                    assert(false);
                }
            } else {
                assert(joined[k] == chunks[last].data[addr - chunks[last].flash_addr]);
                assert(covers_at(chunks, last, addr));
                lemma_byte_at_covered(chunks, last, addr);
            }
        }
        assert(flat_image(chunks) =~= joined);
    }
}

/// The lowest start and the highest end do not depend on the order in
/// which the chunks are given.
pub proof fn lemma_extent_reordered(
    chunks: Seq<ChunkModel>,
    sorted: Seq<ChunkModel>,
    perm: Seq<int>,
    inv: Seq<int>,
)
    requires
        is_reordering(chunks, sorted, perm, inv),
    ensures
        lowest_addr(sorted) == lowest_addr(chunks),
        highest_end(sorted) == highest_end(chunks),
{
    if chunks.len() > 0 {
        lemma_lowest_addr(chunks);
        lemma_lowest_addr(sorted);
        lemma_highest_end(chunks);
        lemma_highest_end(sorted);
        let lo = choose|i: int|
            0 <= i < chunks.len() && (#[trigger] chunks[i]).flash_addr == lowest_addr(chunks);
        let slo = choose|i: int|
            0 <= i < sorted.len() && (#[trigger] sorted[i]).flash_addr == lowest_addr(sorted);
        let hi = choose|i: int|
            0 <= i < chunks.len() && (#[trigger] chunks[i]).end() == highest_end(chunks);
        let shi = choose|i: int|
            0 <= i < sorted.len() && (#[trigger] sorted[i]).end() == highest_end(sorted);
        assert(sorted[inv[lo]] == chunks[perm[inv[lo]]]);
        assert(sorted[inv[hi]] == chunks[perm[inv[hi]]]);
        assert(sorted[slo] == chunks[perm[slo]]);
        assert(sorted[shi] == chunks[perm[shi]]);
    }
}

/// The image does not depend on the order in which the chunks are given.
pub proof fn lemma_flat_image_reordered(
    chunks: Seq<ChunkModel>,
    sorted: Seq<ChunkModel>,
    perm: Seq<int>,
    inv: Seq<int>,
)
    requires
        is_reordering(chunks, sorted, perm, inv),
        covered_once(chunks),
    ensures
        flat_image(sorted) == flat_image(chunks),
{
    lemma_extent_reordered(chunks, sorted, perm, inv);
    assert forall|i: int, j: int, addr: int|
        #[trigger] covers_at(sorted, i, addr) && #[trigger] covers_at(sorted, j, addr) implies i
        == j by {
        assert(sorted[i] == chunks[perm[i]] && sorted[j] == chunks[perm[j]]);
        assert(covers_at(chunks, perm[i], addr) && covers_at(chunks, perm[j], addr));
        assert(inv[perm[i]] == i && inv[perm[j]] == j);
    }
    assert forall|addr: int| byte_at(sorted, addr) == byte_at(chunks, addr) by {
        if exists|i: int| covers_at(chunks, i, addr) {
            let i = choose|i: int| covers_at(chunks, i, addr);
            assert(sorted[inv[i]] == chunks[perm[inv[i]]]);
            assert(covers_at(sorted, inv[i], addr));
            lemma_byte_at_covered(chunks, i, addr);
            lemma_byte_at_covered(sorted, inv[i], addr);
        } else {
            if exists|p: int| covers_at(sorted, p, addr) {
                let p = choose|p: int| covers_at(sorted, p, addr);
                assert(sorted[p] == chunks[perm[p]]);
                assert(covers_at(chunks, perm[p], addr));
            }
        }
    }
    assert(flat_image(sorted) =~= flat_image(chunks));
}

/// The image of chunks that do not collide has no gap and nothing of its
/// own. It reaches from the start of the first chunk in order of address to
/// the end of the last; each of its bytes is the byte that a chunk places at
/// that address, or zero where no chunk places one.
pub proof fn lemma_image_has_no_gap(chunks: Seq<ChunkModel>, sorted: Seq<ChunkModel>)
    requires
        chunks.len() > 0,
        !has_collision(chunks),
        is_sorted_by_address(chunks, sorted),
    ensures
        flat_image(chunks).len() == sorted.last().end() - sorted[0].flash_addr,
        forall|addr: int, i: int|
            sorted[0].flash_addr <= addr < sorted.last().end() && #[trigger] covers_at(
                chunks,
                i,
                addr,
            ) ==> flat_image(chunks)[addr - sorted[0].flash_addr] == chunks[i].data[addr
                - chunks[i].flash_addr],
        forall|addr: int|
            sorted[0].flash_addr <= addr < sorted.last().end() && !#[trigger] is_covered(
                chunks,
                addr,
            ) ==> flat_image(chunks)[addr - sorted[0].flash_addr] == 0,
{
    let (perm, inv) = choose|perm: Seq<int>, inv: Seq<int>|
        is_reordering(chunks, sorted, perm, inv) && in_address_order(chunks, perm);
    lemma_no_collision_separated(chunks, sorted, perm, inv);
    lemma_separated_extent(sorted);
    lemma_extent_reordered(chunks, sorted, perm, inv);
    lemma_no_collision_covered_once(chunks);
    assert(sorted[0].flash_addr <= sorted[0].end());
    if sorted.len() > 1 {
        assert(sorted[0].end() <= sorted.last().flash_addr);
    }
    assert forall|addr: int, i: int|
        sorted[0].flash_addr <= addr < sorted.last().end() && #[trigger] covers_at(
            chunks,
            i,
            addr,
        ) implies flat_image(chunks)[addr - sorted[0].flash_addr] == chunks[i].data[addr
            - chunks[i].flash_addr] by {
        lemma_byte_at_covered(chunks, i, addr);
    }
}

/// Appends `count` zero bytes.
fn pad_zeros(image: &mut Vec<u8>, count: usize)
    ensures
        final(image)@ == old(image)@ + zeros(count as int),
{
    let mut n: usize = 0;
    while n < count
        invariant
            n <= count,
            image@ == old(image)@ + zeros(n as int),
        decreases count - n,
    {
        image.push(0);
        n += 1;
        assert(image@ =~= old(image)@ + zeros(n as int));
    }
}

/// Appends the bytes of a chunk.
fn append_bytes(image: &mut Vec<u8>, data: &[u8])
    ensures
        final(image)@ == old(image)@ + data@,
{
    image.extend_from_slice(data);
    assert(image@ =~= old(image)@ + data@);
}

/// Lays the chunks out in the order given: the first chunk starts the
/// image, and each further chunk is appended after as many zero bytes as lie
/// between it and the chunk in front of it. A chunk that starts before the
/// image has reached its address is refused as overlapping. Without a chunk
/// there is nothing to lay out, which is `NoLoadableSegments`.
pub fn emit_image(chunks: &[Chunk<'_>]) -> (r: Result<Vec<u8>, ImageError>)
    ensures
        match r {
            Ok(image) => {
                &&& chunks.len() > 0
                &&& forall|k: int| !steps_back(models(chunks@), k)
                &&& image@ == flat_image(models(chunks@))
            },
            Err(ImageError::NoLoadableSegments) => chunks.len() == 0,
            Err(ImageError::OverlappingChunks { addr }) => exists|k: int|
                {
                    &&& steps_back(models(chunks@), k)
                    &&& models(chunks@)[k].flash_addr == addr
                    &&& forall|j: int| j < k ==> !steps_back(models(chunks@), j)
                },
            Err(_) => false,
        },
{
    if chunks.len() == 0 {
        return Err(ImageError::NoLoadableSegments);
    }
    let ghost m = models(chunks@);
    let base = chunks[0].flash_addr;
    let mut image: Vec<u8> = Vec::new();
    let mut k: usize = 0;
    while k < chunks.len()
        invariant
            k <= chunks.len(),
            chunks.len() > 0,
            m == models(chunks@),
            base == m[0].flash_addr,
            forall|j: int| j < k ==> !steps_back(m, j),
            image@ == flat_image(m.take(k as int)),
            k > 0 ==> base + image@.len() == m[k - 1].end(),
        decreases chunks.len() - k,
    {
        let chunk = chunks[k];
        assert(m[k as int] == chunk@);
        proof {
            if k == 0 {
                assert(flat_image(m.take(0)) =~= Seq::<u8>::empty());
            } else {
                lemma_forward_separated(m, k as int);
                if k > 1 {
                    assert(m[0].end() <= m[k - 1].flash_addr);
                }
            }
        }
        if chunk.flash_addr < base || ((chunk.flash_addr - base) as usize) < image.len() {
            assert(steps_back(m, k as int));
            return Err(ImageError::OverlappingChunks { addr: chunk.flash_addr });
        }
        let gap: usize = (chunk.flash_addr - base) as usize - image.len();
        proof {
            let part = m.take(k as int + 1);
            assert(part.drop_last() =~= m.take(k as int));
            assert(!steps_back(m, k as int));
            assert forall|j: int| j < part.len() implies !steps_back(part, j) by {
                if 1 <= j {
                    assert(part[j] == m[j] && part[j - 1] == m[j - 1]);
                    assert(!steps_back(m, j));
                }
            }
            lemma_forward_separated(part, part.len() as int);
            lemma_flat_image_push(part);
            assert(part.last() == m[k as int]);
            if k > 0 {
                assert(part[k - 1] == m[k - 1]);
            }
        }
        pad_zeros(&mut image, gap);
        append_bytes(&mut image, chunk.data);
        proof {
            if k == 0 {
                assert(image@ =~= chunk.data@);
            }
        }
        k += 1;
    }
    proof {
        assert(m.take(k as int) =~= m);
    }
    Ok(image)
}

} // verus!
