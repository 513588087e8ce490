//! Ordering chunks by address.

use vstd::prelude::*;
use crate::chunk::{Chunk, ChunkModel, models};

verus! {

/// Whether chunk `i` comes before chunk `j` once the chunks are put in
/// order of their addresses, chunks at one address keeping their order.
pub open spec fn precedes(chunks: Seq<ChunkModel>, i: int, j: int) -> bool {
    chunks[i].flash_addr < chunks[j].flash_addr || (chunks[i].flash_addr == chunks[j].flash_addr
        && i < j)
}

/// `sorted` holds the chunks of `chunks`, each once: position `p` of
/// `sorted` holds chunk `perm[p]`, and chunk `i` went to position `inv[i]`.
pub open spec fn is_reordering(
    chunks: Seq<ChunkModel>,
    sorted: Seq<ChunkModel>,
    perm: Seq<int>,
    inv: Seq<int>,
) -> bool {
    &&& sorted.len() == chunks.len()
    &&& perm.len() == chunks.len()
    &&& inv.len() == chunks.len()
    &&& forall|p: int|
        0 <= p < perm.len() ==> 0 <= #[trigger] perm[p] < chunks.len() && inv[perm[p]] == p
            && sorted[p] == chunks[perm[p]]
    &&& forall|i: int|
        0 <= i < inv.len() ==> 0 <= #[trigger] inv[i] < chunks.len() && perm[inv[i]] == i
}

/// The positions of a reordering follow the order of the addresses.
pub open spec fn in_address_order(chunks: Seq<ChunkModel>, perm: Seq<int>) -> bool {
    forall|p: int, q: int|
        0 <= p < q < perm.len() ==> precedes(chunks, #[trigger] perm[p], #[trigger] perm[q])
}

/// `sorted` is `chunks` in order of address, chunks at one address in the
/// order in which `chunks` holds them.
pub open spec fn is_sorted_by_address(chunks: Seq<ChunkModel>, sorted: Seq<ChunkModel>) -> bool {
    exists|perm: Seq<int>, inv: Seq<int>|
        is_reordering(chunks, sorted, perm, inv) && in_address_order(chunks, perm)
}

/// Sorts chunks by address, keeping chunks at one address in their order.
/// The two ghost results say where each chunk went.
pub(crate) fn sort_by_address<'a>(chunks: &[Chunk<'a>]) -> (r: (
    Vec<Chunk<'a>>,
    Ghost<Seq<int>>,
    Ghost<Seq<int>>,
))
    ensures
        is_reordering(models(chunks@), models(r.0@), r.1@, r.2@),
        in_address_order(models(chunks@), r.1@),
{
    let mut sorted: Vec<Chunk<'a>> = Vec::new();
    let ghost mut perm: Seq<int> = Seq::empty();
    let ghost mut inv: Seq<int> = Seq::empty();
    let ghost orig = models(chunks@);
    let mut k: usize = 0;
    while k < chunks.len()
        invariant
            k <= chunks.len(),
            orig == models(chunks@),
            sorted.len() == k,
            perm.len() == k,
            inv.len() == k,
            forall|p: int|
                0 <= p < k ==> 0 <= #[trigger] perm[p] < k && inv[perm[p]] == p && sorted@[p]
                    == chunks@[perm[p]],
            forall|i: int| 0 <= i < k ==> 0 <= #[trigger] inv[i] < k && perm[inv[i]] == i,
            forall|p: int, q: int|
                0 <= p < q < k ==> precedes(orig, #[trigger] perm[p], #[trigger] perm[q]),
        decreases chunks.len() - k,
    {
        let chunk = chunks[k];
        let mut pos: usize = 0;
        while pos < sorted.len() && sorted[pos].flash_addr <= chunk.flash_addr
            invariant
                pos <= sorted.len(),
                forall|p: int| 0 <= p < pos ==> sorted@[p].flash_addr <= chunk.flash_addr,
            decreases sorted.len() - pos,
        {
            pos += 1;
        }
        let ghost old_sorted = sorted@;
        let ghost old_perm = perm;
        let ghost old_inv = inv;
        sorted.insert(pos, chunk);
        proof {
            perm = old_perm.insert(pos as int, k as int);
            inv = Seq::new(
                (k + 1) as nat,
                |i: int|
                    if i == k {
                        pos as int
                    } else if old_inv[i] >= pos {
                        old_inv[i] + 1
                    } else {
                        old_inv[i]
                    },
            );
            let p_of = |p: int| if p < pos { p } else { p - 1 };
            assert forall|p: int| 0 <= p < k + 1 implies 0 <= #[trigger] perm[p] < k + 1
                && inv[perm[p]] == p && sorted@[p] == chunks@[perm[p]] by {
                if p != pos {
                    let op = p_of(p);
                    assert(perm[p] == old_perm[op]);
                    assert(sorted@[p] == old_sorted[op]);
                    assert(old_inv[old_perm[op]] == op);
                }
            }
            assert forall|i: int| 0 <= i < k + 1 implies 0 <= #[trigger] inv[i] < k + 1
                && perm[inv[i]] == i by {
                if i != k {
                    let op = old_inv[i];
                    assert(old_perm[op] == i);
                }
            }
            assert forall|p: int, q: int| 0 <= p < q < k + 1 implies precedes(
                orig,
                #[trigger] perm[p],
                #[trigger] perm[q],
            ) by {
                if p != pos && q != pos {
                    assert(precedes(orig, old_perm[p_of(p)], old_perm[p_of(q)]));
                } else if q == pos {
                    assert(perm[p] == old_perm[p]);
                    assert(old_sorted[p] == chunks@[old_perm[p]]);
                    assert(old_sorted[p].flash_addr <= chunk.flash_addr);
                } else {
                    let oq = q - 1;
                    assert(perm[q] == old_perm[oq]);
                    assert(old_sorted[oq] == chunks@[old_perm[oq]]);
                    assert(old_sorted[pos as int] == chunks@[old_perm[pos as int]]);
                    if oq > pos {
                        assert(precedes(orig, old_perm[pos as int], old_perm[oq]));
                    }
                }
            }
        }
        k += 1;
    }
    (sorted, Ghost(perm), Ghost(inv))
}

} // verus!
