//! Choosing the segments that go into the image, and trimming them.

use vstd::prelude::*;
use crate::chunk::{Chunk, ChunkModel, models};
use crate::error::ImageError;
use crate::reader::{file_bytes, read_bytes};
use crate::record::{RawSection, RawSegment, FLASH_FLOOR, PT_LOAD, SHT_NULL};

verus! {

/// A section lies in a segment when it is not the null section, occupies
/// file space, and its file range is inside that of the segment.
pub open spec fn is_contained(segment: RawSegment, section: RawSection) -> bool {
    &&& section.sh_type != SHT_NULL
    &&& section.file_range matches Some(range)
    &&& range.0 >= segment.offset
    &&& range.0 + range.1 <= segment.offset + segment.size
}

/// How far into the segment's data a contained section starts.
pub open spec fn offset_in_segment(segment: RawSegment, section: RawSection) -> u64 {
    (section.file_range.unwrap().0 - segment.offset) as u64
}

/// The least offset at which a contained section starts, if there is a
/// contained section.
pub open spec fn trim_offset(segment: RawSegment, sections: Seq<RawSection>) -> Option<u64>
    decreases sections.len(),
{
    if sections.len() == 0 {
        None
    } else {
        let rest = trim_offset(segment, sections.drop_last());
        if is_contained(segment, sections.last()) {
            let here = offset_in_segment(segment, sections.last());
            if rest is Some && rest.unwrap() <= here {
                rest
            } else {
                Some(here)
            }
        } else {
            rest
        }
    }
}

/// What becomes of one segment: it fails the whole image, it is left out, or
/// it gives a chunk.
pub open spec fn segment_outcome(
    elf: Seq<u8>,
    segment: RawSegment,
    sections: Seq<RawSection>,
) -> Result<Option<ChunkModel>, ImageError> {
    match file_bytes(elf, segment.offset, segment.size) {
        None => Err(ImageError::MalformedInput),
        Some(data) => {
            if data.len() == 0 || segment.p_type != PT_LOAD {
                Ok(None)
            } else {
                match trim_offset(segment, sections) {
                    None => Ok(None),
                    Some(skip) => {
                        let addr = segment.p_paddr + skip;
                        if addr > u32::MAX {
                            Err(ImageError::MalformedInput)
                        } else if addr < FLASH_FLOOR {
                            Err(ImageError::AddressTooLow { addr: addr as u32 })
                        } else {
                            Ok(
                                Some(
                                    ChunkModel {
                                        flash_addr: addr as u32,
                                        data: data.skip(skip as int),
                                    },
                                ),
                            )
                        }
                    },
                }
            }
        },
    }
}

/// The chunks of the segments in file order, or the failure of the first
/// segment that fails.
pub open spec fn selected_chunks(
    elf: Seq<u8>,
    segments: Seq<RawSegment>,
    sections: Seq<RawSection>,
) -> Result<Seq<ChunkModel>, ImageError>
    decreases segments.len(),
{
    if segments.len() == 0 {
        Ok(Seq::empty())
    } else {
        match selected_chunks(elf, segments.drop_last(), sections) {
            Err(e) => Err(e),
            Ok(chunks) => match segment_outcome(elf, segments.last(), sections) {
                Err(e) => Err(e),
                Ok(None) => Ok(chunks),
                Ok(Some(chunk)) => Ok(chunks.push(chunk)),
            },
        }
    }
}

/// The outcome for one segment, the chunk taken as its model.
pub open spec fn outcome_model<'a>(r: Result<Option<Chunk<'a>>, ImageError>) -> Result<
    Option<ChunkModel>,
    ImageError,
> {
    match r {
        Ok(Some(chunk)) => Ok(Some(chunk@)),
        Ok(None) => Ok(None),
        Err(e) => Err(e),
    }
}

/// The outcome of a selection, the chunks taken as their models.
pub open spec fn selection_model<'a>(r: Result<Vec<Chunk<'a>>, ImageError>) -> Result<
    Seq<ChunkModel>,
    ImageError,
> {
    match r {
        Ok(chunks) => Ok(models(chunks@)),
        Err(e) => Err(e),
    }
}

/// The trim offset is the offset of a contained section, and no contained
/// section starts before it; there is none exactly where no section is
/// contained.
pub proof fn lemma_trim_offset_is_least(segment: RawSegment, sections: Seq<RawSection>)
    ensures
        trim_offset(segment, sections) is None <==> forall|i: int|
            0 <= i < sections.len() ==> !is_contained(segment, #[trigger] sections[i]),
        trim_offset(segment, sections) matches Some(skip) ==> {
            &&& exists|i: int|
                0 <= i < sections.len() && is_contained(segment, #[trigger] sections[i])
                    && offset_in_segment(segment, sections[i]) == skip
            &&& forall|i: int|
                0 <= i < sections.len() && is_contained(segment, #[trigger] sections[i]) ==> skip
                    <= offset_in_segment(segment, sections[i])
            &&& skip <= segment.size
        },
    decreases sections.len(),
{
    if sections.len() > 0 {
        let rest = sections.drop_last();
        let last = sections.len() - 1;
        lemma_trim_offset_is_least(segment, rest);
        assert forall|i: int| 0 <= i < rest.len() implies rest[i] == sections[i] by {}
        if trim_offset(segment, sections) is None {
            assert forall|i: int| 0 <= i < sections.len() implies !is_contained(
                segment,
                #[trigger] sections[i],
            ) by {
                if i < last {
                    assert(rest[i] == sections[i]);
                }
            }
        } else {
            let skip = trim_offset(segment, sections).unwrap();
            if trim_offset(segment, rest) == Some(skip) {
                let w = choose|i: int|
                    0 <= i < rest.len() && is_contained(segment, #[trigger] rest[i])
                        && offset_in_segment(segment, rest[i]) == skip;
                assert(sections[w] == rest[w]);
            } else {
                assert(is_contained(segment, sections[last]));
            }
            assert forall|i: int|
                0 <= i < sections.len() && is_contained(segment, #[trigger] sections[i]) implies
                skip <= offset_in_segment(segment, sections[i]) by {
                if i < last {
                    assert(rest[i] == sections[i]);
                }
            }
        }
    }
}

/// Finds the least offset into the segment's data at which a section
/// starts that lies in the segment.
pub fn find_trim_offset(segment: &RawSegment, sections: &[RawSection]) -> (r: Option<u64>)
    ensures
        r == trim_offset(*segment, sections@),
{
    let mut best: Option<u64> = None;
    let mut i: usize = 0;
    while i < sections.len()
        invariant
            i <= sections.len(),
            best == trim_offset(*segment, sections@.take(i as int)),
        decreases sections.len() - i,
    {
        let section = sections[i];
        proof {
            assert(sections@.take(i as int + 1).drop_last() =~= sections@.take(i as int));
            assert(sections@.take(i as int + 1).last() == section);
        }
        if section.sh_type != SHT_NULL {
            if let Some((offset, size)) = section.file_range {
                if offset >= segment.offset && size <= segment.size && offset - segment.offset
                    <= segment.size - size {
                    let here = offset - segment.offset;
                    let keep = match best {
                        Some(least) => least <= here,
                        None => false,
                    };
                    if !keep {
                        best = Some(here);
                    }
                }
            }
        }
        i += 1;
    }
    proof {
        assert(sections@.take(i as int) =~= sections@);
    }
    best
}

/// Decides what becomes of one segment: reads its data, and where it is
/// loadable, not empty and holds a section, trims the data to where the
/// first section starts and checks the address that results.
pub fn select_chunk<'a>(elf: &'a [u8], segment: &RawSegment, sections: &[RawSection]) -> (r: Result<
    Option<Chunk<'a>>,
    ImageError,
>)
    ensures
        outcome_model(r) == segment_outcome(elf@, *segment, sections@),
{
    let data = match read_bytes(elf, segment.offset, segment.size) {
        Some(data) => data,
        None => {
            return Err(ImageError::MalformedInput);
        },
    };
    if data.len() == 0 || segment.p_type != PT_LOAD {
        return Ok(None);
    }
    let skip = match find_trim_offset(segment, sections) {
        Some(skip) => skip,
        None => {
            return Ok(None);
        },
    };
    proof {
        lemma_trim_offset_is_least(*segment, sections@);
    }
    if skip > (u32::MAX - segment.p_paddr) as u64 {
        return Err(ImageError::MalformedInput);
    }
    let flash_addr: u32 = segment.p_paddr + skip as u32;
    if flash_addr < FLASH_FLOOR {
        return Err(ImageError::AddressTooLow { addr: flash_addr });
    }
    let trimmed = &data[skip as usize..data.len()];
    Ok(Some(Chunk { flash_addr, data: trimmed }))
}

/// Goes through the segments in file order and collects their chunks. The
/// first segment that fails ends the selection with its error.
pub fn select_chunks<'a>(elf: &'a [u8], segments: &[RawSegment], sections: &[RawSection]) -> (r:
    Result<Vec<Chunk<'a>>, ImageError>)
    ensures
        selection_model(r) == selected_chunks(elf@, segments@, sections@),
{
    let mut chunks: Vec<Chunk<'a>> = Vec::new();
    let mut i: usize = 0;
    proof {
        assert(models(chunks@) =~= Seq::<ChunkModel>::empty());
    }
    while i < segments.len()
        invariant
            i <= segments.len(),
            selected_chunks(elf@, segments@.take(i as int), sections@) matches Ok(found) && found
                == models(chunks@),
        decreases segments.len() - i,
    {
        let ghost before = models(chunks@);
        proof {
            assert(segments@.take(i as int + 1).drop_last() =~= segments@.take(i as int));
            assert(segments@.take(i as int + 1).last() == segments@[i as int]);
        }
        match select_chunk(elf, &segments[i], sections) {
            Err(e) => {
                proof {
                    lemma_failure_is_final(elf@, segments@, sections@, i as int + 1);
                }
                return Err(e);
            },
            Ok(None) => {},
            Ok(Some(chunk)) => {
                chunks.push(chunk);
                proof {
                    assert(models(chunks@) =~= before.push(chunk@));
                }
            },
        }
        i += 1;
    }
    proof {
        assert(segments@.take(i as int) =~= segments@);
    }
    Ok(chunks)
}

/// Once the selection has failed on the first `n` segments, it fails in the
/// same way on all of them.
pub proof fn lemma_failure_is_final(
    elf: Seq<u8>,
    segments: Seq<RawSegment>,
    sections: Seq<RawSection>,
    n: int,
)
    requires
        0 <= n <= segments.len(),
        selected_chunks(elf, segments.take(n), sections) is Err,
    ensures
        selected_chunks(elf, segments, sections) == selected_chunks(
            elf,
            segments.take(n),
            sections,
        ),
    decreases segments.len() - n,
{
    if n == segments.len() {
        assert(segments.take(n) =~= segments);
    } else {
        assert(segments.take(n + 1).drop_last() =~= segments.take(n));
        lemma_failure_is_final(elf, segments, sections, n + 1);
    }
}

/// While no segment fails, the selection does not fail.
proof fn lemma_selection_goes_on(
    elf: Seq<u8>,
    segments: Seq<RawSegment>,
    sections: Seq<RawSection>,
    n: int,
)
    requires
        0 <= n <= segments.len(),
        forall|j: int| 0 <= j < n ==> segment_outcome(elf, #[trigger] segments[j], sections) is Ok,
    ensures
        selected_chunks(elf, segments.take(n), sections) is Ok,
    decreases n,
{
    if n > 0 {
        assert(segments.take(n).drop_last() =~= segments.take(n - 1));
        assert(segments.take(n).last() == segments[n - 1]);
        lemma_selection_goes_on(elf, segments, sections, n - 1);
    }
}

/// The selection fails with the error of the first segment that fails.
pub proof fn lemma_first_failure(
    elf: Seq<u8>,
    segments: Seq<RawSegment>,
    sections: Seq<RawSection>,
    i: int,
)
    requires
        0 <= i < segments.len(),
        segment_outcome(elf, segments[i], sections) is Err,
        forall|j: int| 0 <= j < i ==> segment_outcome(elf, #[trigger] segments[j], sections) is Ok,
    ensures
        selected_chunks(elf, segments, sections) matches Err(e) && segment_outcome(
            elf,
            segments[i],
            sections,
        ) matches Err(first) && e == first,
{
    lemma_selection_goes_on(elf, segments, sections, i);
    assert(segments.take(i + 1).drop_last() =~= segments.take(i));
    assert(segments.take(i + 1).last() == segments[i]);
    lemma_failure_is_final(elf, segments, sections, i + 1);
}

} // verus!
