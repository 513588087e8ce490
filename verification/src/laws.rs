//! What holds of every image, proved from the definitions.

use vstd::prelude::*;
use crate::chunk::ChunkModel;
use crate::elf::{image_of_file, image_of_tables, result_model};
use crate::error::ImageError;
use crate::image::{
    covers_at, lemma_byte_at_covered, lemma_highest_end, lemma_lowest_addr,
    lemma_no_collision_covered_once, lowest_addr,
};
use crate::reader::file_bytes;
use crate::record::{RawSection, RawSegment, FLASH_FLOOR, PT_LOAD};
use crate::select::{
    lemma_failure_is_final, lemma_first_failure, lemma_trim_offset_is_least, segment_outcome,
    selected_chunks, trim_offset,
};
use crate::validate::{has_collision, is_first_collision, lemma_overlap_rejected, overlap};

verus! {

/// The result is determined by the bytes of the file: two results that meet
/// the contract of `read_elf_image` for the same bytes hold the same image,
/// byte for byte, or the same error.
pub proof fn lemma_result_is_determined(
    elf: Seq<u8>,
    first: Result<Vec<u8>, ImageError>,
    second: Result<Vec<u8>, ImageError>,
)
    requires
        result_model(first) == image_of_file(elf),
        result_model(second) == image_of_file(elf),
    ensures
        first is Ok <==> second is Ok,
        first is Ok ==> first.unwrap()@ == second.unwrap()@,
        first is Err ==> first == second,
{
}

/// A segment is accepted with a trim offset when its data can be read and
/// is not empty, it is loadable, and a section lies in it.
pub open spec fn is_accepted(
    elf: Seq<u8>,
    segment: RawSegment,
    sections: Seq<RawSection>,
    skip: u64,
) -> bool {
    &&& file_bytes(elf, segment.offset, segment.size) matches Some(data)
    &&& data.len() > 0
    &&& segment.p_type == PT_LOAD
    &&& trim_offset(segment, sections) == Some(skip)
}

/// A segment whose data cannot be read, or whose trimmed address does not
/// fit in 32 bits.
pub open spec fn is_malformed(
    elf: Seq<u8>,
    segment: RawSegment,
    sections: Seq<RawSection>,
) -> bool {
    segment_outcome(elf, segment, sections) matches Err(ImageError::MalformedInput)
}

proof fn lemma_no_malformed_prefix(
    elf: Seq<u8>,
    segments: Seq<RawSegment>,
    sections: Seq<RawSection>,
    n: int,
)
    requires
        0 <= n <= segments.len(),
        forall|j: int| 0 <= j < n ==> !is_malformed(elf, #[trigger] segments[j], sections),
    ensures
        selected_chunks(elf, segments.take(n), sections) is Ok || (selected_chunks(
            elf,
            segments.take(n),
            sections,
        ) matches Err(e) && e is AddressTooLow),
    decreases n,
{
    if n > 0 {
        assert(segments.take(n).drop_last() =~= segments.take(n - 1));
        assert(segments.take(n).last() == segments[n - 1]);
        lemma_no_malformed_prefix(elf, segments, sections, n - 1);
    }
}

/// A segment that is accepted at an address below the floor fails the image
/// with `AddressTooLow`, whatever the other segments hold, unless a segment
/// in front of it is malformed. Where no segment in front of it fails at all,
/// the address named is its own.
pub proof fn lemma_floor_enforced(
    elf: Seq<u8>,
    segments: Seq<RawSegment>,
    sections: Seq<RawSection>,
    i: int,
    skip: u64,
)
    requires
        0 <= i < segments.len(),
        is_accepted(elf, segments[i], sections, skip),
        segments[i].p_paddr + skip < FLASH_FLOOR,
        forall|j: int| 0 <= j < i ==> !is_malformed(elf, #[trigger] segments[j], sections),
    ensures
        image_of_tables(elf, segments, sections) matches Err(e) && e is AddressTooLow,
        (forall|j: int| 0 <= j < i ==> segment_outcome(elf, #[trigger] segments[j], sections) is Ok)
            ==> (image_of_tables(elf, segments, sections) matches Err(
            ImageError::AddressTooLow { addr },
        ) && addr == segments[i].p_paddr + skip),
{
    lemma_no_malformed_prefix(elf, segments, sections, i);
    assert(segments.take(i + 1).drop_last() =~= segments.take(i));
    assert(segments.take(i + 1).last() == segments[i]);
    lemma_failure_is_final(elf, segments, sections, i + 1);
    if forall|j: int| 0 <= j < i ==> segment_outcome(elf, #[trigger] segments[j], sections) is Ok {
        lemma_first_failure(elf, segments, sections, i);
    }
}

proof fn lemma_nothing_selected(
    elf: Seq<u8>,
    segments: Seq<RawSegment>,
    sections: Seq<RawSection>,
    n: int,
)
    requires
        0 <= n <= segments.len(),
        forall|i: int|
            0 <= i < n ==> segment_outcome(elf, #[trigger] segments[i], sections) matches Ok(None),
    ensures
        selected_chunks(elf, segments.take(n), sections) matches Ok(chunks) && chunks.len() == 0,
    decreases n,
{
    if n > 0 {
        assert(segments.take(n).drop_last() =~= segments.take(n - 1));
        assert(segments.take(n).last() == segments[n - 1]);
        lemma_nothing_selected(elf, segments, sections, n - 1);
    }
}

/// Where the data of every segment can be read, and every segment is empty,
/// not loadable or without a section in it, the image fails with
/// `NoLoadableSegments`.
pub proof fn lemma_nothing_loadable(
    elf: Seq<u8>,
    segments: Seq<RawSegment>,
    sections: Seq<RawSection>,
)
    requires
        forall|i: int|
            0 <= i < segments.len() ==> {
                let segment = #[trigger] segments[i];
                &&& file_bytes(elf, segment.offset, segment.size) is Some
                &&& (segment.size == 0 || segment.p_type != PT_LOAD || trim_offset(
                    segment,
                    sections,
                ) is None)
            },
    ensures
        image_of_tables(elf, segments, sections) matches Err(ImageError::NoLoadableSegments),
{
    lemma_nothing_selected(elf, segments, sections, segments.len() as int);
    assert(segments.take(segments.len() as int) =~= segments);
}

/// The chunks of the first `n` segments are the first of the chunks of all
/// segments.
proof fn lemma_selected_prefix(
    elf: Seq<u8>,
    segments: Seq<RawSegment>,
    sections: Seq<RawSection>,
    n: int,
)
    requires
        0 <= n <= segments.len(),
        selected_chunks(elf, segments, sections) is Ok,
    ensures
        selected_chunks(elf, segments.take(n), sections) matches Ok(part) && {
            let all = selected_chunks(elf, segments, sections).unwrap();
            &&& part.len() <= all.len()
            &&& forall|k: int| 0 <= k < part.len() ==> part[k] == all[k]
        },
    decreases segments.len() - n,
{
    if n == segments.len() {
        assert(segments.take(n) =~= segments);
    } else {
        lemma_selected_prefix(elf, segments, sections, n + 1);
        assert(segments.take(n + 1).drop_last() =~= segments.take(n));
    }
}

/// How many chunks the segments in front of segment `i` give.
pub open spec fn chunks_before(
    elf: Seq<u8>,
    segments: Seq<RawSegment>,
    sections: Seq<RawSection>,
    i: int,
) -> int {
    selected_chunks(elf, segments.take(i), sections).unwrap().len() as int
}

/// The chunk of a segment stands among the selected chunks behind the
/// chunks of the segments in front of it.
pub proof fn lemma_chunk_position(
    elf: Seq<u8>,
    segments: Seq<RawSegment>,
    sections: Seq<RawSection>,
    i: int,
)
    requires
        0 <= i < segments.len(),
        selected_chunks(elf, segments, sections) is Ok,
        segment_outcome(elf, segments[i], sections) matches Ok(Some(_)),
    ensures
        0 <= chunks_before(elf, segments, sections, i) < selected_chunks(
            elf,
            segments,
            sections,
        ).unwrap().len(),
        segment_outcome(elf, segments[i], sections) matches Ok(Some(chunk)) && chunk
            == selected_chunks(elf, segments, sections).unwrap()[chunks_before(
            elf,
            segments,
            sections,
            i,
        )],
        chunks_before(elf, segments, sections, i + 1) == chunks_before(elf, segments, sections, i)
            + 1,
{
    lemma_selected_prefix(elf, segments, sections, i);
    lemma_selected_prefix(elf, segments, sections, i + 1);
    assert(segments.take(i + 1).drop_last() =~= segments.take(i));
    assert(segments.take(i + 1).last() == segments[i]);
    let part = selected_chunks(elf, segments.take(i + 1), sections).unwrap();
    assert(part[chunks_before(elf, segments, sections, i)] == part.last());
}

/// More segments give no fewer chunks.
proof fn lemma_chunks_before_grows(
    elf: Seq<u8>,
    segments: Seq<RawSegment>,
    sections: Seq<RawSection>,
    i: int,
    j: int,
)
    requires
        0 <= i <= j <= segments.len(),
        selected_chunks(elf, segments, sections) is Ok,
    ensures
        chunks_before(elf, segments, sections, i) <= chunks_before(elf, segments, sections, j),
{
    lemma_selected_prefix(elf, segments, sections, j);
    assert(segments.take(j).take(i) =~= segments.take(i));
    lemma_selected_prefix(elf, segments.take(j), sections, i);
}

/// An accepted segment appears in the image trimmed: the image holds the
/// segment's data from the trim offset on, and holds it where the segment's
/// physical address plus the trim offset lies.
pub proof fn lemma_trimmed_segment_in_image(
    elf: Seq<u8>,
    segments: Seq<RawSegment>,
    sections: Seq<RawSection>,
    i: int,
    skip: u64,
)
    requires
        0 <= i < segments.len(),
        image_of_tables(elf, segments, sections) is Ok,
        is_accepted(elf, segments[i], sections, skip),
    ensures
        ({
            let image = image_of_tables(elf, segments, sections).unwrap();
            let chunks = selected_chunks(elf, segments, sections).unwrap();
            let data = file_bytes(elf, segments[i].offset, segments[i].size).unwrap();
            let start = segments[i].p_paddr + skip - lowest_addr(chunks);
            &&& skip <= data.len()
            &&& 0 <= start
            &&& start + data.len() - skip <= image.len()
            &&& image.subrange(start, start + data.len() - skip) == data.skip(skip as int)
        }),
{
    let image = image_of_tables(elf, segments, sections).unwrap();
    let chunks = selected_chunks(elf, segments, sections).unwrap();
    let data = file_bytes(elf, segments[i].offset, segments[i].size).unwrap();
    assert(segments.take(i + 1).drop_last() =~= segments.take(i));
    assert(segments.take(i + 1).last() == segments[i]);
    if segment_outcome(elf, segments[i], sections) is Err {
        if selected_chunks(elf, segments.take(i), sections) is Err {
            lemma_failure_is_final(elf, segments, sections, i);
        } else {
            lemma_failure_is_final(elf, segments, sections, i + 1);
        }
    }
    lemma_chunk_position(elf, segments, sections, i);
    let k = chunks_before(elf, segments, sections, i);
    let chunk = chunks[k];
    let start = chunk.flash_addr - lowest_addr(chunks);
    lemma_trim_offset_is_least(segments[i], sections);
    lemma_lowest_addr(chunks);
    lemma_highest_end(chunks);
    lemma_no_collision_covered_once(chunks);
    assert forall|t: int| 0 <= t < chunk.data.len() implies image[start + t] == chunk.data[t] by {
        assert(covers_at(chunks, k, chunk.flash_addr + t));
        lemma_byte_at_covered(chunks, k, chunk.flash_addr + t);
    }
    assert(image.subrange(start, start + data.len() - skip) =~= data.skip(skip as int));
}

/// Where every segment is selected or left out, and the chunks of two
/// segments overlap, the image fails with `OverlappingChunks`, and the
/// address named is the lowest at which a chunk starts inside a chunk in
/// front of it.
pub proof fn lemma_overlapping_segments_rejected(
    elf: Seq<u8>,
    segments: Seq<RawSegment>,
    sections: Seq<RawSection>,
    i: int,
    j: int,
)
    requires
        0 <= i < segments.len(),
        0 <= j < segments.len(),
        i != j,
        selected_chunks(elf, segments, sections) is Ok,
        segment_outcome(elf, segments[i], sections) matches Ok(Some(first)) && segment_outcome(
            elf,
            segments[j],
            sections,
        ) matches Ok(Some(second)) && overlap(first, second),
    ensures
        image_of_tables(elf, segments, sections) matches Err(ImageError::OverlappingChunks { addr })
            && is_first_collision(selected_chunks(elf, segments, sections).unwrap(), addr),
{
    lemma_chunk_position(elf, segments, sections, i);
    lemma_chunk_position(elf, segments, sections, j);
    if i < j {
        lemma_chunks_before_grows(elf, segments, sections, i + 1, j);
    } else {
        lemma_chunks_before_grows(elf, segments, sections, j + 1, i);
    }
    lemma_overlap_rejected(
        selected_chunks(elf, segments, sections).unwrap(),
        chunks_before(elf, segments, sections, i),
        chunks_before(elf, segments, sections, j),
    );
}

} // verus!
