//! From the bytes of an executable to its flash image.

use vstd::prelude::*;
use crate::chunk::{ChunkModel, models};
use crate::error::ImageError;
use crate::image::{
    emit_image, flat_image, lemma_flat_image_reordered, lemma_no_collision_covered_once, steps_back,
};
use crate::order::{in_address_order, is_reordering};
use crate::reader::{
    elf_sections, elf_segments, has_elf32_magic, is_elf32, read_sections, read_segments,
};
use crate::record::{RawSection, RawSegment};
use crate::select::{select_chunks, selected_chunks};
use crate::validate::{lemma_no_collision_separated, rejection, validate_chunks};

verus! {


/// The image of a set of chunks, or why they have none.
pub open spec fn assembled(chunks: Seq<ChunkModel>) -> Result<Seq<u8>, ImageError> {
    match rejection(chunks) {
        Some(e) => Err(e),
        None => Ok(flat_image(chunks)),
    }
}

/// The image of a file with the given program and section header tables.
pub open spec fn image_of_tables(
    elf: Seq<u8>,
    segments: Seq<RawSegment>,
    sections: Seq<RawSection>,
) -> Result<Seq<u8>, ImageError> {
    match selected_chunks(elf, segments, sections) {
        Err(e) => Err(e),
        Ok(chunks) => assembled(chunks),
    }
}

/// The image of a file.
pub open spec fn image_of_file(elf: Seq<u8>) -> Result<Seq<u8>, ImageError> {
    if !has_elf32_magic(elf) {
        Err(ImageError::UnsupportedFormat)
    } else {
        match (elf_sections(elf), elf_segments(elf)) {
            (Some(sections), Some(segments)) => image_of_tables(elf, segments, sections),
            _ => Err(ImageError::MalformedInput),
        }
    }
}

/// A result with the image taken as a sequence of bytes.
pub open spec fn result_model(r: Result<Vec<u8>, ImageError>) -> Result<Seq<u8>, ImageError> {
    match r {
        Ok(image) => Ok(image@),
        Err(e) => Err(e),
    }
}

/// Builds the image of a file from its program and section header tables:
/// selects and trims the segments, orders and checks the chunks, and lays
/// them out.
pub fn build_image(elf: &[u8], segments: &[RawSegment], sections: &[RawSection]) -> (r: Result<
    Vec<u8>,
    ImageError,
>)
    ensures
        result_model(r) == image_of_tables(elf@, segments@, sections@),
{
    let chunks = match select_chunks(elf, segments, sections) {
        Ok(chunks) => chunks,
        Err(e) => {
            return Err(e);
        },
    };
    let sorted = match validate_chunks(chunks.as_slice()) {
        Ok(sorted) => sorted,
        Err(e) => {
            return Err(e);
        },
    };
    proof {
        let given = models(chunks@);
        let ordered = models(sorted@);
        let (perm, inv) = choose|perm: Seq<int>, inv: Seq<int>|
            is_reordering(given, ordered, perm, inv) && in_address_order(given, perm);
        lemma_no_collision_separated(given, ordered, perm, inv);
        assert forall|k: int| !steps_back(ordered, k) by {
            if 1 <= k < ordered.len() {
                assert(ordered[k - 1].end() <= ordered[k].flash_addr);
            }
        }
        lemma_no_collision_covered_once(given);
        lemma_flat_image_reordered(given, ordered, perm, inv);
    }
    emit_image(sorted.as_slice())
}

/// Reads a 32-bit ELF executable and builds its flash image: the data of
/// its loadable segments, each from where its first section starts, at their
/// physical addresses, from the lowest of them on, with zeros in between.
pub fn read_elf_image(elf: &[u8]) -> (r: Result<Vec<u8>, ImageError>)
    ensures
        result_model(r) == image_of_file(elf@),
{
    if !is_elf32(elf) {
        return Err(ImageError::UnsupportedFormat);
    }
    let sections = match read_sections(elf) {
        Some(sections) => sections,
        None => {
            return Err(ImageError::MalformedInput);
        },
    };
    let segments = match read_segments(elf) {
        Some(segments) => segments,
        None => {
            return Err(ImageError::MalformedInput);
        },
    };
    build_image(elf, segments.as_slice(), sections.as_slice())
}

} // verus!
