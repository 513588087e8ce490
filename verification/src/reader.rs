//! The boundary to the `object` crate, which reads the ELF structures.
//!
//! Nothing in this module is proved: each function states what the reader
//! is trusted to do.

use vstd::prelude::*;
use object::read::elf::{FileHeader, ProgramHeader, SectionHeader};
use object::elf::FileHeader32;
use object::{Endianness, FileKind, ReadRef};
use crate::record::{RawSegment, RawSection};

verus! {

/// The first bytes of a file that the reader classifies as 32-bit ELF:
/// sixteen identification bytes are present, they begin with the ELF magic
/// number, and the class byte says 32-bit.
pub open spec fn has_elf32_magic(bytes: Seq<u8>) -> bool {
    &&& bytes.len() >= 16
    &&& bytes[0] == 0x7f
    &&& bytes[1] == 0x45
    &&& bytes[2] == 0x4c
    &&& bytes[3] == 0x46
    &&& bytes[4] == 1
}

/// The bytes of a file in a range given by offset and size. An empty range
/// is readable wherever it lies; any other must lie inside the file.
pub open spec fn file_bytes(bytes: Seq<u8>, offset: u64, size: u64) -> Option<Seq<u8>> {
    if size == 0 {
        Some(Seq::empty())
    } else if offset + size <= bytes.len() {
        Some(bytes.subrange(offset as int, offset + size))
    } else {
        None
    }
}

/// The program header table that the reader finds in a file, or `None`
/// where it rejects the file header or the table.
pub uninterp spec fn elf_segments(bytes: Seq<u8>) -> Option<Seq<RawSegment>>;

/// The section header table that the reader finds in a file, or `None`
/// where it rejects the file header, the table or the section name table.
pub uninterp spec fn elf_sections(bytes: Seq<u8>) -> Option<Seq<RawSection>>;

/// `FileKind::parse` of the `object` crate.
///
/// Trusted: it reports the 32-bit ELF kind exactly for the files that hold
/// sixteen bytes or more and start with the ELF magic number and the class
/// byte of 32-bit files.
#[verifier::external_body]
pub(crate) fn is_elf32(elf: &[u8]) -> (r: bool)
    ensures
        r == has_elf32_magic(elf@),
{
    matches!(FileKind::parse(elf), Ok(FileKind::Elf32))
}

/// `ReadRef::read_bytes_at` of the `object` crate on a byte slice, which is
/// what `ProgramHeader::data` calls with the segment's file range.
///
/// Trusted: it returns the requested range of the file, the empty range
/// wherever it lies, and fails exactly where a range that is not empty
/// leaves the file.
#[verifier::external_body]
pub(crate) fn read_bytes<'a>(elf: &'a [u8], offset: u64, size: u64) -> (r: Option<&'a [u8]>)
    ensures
        match r {
            Some(data) => file_bytes(elf@, offset, size) == Some(data@),
            None => file_bytes(elf@, offset, size) is None,
        },
{
    elf.read_bytes_at(offset, size).ok()
}

/// `FileHeader::program_headers` of the `object` crate, called on the header
/// that `FileHeader::parse` finds in the same bytes and with the byte order
/// that `FileHeader::endian` reads from it. Each record is handed out as what
/// `ProgramHeader::p_type`, `p_paddr` and `file_range` return for it.
///
/// Trusted: the table is a function of the file's bytes, here named
/// `elf_segments`. Nothing is claimed about which files have a table or what
/// it holds.
#[verifier::external_body]
pub(crate) fn read_segments(elf: &[u8]) -> (r: Option<Vec<RawSegment>>)
    ensures
        match r {
            Some(table) => elf_segments(elf@) == Some(table@),
            None => elf_segments(elf@) is None,
        },
{
    let header = FileHeader32::<Endianness>::parse(elf).ok()?;
    let endian = header.endian().ok()?;
    let table = header.program_headers(endian, elf).ok()?;
    Some(table.iter().map(|p| {
        let (offset, size) = p.file_range(endian);
        RawSegment { p_type: p.p_type(endian).0, p_paddr: p.p_paddr(endian), offset, size }
    }).collect())
}

/// `FileHeader::section_headers` of the `object` crate, called on the header
/// that `FileHeader::parse` finds in the same bytes and with the byte order
/// that `FileHeader::endian` reads from it. The table counts only where
/// `FileHeader::section_strings` finds the section name table as well. Each
/// record is handed out as what `SectionHeader::sh_type` and `file_range`
/// return for it.
///
/// Trusted: the table is a function of the file's bytes, here named
/// `elf_sections`. Nothing is claimed about which files have a table or what
/// it holds.
#[verifier::external_body]
pub(crate) fn read_sections(elf: &[u8]) -> (r: Option<Vec<RawSection>>)
    ensures
        match r {
            Some(table) => elf_sections(elf@) == Some(table@),
            None => elf_sections(elf@) is None,
        },
{
    let header = FileHeader32::<Endianness>::parse(elf).ok()?;
    let endian = header.endian().ok()?;
    let table = header.section_headers(endian, elf).ok()?;
    header.section_strings(endian, elf, table).ok()?;
    Some(table.iter().map(|s| {
        RawSection { sh_type: s.sh_type(endian).0, file_range: s.file_range(endian) }
    }).collect())
}

} // verus!
