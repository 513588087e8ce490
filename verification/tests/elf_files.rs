use elf_image::elf::read_elf_image;
use elf_image::error::ImageError;

const PT_NULL: u32 = 0;
const PT_LOAD: u32 = 1;
const PT_NOTE: u32 = 4;
const SHT_NULL: u32 = 0;
const SHT_PROGBITS: u32 = 1;
const SHT_NOBITS: u32 = 8;

/// Where the payload starts in the files built here.
const DATA: u32 = 0x200;

struct Seg {
    p_type: u32,
    paddr: u32,
    offset: u32,
    filesz: u32,
}

struct Sec {
    sh_type: u32,
    offset: u32,
    size: u32,
}

struct Writer {
    bytes: Vec<u8>,
    big_endian: bool,
}

impl Writer {
    fn half(&mut self, v: u16) {
        if self.big_endian {
            self.bytes.extend_from_slice(&v.to_be_bytes());
        } else {
            self.bytes.extend_from_slice(&v.to_le_bytes());
        }
    }

    fn word(&mut self, v: u32) {
        if self.big_endian {
            self.bytes.extend_from_slice(&v.to_be_bytes());
        } else {
            self.bytes.extend_from_slice(&v.to_le_bytes());
        }
    }

    fn pad_to(&mut self, len: usize) {
        assert!(self.bytes.len() <= len);
        self.bytes.resize(len, 0);
    }
}

/// A 32-bit ELF file: the header, the program headers, the payload from
/// `DATA` on, a section name table, and the section headers. Section 0 is the
/// null section and section 1 the name table; the given sections follow.
fn elf_file(big_endian: bool, segments: &[Seg], sections: &[Sec], payload: &[u8]) -> Vec<u8> {
    let names: &[u8] = b"\0.shstrtab\0";
    let names_offset = DATA as usize + payload.len();
    let shoff = names_offset + names.len();
    let mut w = Writer { bytes: Vec::new(), big_endian };
    w.bytes.extend_from_slice(&[0x7f, b'E', b'L', b'F', 1, if big_endian { 2 } else { 1 }, 1, 0]);
    w.bytes.extend_from_slice(&[0; 8]);
    w.half(2);
    w.half(40);
    w.word(1);
    w.word(0);
    w.word(if segments.is_empty() { 0 } else { 52 });
    w.word(shoff as u32);
    w.word(0);
    w.half(52);
    w.half(32);
    w.half(segments.len() as u16);
    w.half(40);
    w.half(sections.len() as u16 + 2);
    w.half(1);
    assert_eq!(w.bytes.len(), 52);
    for s in segments {
        w.word(s.p_type);
        w.word(s.offset);
        w.word(s.paddr);
        w.word(s.paddr);
        w.word(s.filesz);
        w.word(s.filesz);
        w.word(5);
        w.word(4);
    }
    w.pad_to(DATA as usize);
    w.bytes.extend_from_slice(payload);
    w.bytes.extend_from_slice(names);
    for _ in 0..10 {
        w.word(0);
    }
    w.word(1);
    w.word(3);
    w.word(0);
    w.word(0);
    w.word(names_offset as u32);
    w.word(names.len() as u32);
    for _ in 0..4 {
        w.word(0);
    }
    for s in sections {
        w.word(0);
        w.word(s.sh_type);
        w.word(2);
        w.word(0);
        w.word(s.offset);
        w.word(s.size);
        for _ in 0..4 {
            w.word(0);
        }
    }
    w.bytes
}

fn payload(len: usize) -> Vec<u8> {
    (0..len).map(|i| (i % 251) as u8 + 1).collect()
}

fn two_segments(second_paddr: u32) -> (Vec<u8>, Vec<u8>) {
    let data = payload(48);
    let file = elf_file(
        false,
        &[
            Seg { p_type: PT_LOAD, paddr: 0x1000, offset: DATA, filesz: 32 },
            Seg { p_type: PT_LOAD, paddr: second_paddr, offset: DATA + 32, filesz: 16 },
        ],
        &[
            Sec { sh_type: SHT_PROGBITS, offset: DATA, size: 32 },
            Sec { sh_type: SHT_PROGBITS, offset: DATA + 36, size: 12 },
        ],
        &data,
    );
    (file, data)
}

#[test]
fn two_segments_give_one_image_with_zero_filled_gap() {
    let (file, data) = two_segments(0x2000);
    let image = read_elf_image(&file).unwrap();
    assert_eq!(image.len(), 0x1010);
    assert_eq!(&image[..32], &data[..32]);
    assert!(image[32..0x1004].iter().all(|&b| b == 0));
    assert_eq!(&image[0x1004..0x1010], &data[36..48]);
}

#[test]
fn second_segment_below_floor_is_address_too_low() {
    let (file, _) = two_segments(0x0500);
    assert_eq!(read_elf_image(&file), Err(ImageError::AddressTooLow { addr: 0x0504 }));
}

#[test]
fn segments_overlapping_by_one_byte_are_rejected() {
    // The first chunk ends at 0x1020; the second is trimmed to start at 0x101f.
    let (file, _) = two_segments(0x101b);
    assert_eq!(read_elf_image(&file), Err(ImageError::OverlappingChunks { addr: 0x101f }));
}

#[test]
fn segments_that_touch_are_accepted() {
    let (file, data) = two_segments(0x101c);
    let image = read_elf_image(&file).unwrap();
    assert_eq!(image.len(), 32 + 12);
    assert_eq!(&image[..32], &data[..32]);
    assert_eq!(&image[32..], &data[36..48]);
}

#[test]
fn segments_are_ordered_by_address_not_by_file_order() {
    let data = payload(48);
    let file = elf_file(
        false,
        &[
            Seg { p_type: PT_LOAD, paddr: 0x3000, offset: DATA, filesz: 32 },
            Seg { p_type: PT_LOAD, paddr: 0x2000, offset: DATA + 32, filesz: 16 },
        ],
        &[
            Sec { sh_type: SHT_PROGBITS, offset: DATA, size: 32 },
            Sec { sh_type: SHT_PROGBITS, offset: DATA + 32, size: 16 },
        ],
        &data,
    );
    let image = read_elf_image(&file).unwrap();
    assert_eq!(image.len(), 0x1000 + 32);
    assert_eq!(&image[..16], &data[32..48]);
    assert!(image[16..0x1000].iter().all(|&b| b == 0));
    assert_eq!(&image[0x1000..], &data[..32]);
}

#[test]
fn leading_bytes_without_section_are_trimmed() {
    let data = payload(64);
    let file = elf_file(
        false,
        &[Seg { p_type: PT_LOAD, paddr: 0x8000, offset: DATA, filesz: 64 }],
        &[
            Sec { sh_type: SHT_PROGBITS, offset: DATA + 40, size: 24 },
            Sec { sh_type: SHT_PROGBITS, offset: DATA + 16, size: 24 },
        ],
        &data,
    );
    let image = read_elf_image(&file).unwrap();
    assert_eq!(image, data[16..].to_vec());
}

#[test]
fn big_endian_file_gives_the_same_image() {
    let data = payload(48);
    let segments = [
        Seg { p_type: PT_LOAD, paddr: 0x0001_0000, offset: DATA, filesz: 32 },
        Seg { p_type: PT_LOAD, paddr: 0x0001_0040, offset: DATA + 32, filesz: 16 },
    ];
    let sections = [
        Sec { sh_type: SHT_PROGBITS, offset: DATA + 8, size: 24 },
        Sec { sh_type: SHT_PROGBITS, offset: DATA + 32, size: 16 },
    ];
    let little = read_elf_image(&elf_file(false, &segments, &sections, &data)).unwrap();
    let big = read_elf_image(&elf_file(true, &segments, &sections, &data)).unwrap();
    assert_eq!(little.len(), 0x40 - 8 + 16);
    assert_eq!(&little[..24], &data[8..32]);
    assert_eq!(&little[0x38..], &data[32..48]);
    assert_eq!(big, little);
}

#[test]
fn same_bytes_give_the_same_result() {
    let (file, _) = two_segments(0x2000);
    assert_eq!(read_elf_image(&file), read_elf_image(&file));
    let copy = file.clone();
    assert_eq!(read_elf_image(&file), read_elf_image(&copy));
    let (bad, _) = two_segments(0x0500);
    assert_eq!(read_elf_image(&bad), read_elf_image(&bad.clone()));
}

#[test]
fn only_non_loadable_segments_is_no_loadable_segments() {
    let data = payload(32);
    let file = elf_file(
        false,
        &[
            Seg { p_type: PT_NOTE, paddr: 0x1000, offset: DATA, filesz: 16 },
            Seg { p_type: PT_NULL, paddr: 0x2000, offset: DATA + 16, filesz: 16 },
        ],
        &[Sec { sh_type: SHT_PROGBITS, offset: DATA, size: 16 }],
        &data,
    );
    assert_eq!(read_elf_image(&file), Err(ImageError::NoLoadableSegments));
}

#[test]
fn only_sectionless_segments_is_no_loadable_segments() {
    let data = payload(32);
    let file = elf_file(
        false,
        &[Seg { p_type: PT_LOAD, paddr: 0x1000, offset: DATA, filesz: 16 }],
        &[
            // Reaches past the end of the segment.
            Sec { sh_type: SHT_PROGBITS, offset: DATA + 8, size: 16 },
            // Lies in the segment but is the null section.
            Sec { sh_type: SHT_NULL, offset: DATA, size: 8 },
            // Lies in the segment but occupies no file space.
            Sec { sh_type: SHT_NOBITS, offset: DATA, size: 8 },
        ],
        &data,
    );
    assert_eq!(read_elf_image(&file), Err(ImageError::NoLoadableSegments));
}

#[test]
fn file_without_segments_is_no_loadable_segments() {
    let file = elf_file(false, &[], &[Sec { sh_type: SHT_PROGBITS, offset: DATA, size: 0 }], &[]);
    assert_eq!(read_elf_image(&file), Err(ImageError::NoLoadableSegments));
}

#[test]
fn empty_loadable_segment_is_skipped() {
    let data = payload(16);
    let file = elf_file(
        false,
        &[
            Seg { p_type: PT_LOAD, paddr: 0x0100, offset: DATA, filesz: 0 },
            Seg { p_type: PT_LOAD, paddr: 0x4000, offset: DATA, filesz: 16 },
        ],
        &[Sec { sh_type: SHT_PROGBITS, offset: DATA, size: 16 }],
        &data,
    );
    assert_eq!(read_elf_image(&file), Ok(data));
}

#[test]
fn empty_segment_outside_the_file_is_skipped() {
    let data = payload(16);
    let file = elf_file(
        false,
        &[
            Seg { p_type: PT_LOAD, paddr: 0x4000, offset: DATA, filesz: 16 },
            Seg { p_type: PT_NOTE, paddr: 0, offset: 0x00ff_0000, filesz: 0 },
        ],
        &[Sec { sh_type: SHT_PROGBITS, offset: DATA, size: 16 }],
        &data,
    );
    assert_eq!(read_elf_image(&file), Ok(data));
}

#[test]
fn segment_data_outside_the_file_is_malformed() {
    let data = payload(16);
    let file = elf_file(
        false,
        &[Seg { p_type: PT_LOAD, paddr: 0x4000, offset: DATA, filesz: 0x0010_0000 }],
        &[Sec { sh_type: SHT_PROGBITS, offset: DATA, size: 16 }],
        &data,
    );
    assert_eq!(read_elf_image(&file), Err(ImageError::MalformedInput));
}

#[test]
fn non_loadable_segment_outside_the_file_is_malformed() {
    let data = payload(16);
    let file = elf_file(
        false,
        &[
            Seg { p_type: PT_NOTE, paddr: 0, offset: 0x00ff_0000, filesz: 4 },
            Seg { p_type: PT_LOAD, paddr: 0x4000, offset: DATA, filesz: 16 },
        ],
        &[Sec { sh_type: SHT_PROGBITS, offset: DATA, size: 16 }],
        &data,
    );
    assert_eq!(read_elf_image(&file), Err(ImageError::MalformedInput));
}

#[test]
fn first_failing_segment_decides_the_error() {
    let data = payload(32);
    let sections = [
        Sec { sh_type: SHT_PROGBITS, offset: DATA, size: 16 },
        Sec { sh_type: SHT_PROGBITS, offset: DATA + 16, size: 16 },
    ];
    let low = Seg { p_type: PT_LOAD, paddr: 0x0800, offset: DATA, filesz: 16 };
    let unreadable = Seg { p_type: PT_LOAD, paddr: 0x4000, offset: 0x00ff_0000, filesz: 16 };
    let file = elf_file(false, &[low, unreadable], &sections, &data);
    assert_eq!(read_elf_image(&file), Err(ImageError::AddressTooLow { addr: 0x0800 }));
    let low = Seg { p_type: PT_LOAD, paddr: 0x0800, offset: DATA, filesz: 16 };
    let unreadable = Seg { p_type: PT_LOAD, paddr: 0x4000, offset: 0x00ff_0000, filesz: 16 };
    let file = elf_file(false, &[unreadable, low], &sections, &data);
    assert_eq!(read_elf_image(&file), Err(ImageError::MalformedInput));
}

#[test]
fn address_below_floor_wins_over_overlap() {
    let data = payload(48);
    let file = elf_file(
        false,
        &[
            Seg { p_type: PT_LOAD, paddr: 0x2000, offset: DATA, filesz: 16 },
            Seg { p_type: PT_LOAD, paddr: 0x2008, offset: DATA + 16, filesz: 16 },
            Seg { p_type: PT_LOAD, paddr: 0x0ff0, offset: DATA + 32, filesz: 16 },
        ],
        &[
            Sec { sh_type: SHT_PROGBITS, offset: DATA, size: 16 },
            Sec { sh_type: SHT_PROGBITS, offset: DATA + 16, size: 16 },
            Sec { sh_type: SHT_PROGBITS, offset: DATA + 40, size: 8 },
        ],
        &data,
    );
    assert_eq!(read_elf_image(&file), Err(ImageError::AddressTooLow { addr: 0x0ff8 }));
}

#[test]
fn trimmed_address_past_32_bits_is_malformed() {
    let data = payload(64);
    let file = elf_file(
        false,
        &[Seg { p_type: PT_LOAD, paddr: 0xffff_fff0, offset: DATA, filesz: 64 }],
        &[Sec { sh_type: SHT_PROGBITS, offset: DATA + 32, size: 32 }],
        &data,
    );
    assert_eq!(read_elf_image(&file), Err(ImageError::MalformedInput));
}

#[test]
fn chunk_may_end_at_the_top_of_the_address_space() {
    let data = payload(16);
    let file = elf_file(
        false,
        &[Seg { p_type: PT_LOAD, paddr: 0xffff_fff0, offset: DATA, filesz: 16 }],
        &[Sec { sh_type: SHT_PROGBITS, offset: DATA, size: 16 }],
        &data,
    );
    assert_eq!(read_elf_image(&file), Ok(data));
}

#[test]
fn sixty_four_bit_file_is_unsupported() {
    let (mut file, _) = two_segments(0x2000);
    file[4] = 2;
    assert_eq!(read_elf_image(&file), Err(ImageError::UnsupportedFormat));
}

#[test]
fn unknown_or_short_input_is_unsupported() {
    assert_eq!(read_elf_image(&[]), Err(ImageError::UnsupportedFormat));
    assert_eq!(read_elf_image(b"not an executable at all"), Err(ImageError::UnsupportedFormat));
    // The magic number and class are right, but fewer than sixteen bytes follow.
    assert_eq!(
        read_elf_image(&[0x7f, b'E', b'L', b'F', 1, 1, 1, 0, 0, 0, 0, 0, 0, 0, 0]),
        Err(ImageError::UnsupportedFormat)
    );
    let (mut file, _) = two_segments(0x2000);
    file[0] = 0x7e;
    assert_eq!(read_elf_image(&file), Err(ImageError::UnsupportedFormat));
}

#[test]
fn truncated_header_is_malformed() {
    let (file, _) = two_segments(0x2000);
    assert_eq!(read_elf_image(&file[..16]), Err(ImageError::MalformedInput));
    assert_eq!(read_elf_image(&file[..51]), Err(ImageError::MalformedInput));
}

#[test]
fn unknown_data_encoding_is_malformed() {
    let (mut file, _) = two_segments(0x2000);
    file[5] = 3;
    assert_eq!(read_elf_image(&file), Err(ImageError::MalformedInput));
}

#[test]
fn truncated_tables_are_malformed() {
    let (file, _) = two_segments(0x2000);
    // The section headers are the last thing in the file.
    assert_eq!(read_elf_image(&file[..file.len() - 1]), Err(ImageError::MalformedInput));
    // Program headers of the wrong entry size.
    let mut wrong = file.clone();
    wrong[42] = 33;
    assert_eq!(read_elf_image(&wrong), Err(ImageError::MalformedInput));
}

#[test]
fn missing_section_name_table_is_malformed() {
    let (mut file, _) = two_segments(0x2000);
    // e_shstrndx = 0
    file[50] = 0;
    file[51] = 0;
    assert_eq!(read_elf_image(&file), Err(ImageError::MalformedInput));
}

#[test]
fn file_without_section_headers_is_no_loadable_segments() {
    let (mut file, _) = two_segments(0x2000);
    // e_shoff = 0: the file has no section header table.
    for b in &mut file[32..36] {
        *b = 0;
    }
    assert_eq!(read_elf_image(&file), Err(ImageError::NoLoadableSegments));
}

#[test]
fn section_names_do_not_matter() {
    let (file, _) = two_segments(0x2000);
    let image = read_elf_image(&file).unwrap();
    // Point the name of the first section with data past the name table.
    let names_len = b"\0.shstrtab\0".len();
    let header = DATA as usize + 48 + names_len + 2 * 40;
    let mut renamed = file.clone();
    renamed[header..header + 4].copy_from_slice(&0x00ff_ffffu32.to_le_bytes());
    assert_ne!(renamed, file);
    assert_eq!(read_elf_image(&renamed), Ok(image));
}
