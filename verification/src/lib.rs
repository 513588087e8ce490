//! Flat flash images from 32-bit ELF executables.
//!
//! The loadable segments of an executable are trimmed to the part that
//! sections claim, checked against the reserved low region and against each
//! other, and laid out as one gapless byte buffer that starts at the lowest
//! load address.
//!
//! [`elf::read_elf_image`] does all of it for the bytes of a file. The steps
//! are functions of their own: [`select::select_chunks`] chooses and trims
//! the segments, [`validate::validate_chunks`] orders the chunks and rejects
//! collisions, and [`image::emit_image`] lays them out. [`reader`] is the
//! boundary to the `object` crate, which reads the ELF structures, and
//! [`laws`] proves what holds of every image.

pub mod error;
pub mod record;
pub mod reader;
pub mod chunk;
pub mod order;
pub mod validate;
pub mod image;
pub mod select;
pub mod elf;
pub mod laws;
