use vstd::prelude::*;
use vstd::string::StringExecFns;

verus! {

/// Why no image could be produced.
#[derive(Clone, Copy, Debug, PartialEq, Eq)]
pub enum ImageError {
    /// The input is not a 32-bit ELF file.
    UnsupportedFormat,
    /// A header table could not be read, the data of a segment that is not
    /// empty lies outside the file, or a load address does not fit in 32 bits.
    MalformedInput,
    /// A chunk would be placed in the reserved low region.
    AddressTooLow { addr: u32 },
    /// A chunk starts before the end of a chunk in front of it.
    OverlappingChunks { addr: u32 },
    /// No segment has a section mapped into it.
    NoLoadableSegments,
}

/// The digit for a value below sixteen.
pub open spec fn hex_digit(d: int) -> char {
    "0123456789abcdef"@[d]
}

/// A number in base sixteen, the most significant digit first and not zero,
/// except for the number zero.
pub open spec fn hex_digits(n: nat) -> Seq<char>
    decreases n,
{
    if n < 16 {
        seq![hex_digit(n as int)]
    } else {
        hex_digits(n / 16).push(hex_digit((n % 16) as int))
    }
}

/// An address as it is written in explanations.
pub open spec fn hex_text(addr: u32) -> Seq<char> {
    "0x"@ + hex_digits(addr as nat)
}

/// The formatting of std, `{:#x}` on a `u32`: trusted to write `0x` and then
/// the number in base sixteen, in lower case and without leading zeros.
#[verifier::external_body]
fn format_hex(addr: u32) -> (r: String)
    ensures
        r@ == hex_text(addr),
{
    format!("{:#x}", addr)
}

impl ImageError {
    /// The explanation of an error.
    pub open spec fn message_text(self) -> Seq<char> {
        match self {
            ImageError::UnsupportedFormat =>
                "firmware file has unsupported format (only 32-bit ELF files are supported)"@,
            ImageError::MalformedInput =>
                "failed to read the program headers, section headers or segment data (corrupt ELF?)"@,
            ImageError::AddressTooLow { addr } => "firmware starts at address "@ + hex_text(addr)
                + ", expected an address equal or higher than 0x1000 to avoid a collision with the bootloader"@,
            ImageError::OverlappingChunks { addr } => "overlapping chunks at "@ + hex_text(addr),
            ImageError::NoLoadableSegments =>
                "no loadable program segments found; ensure that the linker is invoked correctly (passing the linker script)"@,
        }
    }

    /// Explains the error to someone who has to mend the link step.
    pub fn message(&self) -> (r: String)
        ensures
            r@ == self.message_text(),
    {
        match self {
            ImageError::UnsupportedFormat => String::from_str(
                "firmware file has unsupported format (only 32-bit ELF files are supported)",
            ),
            ImageError::MalformedInput => String::from_str(
                "failed to read the program headers, section headers or segment data (corrupt ELF?)",
            ),
            ImageError::AddressTooLow { addr } => {
                let mut text = String::from_str("firmware starts at address ");
                text.append(format_hex(*addr).as_str());
                text.append(
                    ", expected an address equal or higher than 0x1000 to avoid a collision with the bootloader",
                );
                text
            },
            ImageError::OverlappingChunks { addr } => {
                let mut text = String::from_str("overlapping chunks at ");
                text.append(format_hex(*addr).as_str());
                text
            },
            ImageError::NoLoadableSegments => String::from_str(
                "no loadable program segments found; ensure that the linker is invoked correctly (passing the linker script)",
            ),
        }
    }
}

} // verus!
