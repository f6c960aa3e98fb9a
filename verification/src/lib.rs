//! mergehex-rs: merge Intel HEX, binary, and ELF images into a single Intel HEX image.
//!
//! The library holds the parsing, merging and encoding logic; reading and
//! writing files is left to the caller.
use vstd::prelude::*;

pub mod elf;
pub mod hex;
pub mod hex_laws;
pub mod input;
pub mod memory;
pub mod text;

verus! {

/// Errors that can occur while merging images.
///
/// Paths are carried as the text the caller gave for them.
#[derive(Debug)]
pub enum MergehexError {
    /// Reading or writing `path` failed; `detail` describes the failure.
    Io { path: String, detail: String },
    /// A line of the Intel HEX file `path` (counted from 1) could not be parsed.
    HexLine { path: String, line: usize, source: Box<MergehexError> },
    /// Malformed Intel HEX text.
    HexParse { detail: String },
    /// A record whose checksum byte (`expected`) differs from the one computed from its bytes.
    HexChecksum { expected: u8, computed: u8 },
    /// The byte at `address` was already present when merging `input`.
    Overlap { address: u64, input: String },
    /// The object file could not be read.
    ElfParse { detail: String },
    /// The format of `path` could not be determined.
    UnsupportedFormat { path: String, detail: String },
    /// A command-line value was not acceptable.
    InvalidArgument { detail: String },
}

} // verus!
