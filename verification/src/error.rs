//! The errors of reading a module.

use gimli::Error as DwarfError;
use vstd::prelude::*;

verus! {

/// The error type of the `gimli` crate: why it could not decode the debugging
/// information. Nothing is known of its contents here.
#[verifier::external_type_specification]
#[verifier::external_body]
pub struct ExDwarfError(DwarfError);

/// Why a read of the module's bytes failed.
#[derive(Debug)]
pub enum ReaderError {
    /// The input ended before the value did.
    UnexpectedEof,
    /// An unsigned LEB128 number does not fit its type.
    BadUnsignedLeb128,
    /// A length does not fit the machine's offsets.
    UnsupportedOffset,
    /// A name is not valid UTF-8.
    BadUtf8,
    /// A unit's compilation directory is not an absolute path.
    RelativeCompilationDirectory,
    /// A line number of zero was reported as a line, or a line does not fit 32 bits.
    BadLine,
    /// A column of zero was reported as a column, or a column does not fit 32 bits.
    BadColumn,
    /// A line-number program moves the line back by the least 64-bit number,
    /// further than any line lies.
    BadLineAdvance,
    /// An address, or the code section's offset, does not fit 32 bits.
    AddressOverflow,
    /// The debugging information is malformed.
    Dwarf(DwarfError),
}

} // verus!
