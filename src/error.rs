//! Why decoding the imports of an object failed.

use vstd::prelude::*;

verus! {

#[derive(Debug, Clone, Copy, PartialEq, Eq, Structural)]
pub enum BindError {
    /// An opcode, LEB128 operand or symbol name could not be read from the
    /// stream: it runs past the end, overflows 64 bits, or is not UTF-8.
    BadRead,
    /// A binding names a segment past the end of the segment table.
    SegmentIndex,
    /// A binding names a library ordinal past the end of the library table.
    LibraryOrdinal,
}

} // verus!
