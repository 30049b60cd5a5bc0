//! Decoding of Mach-O dyld bind opcode streams into the list of symbols an
//! object imports, with the file offset and library of each.

pub mod bind_opcodes;
pub mod error;
pub mod imports;
pub mod insertion;
pub mod laws;
pub mod model;
pub mod reader;
