//! The ways in which building or reading a chunk can fail.

use vstd::prelude::*;

verus! {

/// Why a chunk type or a chunk was rejected, with the values involved.
#[derive(Debug, Clone, Copy, PartialEq, Eq, Structural)]
pub enum ChunkError {
    /// A type tag byte that is not an ASCII letter (the first such byte).
    InvalidCharacter(u8),
    /// A type tag string whose UTF-8 encoding is not 4 bytes long (its byte length).
    WrongLength(usize),
    /// A buffer under 12 bytes (its length).
    TooShort(usize),
    /// A whole-buffer read whose declared payload length exceeds the bytes present.
    LengthMismatch { declared: u32, available: usize },
    /// A streaming read whose declared payload length would run past the buffer.
    LengthExceedsBuffer { declared: u32, available: usize },
    /// Bytes left over after a whole-buffer read (how many).
    TrailingData(usize),
    /// The stored CRC differs from the one computed over type and payload.
    CrcMismatch { stored: u32, computed: u32 },
    /// A payload that is not well-formed UTF-8.
    InvalidEncoding,
}

} // verus!
