//! Codec for PNG chunks: the CRC-32 engine, chunk type tags and the
//! length + type + data + crc record layout.

pub mod chunk;
pub mod chunk_type;
pub mod crc;
pub mod error;
mod text;
