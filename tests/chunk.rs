use pngme::chunk::Chunk;
use pngme::chunk_type::ChunkType;
use pngme::error::ChunkError;

fn testing_chunk() -> Chunk {
    let chunk_type = ChunkType::from_str("RuSt").unwrap();
    let data: Vec<u8> = "This is where your secret message will be!"
        .bytes()
        .collect();
    Chunk::new(chunk_type, data)
}

fn wire(length: u32, tag: &[u8], data: &[u8], crc: u32) -> Vec<u8> {
    length
        .to_be_bytes()
        .iter()
        .chain(tag.iter())
        .chain(data.iter())
        .chain(crc.to_be_bytes().iter())
        .copied()
        .collect()
}

#[test]
fn test_chunk_length() {
    let chunk = testing_chunk();
    assert_eq!(chunk.length(), 42);
}

#[test]
fn test_chunk_type() {
    let chunk = testing_chunk();
    assert_eq!(chunk.chunk_type().to_string(), String::from("RuSt"));
}

#[test]
fn test_chunk_string() {
    let chunk = testing_chunk();
    let chunk_string = chunk.data_as_string().unwrap();
    let expected_chunk_string = String::from("This is where your secret message will be!");
    assert_eq!(chunk_string, expected_chunk_string);
}

#[test]
fn test_chunk_crc() {
    let chunk = testing_chunk();
    assert_eq!(chunk.crc(), 2882656334);
}

#[test]
fn test_valid_chunk_from_bytes() {
    let data_length: u32 = 42;
    let chunk_type = "RuSt".as_bytes();
    let message_bytes = "This is where your secret message will be!".as_bytes();
    let crc: u32 = 2882656334;

    let chunk_data: Vec<u8> = data_length
        .to_be_bytes()
        .iter()
        .chain(chunk_type.iter())
        .chain(message_bytes.iter())
        .chain(crc.to_be_bytes().iter())
        .copied()
        .collect();

    let chunk = Chunk::try_from(chunk_data.as_ref()).unwrap();

    let chunk_string = chunk.data_as_string().unwrap();
    let expected_chunk_string = String::from("This is where your secret message will be!");

    assert_eq!(chunk.length(), 42);
    assert_eq!(chunk.chunk_type().to_string(), String::from("RuSt"));
    assert_eq!(chunk_string, expected_chunk_string);
    assert_eq!(chunk.crc(), 2882656334);
}

#[test]
fn test_invalid_chunk_from_bytes() {
    let data_length: u32 = 42;
    let chunk_type = "RuSt".as_bytes();
    let message_bytes = "This is where your secret message will be!".as_bytes();
    let crc: u32 = 2882656333;

    let chunk_data: Vec<u8> = data_length
        .to_be_bytes()
        .iter()
        .chain(chunk_type.iter())
        .chain(message_bytes.iter())
        .chain(crc.to_be_bytes().iter())
        .copied()
        .collect();

    let chunk = Chunk::try_from(chunk_data.as_ref());

    assert!(chunk.is_err());
}

#[test]
fn known_vector_length_and_crc() {
    let chunk = testing_chunk();
    assert_eq!(chunk.length(), 42);
    assert_eq!(chunk.crc(), 2882656334);
    assert_eq!(chunk.data(), "This is where your secret message will be!".as_bytes());
}

#[test]
fn serialized_layout() {
    let chunk = Chunk::new(ChunkType::from_str("IEND").unwrap(), Vec::new());
    assert_eq!(chunk.as_bytes(), vec![0, 0, 0, 0, b'I', b'E', b'N', b'D', 0xae, 0x42, 0x60, 0x82]);
    let bytes = testing_chunk().as_bytes();
    assert_eq!(bytes.len(), 54);
    assert_eq!(&bytes[0..4], &[0, 0, 0, 42]);
    assert_eq!(&bytes[4..8], b"RuSt");
    assert_eq!(&bytes[50..54], &2882656334u32.to_be_bytes());
}

#[test]
fn round_trip_whole_buffer() {
    let chunk = testing_chunk();
    let back = Chunk::try_from(chunk.as_bytes().as_slice()).unwrap();
    assert_eq!(back, chunk);
    let empty = Chunk::new(ChunkType::from_str("abCD").unwrap(), Vec::new());
    assert_eq!(Chunk::try_from(empty.as_bytes().as_slice()).unwrap(), empty);
    let binary = Chunk::new(ChunkType::from_str("zzzz").unwrap(), (0..=255u8).collect());
    assert_eq!(Chunk::try_from(binary.as_bytes().as_slice()).unwrap(), binary);
}

#[test]
fn round_trip_streaming() {
    let chunk = testing_chunk();
    let bytes = chunk.as_bytes();
    let (back, rest) = Chunk::parse_next(&bytes).unwrap();
    assert_eq!(back, chunk);
    assert!(rest.is_empty());
}

#[test]
fn crc_is_recomputed_from_contents() {
    let a = testing_chunk();
    let b = testing_chunk();
    assert_eq!(a.crc(), a.crc());
    assert_eq!(a.crc(), b.crc());
    let parsed = Chunk::try_from(a.as_bytes().as_slice()).unwrap();
    assert_eq!(parsed.crc(), a.crc());
    let other = Chunk::new(ChunkType::from_str("RuSt").unwrap(), b"This is where your secret message will be?".to_vec());
    assert_ne!(other.crc(), a.crc());
}

#[test]
fn flipped_crc_bits_are_detected() {
    let bytes = testing_chunk().as_bytes();
    let n = bytes.len();
    for pos in n - 4..n {
        for bit in 0..8 {
            let mut f = bytes.clone();
            f[pos] ^= 1 << bit;
            assert!(matches!(Chunk::try_from(f.as_slice()), Err(ChunkError::CrcMismatch { .. })));
            assert!(matches!(Chunk::parse_next(&f), Err(ChunkError::CrcMismatch { .. })));
        }
    }
}

#[test]
fn flipped_payload_bits_are_detected() {
    let bytes = testing_chunk().as_bytes();
    let n = bytes.len();
    for pos in 8..n - 4 {
        for bit in 0..8 {
            let mut f = bytes.clone();
            f[pos] ^= 1 << bit;
            assert!(matches!(Chunk::try_from(f.as_slice()), Err(ChunkError::CrcMismatch { .. })));
        }
    }
}

#[test]
fn crc_mismatch_reports_both_values() {
    let bytes = wire(42, b"RuSt", b"This is where your secret message will be!", 2882656333);
    assert_eq!(
        Chunk::try_from(bytes.as_slice()),
        Err(ChunkError::CrcMismatch { stored: 2882656333, computed: 2882656334 })
    );
}

#[test]
fn two_chunks_stream_in_order() {
    let first = testing_chunk();
    let second = Chunk::new(ChunkType::from_str("IEND").unwrap(), Vec::new());
    let mut bytes = first.as_bytes();
    bytes.extend(second.as_bytes());

    let (a, rest) = Chunk::parse_next(&bytes).unwrap();
    assert_eq!(a, first);
    assert_eq!(rest, second.as_bytes().as_slice());
    let (b, rest) = Chunk::parse_next(rest).unwrap();
    assert_eq!(b, second);
    assert!(rest.is_empty());

    assert_eq!(Chunk::try_from(bytes.as_slice()), Err(ChunkError::TrailingData(12)));
}

#[test]
fn empty_payload_boundary() {
    let crc = pngme::crc::Crc::new().update(b"RuSt").get();
    let bytes = wire(0, b"RuSt", &[], crc);
    assert_eq!(bytes.len(), 12);
    let chunk = Chunk::try_from(bytes.as_slice()).unwrap();
    assert!(chunk.data().is_empty());
    assert_eq!(chunk.length(), 0);
    assert_eq!(Chunk::try_from(&bytes[..11]), Err(ChunkError::TooShort(11)));
    assert_eq!(Chunk::parse_next(&bytes[..11]), Err(ChunkError::TooShort(11)));
    assert_eq!(Chunk::try_from(&[][..]), Err(ChunkError::TooShort(0)));
}

#[test]
fn invalid_tag_in_buffer() {
    let bytes = wire(0, b"Ru1t", &[], 0);
    assert_eq!(Chunk::try_from(bytes.as_slice()), Err(ChunkError::InvalidCharacter(b'1')));
}

#[test]
fn declared_length_past_buffer() {
    let bytes = wire(43, b"RuSt", b"This is where your secret message will be!", 2882656334);
    assert_eq!(
        Chunk::parse_next(&bytes),
        Err(ChunkError::LengthExceedsBuffer { declared: 43, available: 42 })
    );
    assert_eq!(
        Chunk::try_from(bytes.as_slice()),
        Err(ChunkError::LengthMismatch { declared: 43, available: 42 })
    );
    let huge = wire(u32::MAX, b"RuSt", &[], 0);
    assert_eq!(
        Chunk::parse_next(&huge),
        Err(ChunkError::LengthExceedsBuffer { declared: u32::MAX, available: 0 })
    );
}

#[test]
fn declared_length_short_of_buffer() {
    let mut bytes = testing_chunk().as_bytes();
    bytes.push(7);
    assert_eq!(Chunk::try_from(bytes.as_slice()), Err(ChunkError::TrailingData(1)));
    let (_, rest) = Chunk::parse_next(&bytes).unwrap();
    assert_eq!(rest, &[7]);
}

#[test]
fn payload_that_is_not_text() {
    let chunk = Chunk::new(ChunkType::from_str("RuSt").unwrap(), vec![0x66, 0xff, 0x6f]);
    assert_eq!(chunk.data_as_string(), Err(ChunkError::InvalidEncoding));
    let text = Chunk::new(ChunkType::from_str("RuSt").unwrap(), "h\u{e9}llo".as_bytes().to_vec());
    assert_eq!(text.data_as_string(), Ok(String::from("h\u{e9}llo")));
}
