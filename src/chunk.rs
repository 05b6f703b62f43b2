//! Chunks: a type tag and a payload, and their wire layout
//! `[length:4][type:4][data:length][crc:4]`, integers big-endian.

use vstd::prelude::*;
use vstd::slice::slice_to_vec;
use vstd::utf8::{decode_utf8, encode_utf8_decode_utf8, valid_utf8};

use crate::chunk_type::{valid_tag, first_non_letter, ChunkType};
use crate::crc::{crc32, lemma_crc_detects_bit_flip, lemma_crc_fold_append, Crc};
use crate::error::ChunkError;
use crate::text::str_from_utf8;

verus! {

/// What a chunk holds: its tag and its payload.
pub type ChunkView = (Seq<u8>, Seq<u8>);

/// The four big-endian bytes of `v`.
pub open spec fn be_bytes(v: u32) -> Seq<u8> {
    seq![(v >> 24) as u8, (v >> 16) as u8, (v >> 8) as u8, v as u8]
}

/// The value of four big-endian bytes.
pub open spec fn be_value(b: Seq<u8>) -> u32 {
    ((b[0] as u32) << 24) | ((b[1] as u32) << 16) | ((b[2] as u32) << 8) | (b[3] as u32)
}

/// The CRC that a chunk with this tag and payload carries.
pub open spec fn chunk_crc(tag: Seq<u8>, data: Seq<u8>) -> u32 {
    crc32(tag + data)
}

/// The wire form of a chunk.
pub open spec fn encode_chunk(tag: Seq<u8>, data: Seq<u8>) -> Seq<u8> {
    be_bytes(data.len() as u32) + tag + data + be_bytes(chunk_crc(tag, data))
}

/// Reading one chunk from the front of `b`: the chunk and the bytes after it,
/// or the first check that failed.
pub open spec fn parse_next_spec(b: Seq<u8>) -> Result<(ChunkView, Seq<u8>), ChunkError> {
    if b.len() < 12 {
        Err(ChunkError::TooShort(b.len() as usize))
    } else {
        let declared = be_value(b.subrange(0, 4));
        let tag = b.subrange(4, 8);
        let available = b.len() - 12;
        let end = 8 + declared;
        if !valid_tag(tag) {
            Err(ChunkError::InvalidCharacter(first_non_letter(tag)))
        } else if declared > available {
            Err(ChunkError::LengthExceedsBuffer { declared, available: available as usize })
        } else {
            let data = b.subrange(8, end);
            let stored = be_value(b.subrange(end, end + 4));
            let computed = chunk_crc(tag, data);
            if stored != computed {
                Err(ChunkError::CrcMismatch { stored, computed })
            } else {
                Ok(((tag, data), b.subrange(end + 4, b.len() as int)))
            }
        }
    }
}

/// Reading exactly one chunk that fills all of `b`.
pub open spec fn parse_spec(b: Seq<u8>) -> Result<ChunkView, ChunkError> {
    match parse_next_spec(b) {
        Ok((c, rest)) => if rest.len() == 0 {
            Ok(c)
        } else {
            Err(ChunkError::TrailingData(rest.len() as usize))
        },
        Err(ChunkError::LengthExceedsBuffer { declared, available }) => Err(
            ChunkError::LengthMismatch { declared, available },
        ),
        Err(e) => Err(e),
    }
}

/// Big-endian bytes read back give the value.
pub proof fn lemma_be_round_trip(v: u32)
    ensures
        be_value(be_bytes(v)) == v,
{
    let (a, b, c, d) = ((v >> 24) as u8, (v >> 16) as u8, (v >> 8) as u8, v as u8);
    assert(((a as u32) << 24) | ((b as u32) << 16) | ((c as u32) << 8) | (d as u32) == v)
        by (bit_vector)
        requires
            a == (v >> 24) as u8,
            b == (v >> 16) as u8,
            c == (v >> 8) as u8,
            d == v as u8,
    ;
}

/// Four bytes are determined by their big-endian value.
proof fn lemma_be_value_injective(s: Seq<u8>, t: Seq<u8>)
    requires
        s.len() == 4,
        t.len() == 4,
        be_value(s) == be_value(t),
    ensures
        s == t,
{
    let (a, b, c, d) = (s[0], s[1], s[2], s[3]);
    let (e, f, g, h) = (t[0], t[1], t[2], t[3]);
    assert(a == e && b == f && c == g && d == h) by (bit_vector)
        requires
            ((a as u32) << 24) | ((b as u32) << 16) | ((c as u32) << 8) | (d as u32) == ((
            e as u32) << 24) | ((f as u32) << 16) | ((g as u32) << 8) | (h as u32),
    ;
    assert(s =~= t);
}

/// A serialized chunk followed by any bytes reads back as that chunk, with
/// those bytes left over.
pub proof fn lemma_parse_next_encoded(tag: Seq<u8>, data: Seq<u8>, rest: Seq<u8>)
    requires
        valid_tag(tag),
        data.len() <= u32::MAX,
    ensures
        parse_next_spec(encode_chunk(tag, data) + rest) == Ok::<
            (ChunkView, Seq<u8>),
            ChunkError,
        >(((tag, data), rest)),
{
    let b = encode_chunk(tag, data) + rest;
    let n = data.len() as int;
    let crc = chunk_crc(tag, data);
    assert(b.subrange(0, 4) =~= be_bytes(n as u32));
    lemma_be_round_trip(n as u32);
    assert(b.subrange(4, 8) =~= tag);
    assert(b.subrange(8, 8 + n) =~= data);
    assert(b.subrange(8 + n, 12 + n) =~= be_bytes(crc));
    lemma_be_round_trip(crc);
    assert(b.subrange(12 + n, b.len() as int) =~= rest);
}

/// Serializing a chunk and reading the bytes back, whole-buffer or streaming,
/// gives the same chunk.
pub proof fn lemma_round_trip(tag: Seq<u8>, data: Seq<u8>)
    requires
        valid_tag(tag),
        data.len() <= u32::MAX,
    ensures
        parse_spec(encode_chunk(tag, data)) == Ok::<ChunkView, ChunkError>((tag, data)),
        parse_next_spec(encode_chunk(tag, data)) == Ok::<(ChunkView, Seq<u8>), ChunkError>(
            ((tag, data), Seq::<u8>::empty()),
        ),
{
    lemma_parse_next_encoded(tag, data, Seq::<u8>::empty());
    assert(encode_chunk(tag, data) + Seq::<u8>::empty() =~= encode_chunk(tag, data));
}

/// Two serialized chunks laid end to end are read back in order by two
/// streaming reads, the second leaving nothing; a whole-buffer read of both
/// fails on the trailing bytes.
pub proof fn lemma_consecutive_chunks(t1: Seq<u8>, d1: Seq<u8>, t2: Seq<u8>, d2: Seq<u8>)
    requires
        valid_tag(t1),
        valid_tag(t2),
        d1.len() <= u32::MAX,
        d2.len() <= u32::MAX,
    ensures
        parse_next_spec(encode_chunk(t1, d1) + encode_chunk(t2, d2)) == Ok::<
            (ChunkView, Seq<u8>),
            ChunkError,
        >(((t1, d1), encode_chunk(t2, d2))),
        parse_next_spec(encode_chunk(t2, d2)) == Ok::<(ChunkView, Seq<u8>), ChunkError>(
            ((t2, d2), Seq::<u8>::empty()),
        ),
        parse_spec(encode_chunk(t1, d1) + encode_chunk(t2, d2)) == Err::<ChunkView, ChunkError>(
            ChunkError::TrailingData(encode_chunk(t2, d2).len() as usize),
        ),
{
    lemma_parse_next_encoded(t1, d1, encode_chunk(t2, d2));
    lemma_round_trip(t2, d2);
}

/// Twelve bytes holding a zero length, a tag and the CRC of that tag read
/// back as a chunk with an empty payload.
pub proof fn lemma_empty_payload(tag: Seq<u8>)
    requires
        valid_tag(tag),
    ensures
        parse_spec(be_bytes(0) + tag + be_bytes(chunk_crc(tag, Seq::<u8>::empty()))) == Ok::<
            ChunkView,
            ChunkError,
        >((tag, Seq::<u8>::empty())),
{
    let e = Seq::<u8>::empty();
    assert(be_bytes(0) + tag + be_bytes(chunk_crc(tag, e)) =~= encode_chunk(tag, e));
    lemma_round_trip(tag, e);
}

/// A buffer under twelve bytes is refused as too short, in either mode.
pub proof fn lemma_short_buffer(b: Seq<u8>)
    requires
        b.len() < 12,
    ensures
        parse_next_spec(b) == Err::<(ChunkView, Seq<u8>), ChunkError>(
            ChunkError::TooShort(b.len() as usize),
        ),
        parse_spec(b) == Err::<ChunkView, ChunkError>(ChunkError::TooShort(b.len() as usize)),
{
}

/// Flipping any one bit in the payload or the CRC field of a serialized
/// chunk makes reading it fail with a CRC mismatch, in either mode.
pub proof fn lemma_bit_flip_rejected(tag: Seq<u8>, data: Seq<u8>, pos: int, bit: u8)
    requires
        valid_tag(tag),
        data.len() <= u32::MAX,
        8 <= pos < 12 + data.len(),
        bit < 8,
    ensures
        ({
            let b = encode_chunk(tag, data);
            let f = b.update(pos, b[pos] ^ (1u8 << bit));
            &&& parse_next_spec(f) matches Err(ChunkError::CrcMismatch { .. })
            &&& parse_spec(f) matches Err(ChunkError::CrcMismatch { .. })
        }),
{
    let b = encode_chunk(tag, data);
    let m = 1u8 << bit;
    let f = b.update(pos, b[pos] ^ m);
    let n = data.len() as int;
    let crc = chunk_crc(tag, data);
    assert(m != 0) by (bit_vector)
        requires
            m == 1u8 << bit,
            bit < 8,
    ;
    assert(f.subrange(0, 4) =~= be_bytes(n as u32));
    lemma_be_round_trip(n as u32);
    assert(f.subrange(4, 8) =~= tag);
    if pos < 8 + n {
        let x = tag + data;
        let q = pos - 4;
        assert(x[q] == b[pos]);
        let flipped = f.subrange(8, 8 + n);
        assert(tag + flipped =~= x.update(q, x[q] ^ m));
        lemma_crc_detects_bit_flip(x, q, bit);
        assert(f.subrange(8 + n, 12 + n) =~= be_bytes(crc));
        lemma_be_round_trip(crc);
    } else {
        assert(f.subrange(8, 8 + n) =~= data);
        let stored = f.subrange(8 + n, 12 + n);
        let k = pos - 8 - n;
        let v = b[pos];
        assert(v ^ m != v) by (bit_vector)
            requires
                m != 0,
        ;
        assert(stored[k] != be_bytes(crc)[k]);
        lemma_be_round_trip(crc);
        if be_value(stored) == crc {
            lemma_be_value_injective(stored, be_bytes(crc));
        }
    }
}

/// The CRC reported for a chunk is a function of its tag and payload alone:
/// two chunks with the same contents report the same CRC, however and
/// whenever each was built.
pub proof fn lemma_crc_depends_on_contents(a: &Chunk, b: &Chunk)
    requires
        a@ == b@,
    ensures
        chunk_crc(a@.0, a@.1) == chunk_crc(b@.0, b@.1),
{
}

fn read_be_u32(b: &[u8], at: usize) -> (r: u32)
    requires
        at + 4 <= b@.len(),
    ensures
        r == be_value(b@.subrange(at as int, at + 4)),
{
    ((b[at] as u32) << 24) | ((b[at + 1] as u32) << 16) | ((b[at + 2] as u32) << 8) | (b[at
        + 3] as u32)
}

fn push_be_u32(out: &mut Vec<u8>, v: u32)
    ensures
        final(out)@ == old(out)@ + be_bytes(v),
{
    out.push((v >> 24) as u8);
    out.push((v >> 16) as u8);
    out.push((v >> 8) as u8);
    out.push(v as u8);
    assert(final(out)@ =~= old(out)@ + be_bytes(v));
}

fn push_all(out: &mut Vec<u8>, src: &[u8])
    ensures
        final(out)@ == old(out)@ + src@,
{
    let mut i: usize = 0;
    while i < src.len()
        invariant
            i <= src@.len(),
            out@ == old(out)@ + src@.subrange(0, i as int),
        decreases src@.len() - i,
    {
        out.push(src[i]);
        i = i + 1;
        assert(out@ =~= old(out)@ + src@.subrange(0, i as int));
    }
    assert(src@.subrange(0, i as int) =~= src@);
}

/// A chunk: a type tag and a payload whose length fits in 32 bits.
#[derive(Debug, PartialEq, Eq)]
pub struct Chunk {
    chunk_type: ChunkType,
    data: Vec<u8>,
}

impl View for Chunk {
    type V = ChunkView;

    closed spec fn view(&self) -> ChunkView {
        (self.chunk_type@, self.data@)
    }
}

impl Chunk {
    #[verifier::type_invariant]
    spec fn well_formed(self) -> bool {
        self.data@.len() <= u32::MAX
    }

    /// A chunk of the given type and payload.
    pub fn new(chunk_type: ChunkType, data: Vec<u8>) -> (r: Self)
        requires
            data@.len() <= u32::MAX,
        ensures
            r@ == (chunk_type@, data@),
    {
        Chunk { chunk_type, data }
    }

    /// The payload length.
    pub fn length(&self) -> (r: u32)
        ensures
            r == self@.1.len(),
    {
        proof {
            use_type_invariant(self);
        }
        self.data.len() as u32
    }

    pub fn chunk_type(&self) -> (r: &ChunkType)
        ensures
            r@ == self@.0,
    {
        &self.chunk_type
    }

    pub fn data(&self) -> (r: &[u8])
        ensures
            r@ == self@.1,
    {
        self.data.as_slice()
    }

    /// The payload read as UTF-8 text.
    pub fn data_as_string(&self) -> (r: Result<String, ChunkError>)
        ensures
            match r {
                Ok(s) => valid_utf8(self@.1) && s@ == decode_utf8(self@.1),
                Err(e) => !valid_utf8(self@.1) && e == ChunkError::InvalidEncoding,
            },
    {
        match str_from_utf8(self.data.as_slice()) {
            Some(s) => {
                proof {
                    encode_utf8_decode_utf8(s@);
                }
                Ok(s.to_owned())
            },
            None => Err(ChunkError::InvalidEncoding),
        }
    }

    /// The CRC-32 of the tag followed by the payload, computed afresh.
    pub fn crc(&self) -> (r: u32)
        ensures
            r == chunk_crc(self@.0, self@.1),
    {
        let crc = Crc::new();
        let crc = crc.update(self.chunk_type.bytes().as_slice());
        let crc = crc.update(self.data.as_slice());
        proof {
            lemma_crc_fold_append(crate::crc::INITIAL, self@.0, self@.1);
        }
        crc.get()
    }

    /// The wire form: length, tag, payload, CRC.
    pub fn as_bytes(&self) -> (r: Vec<u8>)
        ensures
            r@ == encode_chunk(self@.0, self@.1),
    {
        let mut result: Vec<u8> = Vec::new();
        push_be_u32(&mut result, self.length());
        push_all(&mut result, self.chunk_type.bytes().as_slice());
        push_all(&mut result, self.data.as_slice());
        push_be_u32(&mut result, self.crc());
        result
    }

    /// Reads one chunk from the front of `value` and hands back the bytes after it.
    pub fn parse_next(value: &[u8]) -> (r: Result<(Chunk, &[u8]), ChunkError>)
        ensures
            match r {
                Ok((c, rest)) => parse_next_spec(value@) == Ok::<(ChunkView, Seq<u8>), ChunkError>(
                    (c@, rest@),
                ),
                Err(e) => parse_next_spec(value@) == Err::<(ChunkView, Seq<u8>), ChunkError>(e),
            },
    {
        if value.len() < 12 {
            return Err(ChunkError::TooShort(value.len()));
        }
        let length = read_be_u32(value, 0);
        let tag: [u8; 4] = [value[4], value[5], value[6], value[7]];
        assert(tag@ =~= value@.subrange(4, 8));
        let chunk_type = match ChunkType::new(tag) {
            Ok(t) => t,
            Err(e) => {
                return Err(e);
            },
        };
        let available = value.len() - 12;
        if length as usize > available {
            return Err(ChunkError::LengthExceedsBuffer { declared: length, available });
        }
        let end = 8 + length as usize;
        let data = slice_to_vec(&value[8..end]);
        let stored = read_be_u32(value, end);
        let chunk = Chunk::new(chunk_type, data);
        let computed = chunk.crc();
        if stored != computed {
            Err(ChunkError::CrcMismatch { stored, computed })
        } else {
            Ok((chunk, &value[end + 4..value.len()]))
        }
    }

    /// Reads a chunk that fills all of `value`.
    pub fn try_from(value: &[u8]) -> (r: Result<Chunk, ChunkError>)
        ensures
            match r {
                Ok(c) => parse_spec(value@) == Ok::<ChunkView, ChunkError>(c@),
                Err(e) => parse_spec(value@) == Err::<ChunkView, ChunkError>(e),
            },
    {
        match Self::parse_next(value) {
            Ok((chunk, remaining)) => {
                if remaining.len() != 0 {
                    Err(ChunkError::TrailingData(remaining.len()))
                } else {
                    Ok(chunk)
                }
            },
            Err(ChunkError::LengthExceedsBuffer { declared, available }) => Err(
                ChunkError::LengthMismatch { declared, available },
            ),
            Err(e) => Err(e),
        }
    }
}

} // verus!
