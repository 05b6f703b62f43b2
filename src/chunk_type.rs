//! Chunk type tags: four ASCII letters whose case encodes four property bits.

use vstd::prelude::*;
use vstd::string::StringSliceAdditionalSpecFns;
use vstd::utf8::{
    encode_utf8, encode_utf8_decode_utf8, encode_utf8_valid_utf8, is_ascii_chars,
    is_ascii_chars_encode_utf8,
};

use crate::error::ChunkError;
use crate::text::str_from_utf8;

verus! {

pub open spec fn is_upper(b: u8) -> bool {
    65 <= b <= 90
}

pub open spec fn is_lower(b: u8) -> bool {
    97 <= b <= 122
}

pub open spec fn is_letter(b: u8) -> bool {
    is_upper(b) || is_lower(b)
}

/// A well-formed tag: exactly four ASCII letters.
pub open spec fn valid_tag(t: Seq<u8>) -> bool {
    &&& t.len() == 4
    &&& forall|i: int| 0 <= i < 4 ==> #[trigger] is_letter(t[i])
}

/// The first byte of a four-byte tag that is not a letter.
pub open spec fn first_non_letter(t: Seq<u8>) -> u8 {
    if !is_letter(t[0]) {
        t[0]
    } else if !is_letter(t[1]) {
        t[1]
    } else if !is_letter(t[2]) {
        t[2]
    } else {
        t[3]
    }
}

/// The outcome of reading a tag from raw bytes: the bytes themselves when
/// they are four letters, else the reason they are refused.
pub open spec fn tag_from_bytes(b: Seq<u8>) -> Result<Seq<u8>, ChunkError> {
    if b.len() != 4 {
        Err(ChunkError::WrongLength(b.len() as usize))
    } else if !valid_tag(b) {
        Err(ChunkError::InvalidCharacter(first_non_letter(b)))
    } else {
        Ok(b)
    }
}

/// The tag read as text, one character per byte.
pub open spec fn tag_text(t: Seq<u8>) -> Seq<char> {
    Seq::new(t.len(), |i: int| t[i] as char)
}

fn valid_chunk_character(value: u8) -> (r: bool)
    ensures
        r == is_letter(value),
{
    (value >= 65 && value <= 90) || (value >= 97 && value <= 122)
}

fn is_lowercase(value: u8) -> (r: bool)
    ensures
        r == is_lower(value),
{
    value >= 97 && value <= 122
}

/// A chunk type tag. Every byte is an ASCII letter.
#[derive(Debug, Eq)]
pub struct ChunkType {
    bytes: [u8; 4],
}

impl View for ChunkType {
    type V = Seq<u8>;

    closed spec fn view(&self) -> Seq<u8> {
        self.bytes@
    }
}

impl PartialEq for ChunkType {
    fn eq(&self, other: &ChunkType) -> (r: bool) {
        let a = &self.bytes;
        let b = &other.bytes;
        let r = a[0] == b[0] && a[1] == b[1] && a[2] == b[2] && a[3] == b[3];
        proof {
            if r {
                assert(self@ =~= other@);
            }
        }
        r
    }
}

impl vstd::std_specs::cmp::PartialEqSpecImpl for ChunkType {
    open spec fn obeys_eq_spec() -> bool {
        true
    }

    open spec fn eq_spec(&self, other: &ChunkType) -> bool {
        self@ == other@
    }
}

impl ChunkType {
    /// Every chunk type holds four letters.
    #[verifier::type_invariant]
    pub open spec fn well_formed(self) -> bool {
        valid_tag(self@)
    }

    /// Builds a type from four bytes, refusing any byte that is not an ASCII letter.
    pub fn new(value: [u8; 4]) -> (r: Result<Self, ChunkError>)
        ensures
            match r {
                Ok(t) => tag_from_bytes(value@) == Ok::<Seq<u8>, ChunkError>(t@),
                Err(e) => tag_from_bytes(value@) == Err::<Seq<u8>, ChunkError>(e),
            },
    {
        let mut i: usize = 0;
        while i < 4
            invariant
                i <= 4,
                value@.len() == 4,
                forall|j: int| 0 <= j < i ==> #[trigger] is_letter(value@[j]),
            decreases 4 - i,
        {
            if !valid_chunk_character(value[i]) {
                return Err(ChunkError::InvalidCharacter(value[i]));
            }
            i = i + 1;
        }
        Ok(ChunkType { bytes: value })
    }

    /// Same as `new`.
    pub fn try_from(value: [u8; 4]) -> (r: Result<Self, ChunkError>)
        ensures
            match r {
                Ok(t) => tag_from_bytes(value@) == Ok::<Seq<u8>, ChunkError>(t@),
                Err(e) => tag_from_bytes(value@) == Err::<Seq<u8>, ChunkError>(e),
            },
    {
        Self::new(value)
    }

    /// Reads a tag from text: its UTF-8 encoding must be four letters.
    pub fn from_str(s: &str) -> (r: Result<Self, ChunkError>)
        ensures
            match r {
                Ok(t) => tag_from_bytes(s.spec_bytes()) == Ok::<Seq<u8>, ChunkError>(t@),
                Err(e) => tag_from_bytes(s.spec_bytes()) == Err::<Seq<u8>, ChunkError>(e),
            },
    {
        let b = s.as_bytes();
        if b.len() != 4 {
            return Err(ChunkError::WrongLength(b.len()));
        }
        let value: [u8; 4] = [b[0], b[1], b[2], b[3]];
        assert(value@ =~= b@);
        Self::new(value)
    }

    /// The raw tag.
    pub fn bytes(&self) -> (r: &[u8; 4])
        ensures
            r@ == self@,
            valid_tag(self@),
    {
        proof {
            use_type_invariant(self);
        }
        &self.bytes
    }

    /// Whether the chunk is well-formed: the reserved bit is valid.
    pub fn is_valid(&self) -> (r: bool)
        ensures
            r == is_upper(self@[2]),
    {
        self.is_reserved_bit_valid()
    }

    /// Critical: the first letter is uppercase.
    pub fn is_critical(&self) -> (r: bool)
        ensures
            r == is_upper(self@[0]),
    {
        proof {
            use_type_invariant(self);
            assert(is_letter(self@[0]));
        }
        !is_lowercase(self.bytes[0])
    }

    /// Public: the second letter is uppercase.
    pub fn is_public(&self) -> (r: bool)
        ensures
            r == is_upper(self@[1]),
    {
        proof {
            use_type_invariant(self);
            assert(is_letter(self@[1]));
        }
        !is_lowercase(self.bytes[1])
    }

    /// Reserved bit valid: the third letter is uppercase.
    pub fn is_reserved_bit_valid(&self) -> (r: bool)
        ensures
            r == is_upper(self@[2]),
    {
        proof {
            use_type_invariant(self);
            assert(is_letter(self@[2]));
        }
        !is_lowercase(self.bytes[2])
    }

    /// Safe to copy: the fourth letter is lowercase.
    pub fn is_safe_to_copy(&self) -> (r: bool)
        ensures
            r == is_lower(self@[3]),
    {
        is_lowercase(self.bytes[3])
    }

    /// The tag as a four-character string.
    pub fn to_string(&self) -> (r: String)
        ensures
            r@ == tag_text(self@),
    {
        proof {
            use_type_invariant(self);
            let cs = tag_text(self@);
            assert forall|i: int| 0 <= i < cs.len() implies '\0' <= #[trigger] cs[i] <= '\u{7f}' by {
                assert(is_letter(self@[i]));
            }
            assert(is_ascii_chars(cs));
            is_ascii_chars_encode_utf8(cs);
            assert(encode_utf8(cs) =~= self@);
            encode_utf8_valid_utf8(cs);
        }
        let text = str_from_utf8(self.bytes.as_slice());
        let s = text.unwrap();
        proof {
            encode_utf8_decode_utf8(s@);
            encode_utf8_decode_utf8(tag_text(self@));
        }
        s.to_owned()
    }
}

} // verus!
