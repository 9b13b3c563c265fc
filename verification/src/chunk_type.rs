//! The 4-byte PNG chunk-type tag with its per-byte case flags.
use crate::errors::{Error, ErrorSpec};
use crate::text::{lemma_ascii_bytes_decode, string_from_utf8};
use vstd::prelude::*;
use vstd::string::StringSliceAdditionalSpecFns;

verus! {

/// True when `b` is an ASCII letter, `A`-`Z` or `a`-`z`.
pub open spec fn spec_is_ascii_letter(b: u8) -> bool {
    (65 <= b && b <= 90) || (97 <= b && b <= 122)
}

/// True when `b` is an uppercase ASCII letter.
pub open spec fn spec_is_ascii_uppercase(b: u8) -> bool {
    65 <= b && b <= 90
}

/// True when `b` is a lowercase ASCII letter.
pub open spec fn spec_is_ascii_lowercase(b: u8) -> bool {
    97 <= b && b <= 122
}

/// Every byte of the tag is an ASCII letter.
pub open spec fn spec_tag_letters(t: Seq<u8>) -> bool {
    forall|i: int| 0 <= i < t.len() ==> spec_is_ascii_letter(#[trigger] t[i])
}

/// A fully valid tag: 4 ASCII letters whose reserved byte (byte 2) is uppercase.
pub open spec fn spec_tag_valid(t: Seq<u8>) -> bool {
    t.len() == 4 && spec_tag_letters(t) && spec_is_ascii_uppercase(t[2])
}

/// A 4-byte ASCII chunk-type tag. Each byte's case carries one flag:
/// byte 0 uppercase means critical, byte 1 uppercase means public,
/// byte 2 uppercase means the reserved bit is valid, and byte 3 lowercase
/// means safe to copy.
#[derive(Debug, Clone, Copy, PartialEq, Eq)]
pub struct ChunkType {
    bytes: [u8; 4],
}

impl View for ChunkType {
    type V = Seq<u8>;

    closed spec fn view(&self) -> Seq<u8> {
        self.bytes@
    }
}

/// Checks whether `b` is an ASCII letter.
fn is_ascii_letter_byte(b: u8) -> (r: bool)
    ensures
        r == spec_is_ascii_letter(b),
{
    (65 <= b && b <= 90) || (97 <= b && b <= 122)
}

/// Copies a 4-byte tag into an owned byte vector.
fn tag_to_vec(bytes: &[u8; 4]) -> (r: Vec<u8>)
    ensures
        r@ == bytes@,
{
    let mut r: Vec<u8> = Vec::new();
    r.push(bytes[0]);
    r.push(bytes[1]);
    r.push(bytes[2]);
    r.push(bytes[3]);
    proof {
        assert(r@ =~= bytes@);
    }
    r
}

impl ChunkType {
    /// Invariant established by both constructors: the tag is 4 ASCII letters.
    pub open spec fn wf(&self) -> bool {
        self@.len() == 4 && spec_tag_letters(self@)
    }

    /// The raw 4 tag bytes.
    pub fn bytes(&self) -> (r: [u8; 4])
        ensures
            r@ == self@,
    {
        self.bytes
    }

    /// Builds a tag from 4 raw bytes, as read from a file. Rejects bytes
    /// outside the ASCII-letter range, and a lowercase reserved byte.
    pub fn from_bytes(bytes: [u8; 4]) -> (r: Result<ChunkType, Error>)
        ensures
            r is Ok <==> spec_tag_valid(bytes@),
            r matches Ok(t) ==> t@ == bytes@ && t.wf(),
            !spec_tag_letters(bytes@) ==> (r matches Err(e) && e@ == ErrorSpec::InvalidCharacterSet(
                bytes@,
            )),
            spec_tag_letters(bytes@) && !spec_is_ascii_uppercase(bytes@[2]) ==> (r matches Err(e)
                && e@ == ErrorSpec::InvalidReservedBit(bytes@)),
    {
        let letters = is_ascii_letter_byte(bytes[0]) && is_ascii_letter_byte(bytes[1])
            && is_ascii_letter_byte(bytes[2]) && is_ascii_letter_byte(bytes[3]);
        if !letters {
            return Err(Error::InvalidCharacterSet(tag_to_vec(&bytes)));
        }
        if !(65 <= bytes[2] && bytes[2] <= 90) {
            return Err(Error::InvalidReservedBit(tag_to_vec(&bytes)));
        }
        Ok(ChunkType { bytes })
    }

    /// Builds a tag from a 4-character string, as typed by a caller. Rejects a
    /// wrong length or non-letter characters; a lowercase reserved byte is
    /// accepted here and only reported by `is_valid`.
    pub fn from_string(s: &str) -> (r: Result<ChunkType, Error>)
        ensures
            r is Ok <==> s.spec_bytes().len() == 4 && spec_tag_letters(s.spec_bytes()),
            r matches Ok(t) ==> t@ == s.spec_bytes() && t.wf(),
            s.spec_bytes().len() != 4 ==> (r matches Err(e) && e@ == ErrorSpec::InvalidSize {
                size: s.spec_bytes().len(),
            }),
            s.spec_bytes().len() == 4 && !spec_tag_letters(s.spec_bytes()) ==> (r matches Err(e)
                && e@ == ErrorSpec::InvalidCharacterSet(s.spec_bytes())),
    {
        let b = s.as_bytes();
        if b.len() != 4 {
            return Err(Error::InvalidSize { size: b.len() });
        }
        let bytes: [u8; 4] = [b[0], b[1], b[2], b[3]];
        proof {
            assert(bytes@ =~= s.spec_bytes());
        }
        let letters = is_ascii_letter_byte(bytes[0]) && is_ascii_letter_byte(bytes[1])
            && is_ascii_letter_byte(bytes[2]) && is_ascii_letter_byte(bytes[3]);
        if !letters {
            return Err(Error::InvalidCharacterSet(tag_to_vec(&bytes)));
        }
        Ok(ChunkType { bytes })
    }

    /// True exactly when all 4 bytes are ASCII letters and the reserved byte
    /// (byte 2) is uppercase.
    pub fn is_valid(&self) -> (r: bool)
        ensures
            r == spec_tag_valid(self@),
    {
        let letters = is_ascii_letter_byte(self.bytes[0]) && is_ascii_letter_byte(self.bytes[1])
            && is_ascii_letter_byte(self.bytes[2]) && is_ascii_letter_byte(self.bytes[3]);
        letters && self.is_reserved_bit_valid()
    }

    /// Byte 0 uppercase: the chunk is critical (ancillary chunks are lowercase).
    pub fn is_critical(&self) -> (r: bool)
        ensures
            r == spec_is_ascii_uppercase(self@[0]),
    {
        65 <= self.bytes[0] && self.bytes[0] <= 90
    }

    /// Byte 1 uppercase: the chunk type is public.
    pub fn is_public(&self) -> (r: bool)
        ensures
            r == spec_is_ascii_uppercase(self@[1]),
    {
        65 <= self.bytes[1] && self.bytes[1] <= 90
    }

    /// Byte 2 uppercase: the reserved bit is valid.
    pub fn is_reserved_bit_valid(&self) -> (r: bool)
        ensures
            r == spec_is_ascii_uppercase(self@[2]),
    {
        65 <= self.bytes[2] && self.bytes[2] <= 90
    }

    /// Byte 3 lowercase: the chunk is safe to copy.
    pub fn is_safe_to_copy(&self) -> (r: bool)
        ensures
            r == spec_is_ascii_lowercase(self@[3]),
    {
        97 <= self.bytes[3] && self.bytes[3] <= 122
    }

    /// Byte-exact comparison of two tags.
    pub fn matches(&self, other: &ChunkType) -> (r: bool)
        ensures
            r == (self@ == other@),
    {
        let r = self.bytes[0] == other.bytes[0] && self.bytes[1] == other.bytes[1]
            && self.bytes[2] == other.bytes[2] && self.bytes[3] == other.bytes[3];
        proof {
            if r {
                assert(self@ =~= other@);
            }
        }
        r
    }

    /// The 4 ASCII bytes decoded as text.
    pub fn to_string(&self) -> (r: String)
        requires
            self.wf(),
        ensures
            r@ == self@.map_values(|b: u8| b as char),
            r@.len() == 4,
    {
        proof {
            lemma_ascii_bytes_decode(self@);
        }
        let owned = tag_to_vec(&self.bytes);
        match string_from_utf8(owned) {
            Some(s) => s,
            None => unreached(),
        }
    }
}

} // verus!
