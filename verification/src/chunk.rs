//! One PNG chunk: a length-prefixed, type-tagged, CRC-checked binary record.
use crate::be_bytes::{
    lemma_u32_be_bytes_round_trip, spec_u32_from_be_bytes, spec_u32_to_be_bytes, u32_from_be_bytes,
    u32_to_be_bytes,
};
use crate::chunk_type::{spec_is_ascii_uppercase, spec_tag_letters, spec_tag_valid, ChunkType};
use crate::errors::{res_view, Error, ErrorSpec};
use crate::text::string_from_utf8;
use vstd::prelude::*;
use vstd::slice::{slice_subrange, slice_to_vec};
use vstd::utf8::{decode_utf8, valid_utf8};

verus! {

/// The checksum that `crc32fast::hash` computes for a byte sequence: CRC-32 as
/// used by PNG. Contracts treat it as an unspecified pure function of the bytes.
pub uninterp spec fn crc32_of(bytes: Seq<u8>) -> u32;

/// Relies on `crc32fast::hash`: the CRC-32 (IEEE) checksum of the buffer, a
/// pure function of the input bytes, the variant used by zlib and PNG.
#[verifier::external_body]
fn crc32_hash(bytes: &Vec<u8>) -> (r: u32)
    ensures
        r == crc32_of(bytes@),
{
    crc32fast::hash(bytes.as_slice())
}

/// Mathematical content of a chunk: the stored length and CRC fields together
/// with the tag bytes and the payload bytes.
#[verifier::ext_equal]
pub struct ChunkModel {
    pub length: u32,
    pub type_bytes: Seq<u8>,
    pub data: Seq<u8>,
    pub crc: u32,
}

impl ChunkModel {
    /// Structural constraints: a 4-letter tag and a length field that counts
    /// the payload bytes.
    pub open spec fn shape_wf(self) -> bool {
        &&& self.type_bytes.len() == 4
        &&& spec_tag_letters(self.type_bytes)
        &&& self.length == self.data.len()
        &&& self.data.len() <= u32::MAX
    }

    /// Full well-formedness: the shape above, and a CRC field that equals the
    /// checksum of the tag bytes followed by the payload.
    pub open spec fn wf(self) -> bool {
        &&& self.shape_wf()
        &&& self.crc == crc32_of(self.type_bytes + self.data)
    }

    /// Valid as the parser demands: well formed, with an uppercase reserved
    /// byte, so the chunk's serialization parses back.
    pub open spec fn valid(self) -> bool {
        &&& self.wf()
        &&& spec_is_ascii_uppercase(self.type_bytes[2])
    }
}

/// The serialized form of a chunk: big-endian length, 4 tag bytes, payload,
/// big-endian CRC.
pub open spec fn spec_chunk_bytes(m: ChunkModel) -> Seq<u8> {
    spec_u32_to_be_bytes(m.length) + m.type_bytes + m.data + spec_u32_to_be_bytes(m.crc)
}

/// The model of a chunk built fresh from tag `t` and payload `d`: length and
/// CRC are computed, never taken on trust.
pub open spec fn spec_chunk_model(t: Seq<u8>, d: Seq<u8>) -> ChunkModel
    recommends
        d.len() <= u32::MAX,
{
    ChunkModel { length: d.len() as u32, type_bytes: t, data: d, crc: crc32_of(t + d) }
}

/// Parses one chunk from the front of `b`, returning its model and the number
/// of bytes it occupies. Mirrors, in order: the header must fit, the tag must
/// be 4 ASCII letters with a valid reserved byte, the declared payload and the
/// trailing CRC must fit, and the stored CRC must match the recomputed one.
pub open spec fn spec_parse_one_chunk(b: Seq<u8>) -> Result<(ChunkModel, int), ErrorSpec> {
    if b.len() < 12 {
        Err(ErrorSpec::InputTooSmall)
    } else {
        let length = spec_u32_from_be_bytes(b.subrange(0, 4)) as int;
        let t = b.subrange(4, 8);
        if !spec_tag_letters(t) {
            Err(ErrorSpec::InvalidCharacterSet(t))
        } else if !spec_is_ascii_uppercase(t[2]) {
            Err(ErrorSpec::InvalidReservedBit(t))
        } else if b.len() - 12 < length {
            Err(ErrorSpec::InputTooSmall)
        } else {
            let d = b.subrange(8, 8 + length);
            let crc = spec_u32_from_be_bytes(b.subrange(8 + length, 12 + length));
            if crc != crc32_of(t + d) {
                Err(ErrorSpec::CrcMismatch)
            } else {
                Ok(
                    (
                        ChunkModel { length: length as u32, type_bytes: t, data: d, crc },
                        12 + length,
                    ),
                )
            }
        }
    }
}

/// Parses a buffer that must hold exactly one chunk, as `Chunk::from_bytes`
/// does: trailing bytes beyond the declared record are an error.
pub open spec fn spec_parse_chunk(b: Seq<u8>) -> Result<ChunkModel, ErrorSpec> {
    match spec_parse_one_chunk(b) {
        Ok((m, n)) => if n == b.len() {
            Ok(m)
        } else {
            Err(ErrorSpec::InvalidSize { size: b.len() })
        },
        Err(e) => Err(e),
    }
}

/// Parsing one chunk from the front of a stream that starts with a serialized
/// record is decided by the stored CRC field: with the correct checksum the
/// record parses back exactly, with any other value it is a CRC mismatch.
pub proof fn lemma_parse_one_of_chunk_bytes(t: Seq<u8>, d: Seq<u8>, stored: u32, rest: Seq<u8>)
    requires
        t.len() == 4,
        spec_tag_letters(t),
        spec_is_ascii_uppercase(t[2]),
        d.len() <= u32::MAX,
    ensures
        ({
            let m = ChunkModel { length: d.len() as u32, type_bytes: t, data: d, crc: stored };
            let b = spec_chunk_bytes(m) + rest;
            &&& stored == crc32_of(t + d) ==> spec_parse_one_chunk(b) == Ok::<
                (ChunkModel, int),
                ErrorSpec,
            >((m, 12 + d.len() as int))
            &&& stored != crc32_of(t + d) ==> spec_parse_one_chunk(b) == Err::<
                (ChunkModel, int),
                ErrorSpec,
            >(ErrorSpec::CrcMismatch)
        }),
{
    lemma_u32_be_bytes_round_trip();
    let m = ChunkModel { length: d.len() as u32, type_bytes: t, data: d, crc: stored };
    let b = spec_chunk_bytes(m) + rest;
    assert(b.len() == 12 + d.len() + rest.len());
    assert(b.subrange(0, 4) =~= spec_u32_to_be_bytes(m.length));
    let length = spec_u32_from_be_bytes(b.subrange(0, 4)) as int;
    assert(length == d.len());
    assert(b.subrange(4, 8) =~= t);
    assert(b.subrange(8, 8 + length) =~= d);
    assert(b.subrange(8 + length, 12 + length) =~= spec_u32_to_be_bytes(stored));
    assert(spec_u32_from_be_bytes(b.subrange(8 + length, 12 + length)) == stored);
    if stored == crc32_of(t + d) {
        assert(spec_parse_one_chunk(b)->Ok_0.0 =~= m);
    }
}

/// A valid chunk at the front of a stream parses back exactly and occupies
/// exactly its serialized bytes.
pub proof fn lemma_parse_one_prefix(m: ChunkModel, rest: Seq<u8>)
    requires
        m.valid(),
    ensures
        spec_chunk_bytes(m).len() == 12 + m.data.len(),
        spec_parse_one_chunk(spec_chunk_bytes(m) + rest) == Ok::<(ChunkModel, int), ErrorSpec>(
            (m, 12 + m.data.len() as int),
        ),
        (spec_chunk_bytes(m) + rest).skip(12 + m.data.len() as int) == rest,
{
    lemma_u32_be_bytes_round_trip();
    lemma_parse_one_of_chunk_bytes(m.type_bytes, m.data, m.crc, rest);
    assert(ChunkModel {
        length: m.data.len() as u32,
        type_bytes: m.type_bytes,
        data: m.data,
        crc: m.crc,
    } =~= m);
    assert((spec_chunk_bytes(m) + rest).skip(12 + m.data.len() as int) =~= rest);
}

/// Round trip: a chunk built from a valid tag and any payload parses back from
/// its own serialization, equal in length, type, data, and CRC.
pub proof fn lemma_chunk_round_trip(t: Seq<u8>, d: Seq<u8>)
    requires
        spec_tag_valid(t),
        d.len() <= u32::MAX,
    ensures
        spec_parse_chunk(spec_chunk_bytes(spec_chunk_model(t, d))) == Ok::<ChunkModel, ErrorSpec>(
            spec_chunk_model(t, d),
        ),
{
    lemma_parse_one_of_chunk_bytes(t, d, crc32_of(t + d), Seq::empty());
    let m = spec_chunk_model(t, d);
    assert(spec_chunk_bytes(m) + Seq::<u8>::empty() =~= spec_chunk_bytes(m));
    lemma_u32_be_bytes_round_trip();
    assert(spec_chunk_bytes(m).len() == 12 + d.len());
}

/// CRC gate: a serialized record whose stored CRC field holds anything other
/// than the checksum of its tag and payload is rejected as a CRC mismatch, so
/// no altered CRC field survives a re-parse.
pub proof fn lemma_crc_gate(t: Seq<u8>, d: Seq<u8>, stored: u32)
    requires
        spec_tag_valid(t),
        d.len() <= u32::MAX,
    ensures
        stored != crc32_of(t + d) ==> spec_parse_chunk(
            spec_chunk_bytes(
                ChunkModel { length: d.len() as u32, type_bytes: t, data: d, crc: stored },
            ),
        ) == Err::<ChunkModel, ErrorSpec>(ErrorSpec::CrcMismatch),
{
    lemma_parse_one_of_chunk_bytes(t, d, stored, Seq::empty());
    let m = ChunkModel { length: d.len() as u32, type_bytes: t, data: d, crc: stored };
    assert(spec_chunk_bytes(m) + Seq::<u8>::empty() =~= spec_chunk_bytes(m));
}

/// One chunk parsed from the front of a stream reconstructs the bytes it was
/// parsed from: the record is valid and serializes to exactly what it occupied.
pub proof fn lemma_parse_one_reconstructs(b: Seq<u8>)
    ensures
        spec_parse_one_chunk(b) matches Ok((m, n)) ==> 12 <= n <= b.len() && spec_chunk_bytes(m)
            == b.subrange(0, n) && m.valid(),
{
    if spec_parse_one_chunk(b) is Ok {
        lemma_u32_be_bytes_round_trip();
        let (m, n) = spec_parse_one_chunk(b)->Ok_0;
        let length = spec_u32_from_be_bytes(b.subrange(0, 4)) as int;
        assert(b.subrange(0, 4).len() == 4);
        assert(spec_u32_to_be_bytes(m.length) == b.subrange(0, 4));
        assert(b.subrange(8 + length, 12 + length).len() == 4);
        assert(spec_u32_to_be_bytes(m.crc) == b.subrange(8 + length, 12 + length));
        assert(spec_chunk_bytes(m) =~= b.subrange(0, n));
    }
}

/// One length-prefixed, type-tagged, CRC-checked record of a PNG file.
#[derive(Debug, PartialEq, Eq)]
pub struct Chunk {
    length: u32,
    chunk_type: ChunkType,
    chunk_data: Vec<u8>,
    crc: u32,
}

impl View for Chunk {
    type V = ChunkModel;

    closed spec fn view(&self) -> ChunkModel {
        ChunkModel {
            length: self.length,
            type_bytes: self.chunk_type@,
            data: self.chunk_data@,
            crc: self.crc,
        }
    }
}

/// Computes the CRC field of a chunk: the checksum of the 4 tag bytes followed
/// by the payload bytes.
pub(crate) fn calculate_crc(chunk_type: &ChunkType, chunk_data: &Vec<u8>) -> (r: u32)
    ensures
        r == crc32_of(chunk_type@ + chunk_data@),
{
    let tag = chunk_type.bytes();
    let mut input: Vec<u8> = Vec::new();
    input.push(tag[0]);
    input.push(tag[1]);
    input.push(tag[2]);
    input.push(tag[3]);
    input.extend_from_slice(chunk_data.as_slice());
    proof {
        assert forall|i: int| 0 <= i < input@.len() implies input@[i] == (chunk_type@
            + chunk_data@)[i] by {
            if i >= 4 {
                assert(cloned::<u8>(chunk_data@[i - 4], input@[i]));
            }
        }
        assert(input@ =~= chunk_type@ + chunk_data@);
    }
    crc32_hash(&input)
}

impl Chunk {
    /// Every constructed chunk satisfies this: its model is well formed, so the
    /// stored length counts the payload and the stored CRC is the recomputed one.
    pub open spec fn wf(&self) -> bool {
        self@.wf()
    }

    /// Builds a chunk from a tag and a payload; the length and CRC fields are
    /// computed, so this never fails.
    pub fn new(chunk_type: ChunkType, data: Vec<u8>) -> (r: Chunk)
        requires
            data@.len() <= u32::MAX,
        ensures
            r@ == spec_chunk_model(chunk_type@, data@),
            chunk_type.wf() ==> r.wf(),
    {
        let crc = calculate_crc(&chunk_type, &data);
        let length = data.len() as u32;
        let r = Chunk { length, chunk_type, chunk_data: data, crc };
        proof {
            assert(r@ =~= spec_chunk_model(r@.type_bytes, r@.data));
        }
        r
    }

    /// The stored CRC field.
    pub fn crc(&self) -> (r: u32)
        ensures
            r == self@.crc,
    {
        self.crc
    }

    /// The stored length field.
    pub fn length(&self) -> (r: u32)
        ensures
            r == self@.length,
    {
        self.length
    }

    /// The chunk's type tag.
    pub fn chunk_type(&self) -> (r: &ChunkType)
        ensures
            r@ == self@.type_bytes,
    {
        &self.chunk_type
    }

    /// The payload bytes.
    pub fn data(&self) -> (r: &[u8])
        ensures
            r@ == self@.data,
    {
        self.chunk_data.as_slice()
    }

    /// The payload decoded as UTF-8 text; fails exactly when the payload is
    /// not valid UTF-8.
    pub fn data_as_string(&self) -> (r: Result<String, Error>)
        ensures
            r is Ok <==> valid_utf8(self@.data),
            r matches Ok(s) ==> s@ == decode_utf8(self@.data),
            r matches Err(e) ==> e@ == ErrorSpec::InvalidUtf8,
    {
        let owned = self.chunk_data.clone();
        proof {
            assert forall|i: int| 0 <= i < owned@.len() implies owned@[i] == self@.data[i] by {
                assert(cloned::<u8>(self.chunk_data[i], owned[i]));
            }
            assert(owned@ =~= self@.data);
        }
        match string_from_utf8(owned) {
            Some(s) => Ok(s),
            None => Err(Error::InvalidUtf8),
        }
    }

    /// Serializes the chunk: big-endian length, tag bytes, payload, big-endian
    /// CRC. The exact inverse of `from_bytes` for well-formed chunks.
    pub fn as_bytes(&self) -> (r: Vec<u8>)
        ensures
            r@ == spec_chunk_bytes(self@),
    {
        let mut out = u32_to_be_bytes(self.length);
        let tag = self.chunk_type.bytes();
        out.push(tag[0]);
        out.push(tag[1]);
        out.push(tag[2]);
        out.push(tag[3]);
        let ghost with_tag = out@;
        out.extend_from_slice(self.chunk_data.as_slice());
        proof {
            assert forall|i: int| 0 <= i < out@.len() implies out@[i] == (with_tag
                + self@.data)[i] by {
                if i >= with_tag.len() {
                    assert(cloned::<u8>(self.chunk_data@[i - with_tag.len()], out@[i]));
                }
            }
            assert(out@ =~= with_tag + self@.data);
        }
        let mut crc_bytes = u32_to_be_bytes(self.crc);
        out.append(&mut crc_bytes);
        proof {
            assert(out@ =~= spec_chunk_bytes(self@));
        }
        out
    }

    /// Parses one chunk starting at `pos` in `raw`, returning the chunk and
    /// the position just past it.
    pub(crate) fn parse_at(raw: &[u8], pos: usize) -> (r: Result<(Chunk, usize), Error>)
        requires
            pos <= raw@.len(),
        ensures
            match spec_parse_one_chunk(raw@.skip(pos as int)) {
                Ok((m, n)) => r matches Ok((c, q)) && c@ == m && q == pos + n && c.wf() && pos < q
                    <= raw@.len(),
                Err(e) => r matches Err(x) && x@ == e,
            },
    {
        let ghost b = raw@.skip(pos as int);
        if raw.len() - pos < 12 {
            return Err(Error::InputTooSmall);
        }
        let length_u32 = u32_from_be_bytes(raw[pos], raw[pos + 1], raw[pos + 2], raw[pos + 3]);
        proof {
            assert(seq![raw@[pos as int], raw@[pos + 1], raw@[pos + 2], raw@[pos + 3]] =~= b
                .subrange(0, 4));
        }
        let tag: [u8; 4] = [raw[pos + 4], raw[pos + 5], raw[pos + 6], raw[pos + 7]];
        proof {
            assert(tag@ =~= b.subrange(4, 8));
        }
        let chunk_type = match ChunkType::from_bytes(tag) {
            Ok(t) => t,
            Err(e) => {
                return Err(e);
            },
        };
        let length = length_u32 as usize;
        if raw.len() - pos - 12 < length {
            return Err(Error::InputTooSmall);
        }
        let data = slice_to_vec(slice_subrange(raw, pos + 8, pos + 8 + length));
        proof {
            assert(data@ =~= b.subrange(8, 8 + length as int));
        }
        let crc = u32_from_be_bytes(
            raw[pos + 8 + length],
            raw[pos + 9 + length],
            raw[pos + 10 + length],
            raw[pos + 11 + length],
        );
        proof {
            assert(seq![
                raw@[pos + 8 + length],
                raw@[pos + 9 + length],
                raw@[pos + 10 + length],
                raw@[pos + 11 + length],
            ] =~= b.subrange(8 + length as int, 12 + length as int));
        }
        let computed = calculate_crc(&chunk_type, &data);
        if crc != computed {
            return Err(Error::CrcMismatch);
        }
        let c = Chunk { length: length_u32, chunk_type, chunk_data: data, crc };
        Ok((c, pos + 12 + length))
    }

    /// Parses a buffer holding exactly one serialized chunk. Fails with a size
    /// error when the buffer is shorter than the declared record demands or
    /// holds trailing bytes beyond it; fails with the tag's own error when the
    /// tag is malformed; fails with a CRC mismatch when the stored CRC differs
    /// from the checksum recomputed over tag and payload.
    pub fn from_bytes(raw: &[u8]) -> (r: Result<Chunk, Error>)
        ensures
            res_view(r) == spec_parse_chunk(raw@),
            r matches Ok(c) ==> c.wf(),
    {
        proof {
            assert(raw@.skip(0) =~= raw@);
        }
        match Self::parse_at(raw, 0) {
            Ok((c, q)) => {
                if q == raw.len() {
                    Ok(c)
                } else {
                    Err(Error::InvalidSize { size: raw.len() })
                }
            },
            Err(e) => Err(e),
        }
    }
}

} // verus!
