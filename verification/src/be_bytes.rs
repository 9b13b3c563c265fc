//! Big-endian encoding and decoding of 32-bit integers, the byte order used
//! by the PNG chunk format for length and CRC fields.
use vstd::prelude::*;
use vstd::assert_seqs_equal;

verus! {

/// The 4-byte big-endian encoding of `x`, most significant byte first.
pub open spec fn spec_u32_to_be_bytes(x: u32) -> Seq<u8> {
    seq![
        ((x >> 24) & 0xff) as u8,
        ((x >> 16) & 0xff) as u8,
        ((x >> 8) & 0xff) as u8,
        (x & 0xff) as u8,
    ]
}

/// The 32-bit integer whose big-endian encoding is the 4-byte sequence `s`.
pub open spec fn spec_u32_from_be_bytes(s: Seq<u8>) -> u32
    recommends
        s.len() == 4,
{
    (((s[0] as u32) << 24) | ((s[1] as u32) << 16) | ((s[2] as u32) << 8) | (s[3] as u32)) as u32
}

/// Big-endian encoding and decoding of 32-bit integers invert each other.
pub proof fn lemma_u32_be_bytes_round_trip()
    ensures
        forall|x: u32|
            {
                &&& (#[trigger] spec_u32_to_be_bytes(x)).len() == 4
                &&& spec_u32_from_be_bytes(spec_u32_to_be_bytes(x)) == x
            },
        forall|s: Seq<u8>|
            s.len() == 4 ==> #[trigger] spec_u32_to_be_bytes(spec_u32_from_be_bytes(s)) == s,
{
    assert forall|x: u32|
        {
            &&& (#[trigger] spec_u32_to_be_bytes(x)).len() == 4
            &&& spec_u32_from_be_bytes(spec_u32_to_be_bytes(x)) == x
        } by {
        let b0: u32 = (x >> 24) & 0xff;
        let b1: u32 = (x >> 16) & 0xff;
        let b2: u32 = (x >> 8) & 0xff;
        let b3: u32 = x & 0xff;
        assert(b0 < 256 && b1 < 256 && b2 < 256 && b3 < 256) by (bit_vector)
            requires
                b0 == (x >> 24) & 0xff,
                b1 == (x >> 16) & 0xff,
                b2 == (x >> 8) & 0xff,
                b3 == x & 0xff,
        ;
        assert(x == (b0 << 24 | b1 << 16 | b2 << 8 | b3) as u32) by (bit_vector)
            requires
                b0 == (x >> 24) & 0xff,
                b1 == (x >> 16) & 0xff,
                b2 == (x >> 8) & 0xff,
                b3 == x & 0xff,
        ;
    };
    assert forall|s: Seq<u8>| s.len() == 4 implies #[trigger] spec_u32_to_be_bytes(
        spec_u32_from_be_bytes(s),
    ) == s by {
        let x = spec_u32_from_be_bytes(s);
        let s0 = s[0] as u32;
        let s1 = s[1] as u32;
        let s2 = s[2] as u32;
        let s3 = s[3] as u32;
        assert(s0 == (x >> 24) & 0xff && s1 == (x >> 16) & 0xff && s2 == (x >> 8) & 0xff && s3
            == x & 0xff) by (bit_vector)
            requires
                x == (s0 << 24 | s1 << 16 | s2 << 8 | s3) as u32,
                s0 < 256 && s1 < 256 && s2 < 256 && s3 < 256,
        ;
        assert_seqs_equal!(spec_u32_to_be_bytes(spec_u32_from_be_bytes(s)) == s);
    };
}

/// Encodes `x` as 4 bytes, most significant first.
pub fn u32_to_be_bytes(x: u32) -> (r: Vec<u8>)
    ensures
        r@ == spec_u32_to_be_bytes(x),
{
    let b0: u32 = (x >> 24) & 0xff;
    let b1: u32 = (x >> 16) & 0xff;
    let b2: u32 = (x >> 8) & 0xff;
    let b3: u32 = x & 0xff;
    proof {
        assert(b0 < 256 && b1 < 256 && b2 < 256 && b3 < 256) by (bit_vector)
            requires
                b0 == (x >> 24) & 0xff,
                b1 == (x >> 16) & 0xff,
                b2 == (x >> 8) & 0xff,
                b3 == x & 0xff,
        ;
    }
    let mut r: Vec<u8> = Vec::new();
    r.push(b0 as u8);
    r.push(b1 as u8);
    r.push(b2 as u8);
    r.push(b3 as u8);
    proof {
        assert(r@ =~= spec_u32_to_be_bytes(x));
    }
    r
}

/// Decodes 4 bytes given most significant first.
pub fn u32_from_be_bytes(b0: u8, b1: u8, b2: u8, b3: u8) -> (r: u32)
    ensures
        r == spec_u32_from_be_bytes(seq![b0, b1, b2, b3]),
{
    let x0: u32 = (b0 as u32) << 24;
    let x1: u32 = (b1 as u32) << 16;
    let x2: u32 = (b2 as u32) << 8;
    let x3: u32 = b3 as u32;
    let r = x0 | x1 | x2 | x3;
    proof {
        let s = seq![b0, b1, b2, b3];
        assert(s[0] == b0 && s[1] == b1 && s[2] == b2 && s[3] == b3);
    }
    r
}

} // verus!
