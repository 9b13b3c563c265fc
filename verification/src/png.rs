//! The PNG container: an 8-byte signature followed by an ordered chunk list.
use crate::chunk::{
    lemma_parse_one_prefix, lemma_parse_one_reconstructs, spec_chunk_bytes, spec_parse_one_chunk,
    Chunk, ChunkModel,
};
use crate::chunk_type::{spec_is_ascii_uppercase, ChunkType};
use crate::errors::{res_view, Error, ErrorSpec};
use vstd::prelude::*;

verus! {

/// The fixed 8-byte PNG file signature.
pub open spec fn spec_png_signature() -> Seq<u8> {
    seq![0x89u8, 0x50u8, 0x4eu8, 0x47u8, 0x0du8, 0x0au8, 0x1au8, 0x0au8]
}

/// The concatenated serialized forms of a sequence of chunks.
pub open spec fn spec_chunks_bytes(ms: Seq<ChunkModel>) -> Seq<u8>
    decreases ms.len(),
{
    if ms.len() == 0 {
        Seq::empty()
    } else {
        spec_chunk_bytes(ms.first()) + spec_chunks_bytes(ms.drop_first())
    }
}

/// The serialized form of a whole file: signature, then every chunk in order.
pub open spec fn spec_png_bytes(ms: Seq<ChunkModel>) -> Seq<u8> {
    spec_png_signature() + spec_chunks_bytes(ms)
}

/// Parses chunks from `b` until it is exhausted; any chunk-level failure
/// rejects the whole buffer.
pub open spec fn spec_parse_chunks(b: Seq<u8>) -> Result<Seq<ChunkModel>, ErrorSpec>
    decreases b.len(),
{
    if b.len() == 0 {
        Ok(Seq::empty())
    } else {
        match spec_parse_one_chunk(b) {
            Err(e) => Err(e),
            Ok((m, n)) => match spec_parse_chunks(b.skip(n)) {
                Err(e) => Err(e),
                Ok(rest) => Ok(seq![m] + rest),
            },
        }
    }
}

/// Parses a whole file: the signature must be present and exact, then every
/// chunk must parse, with nothing left over.
pub open spec fn spec_parse_png(b: Seq<u8>) -> Result<Seq<ChunkModel>, ErrorSpec> {
    if b.len() < 8 {
        Err(ErrorSpec::InputTooSmall)
    } else if b.subrange(0, 8) != spec_png_signature() {
        Err(ErrorSpec::InvalidPngSignature)
    } else {
        spec_parse_chunks(b.skip(8))
    }
}

/// The chunks of `ms` whose tag is `t`, in order.
pub open spec fn spec_select_by_type(ms: Seq<ChunkModel>, t: Seq<u8>) -> Seq<ChunkModel>
    decreases ms.len(),
{
    if ms.len() == 0 {
        Seq::empty()
    } else if ms.first().type_bytes == t {
        seq![ms.first()] + spec_select_by_type(ms.drop_first(), t)
    } else {
        spec_select_by_type(ms.drop_first(), t)
    }
}

/// The index of the first chunk of `ms` whose tag is `t`; `ms.len()` when none
/// matches.
pub open spec fn spec_first_with_type(ms: Seq<ChunkModel>, t: Seq<u8>) -> int
    decreases ms.len(),
{
    if ms.len() == 0 {
        0
    } else if ms.first().type_bytes == t {
        0
    } else {
        1 + spec_first_with_type(ms.drop_first(), t)
    }
}

/// True when some chunk of `ms` has tag `t`.
pub open spec fn spec_has_type(ms: Seq<ChunkModel>, t: Seq<u8>) -> bool {
    spec_first_with_type(ms, t) < ms.len()
}

/// Where a new chunk goes: immediately before the trailer chunk, so the
/// trailer stays last; into an empty list it goes alone.
pub open spec fn spec_insert_between(ms: Seq<ChunkModel>, m: ChunkModel) -> Seq<ChunkModel> {
    if ms.len() == 0 {
        seq![m]
    } else {
        ms.insert(ms.len() - 1, m)
    }
}

/// `spec_first_with_type` points at the first match: everything before it has
/// another tag, and what it points at (when in range) has tag `t`.
pub proof fn lemma_first_with_type(ms: Seq<ChunkModel>, t: Seq<u8>)
    ensures
        0 <= spec_first_with_type(ms, t) <= ms.len(),
        forall|j: int|
            0 <= j < spec_first_with_type(ms, t) ==> (#[trigger] ms[j]).type_bytes != t,
        spec_has_type(ms, t) ==> ms[spec_first_with_type(ms, t)].type_bytes == t,
    decreases ms.len(),
{
    if ms.len() == 0 {
    } else if ms.first().type_bytes == t {
    } else {
        lemma_first_with_type(ms.drop_first(), t);
        let rest = ms.drop_first();
        let f = spec_first_with_type(ms, t);
        assert forall|j: int| 0 <= j < f implies (#[trigger] ms[j]).type_bytes != t by {
            if j > 0 {
                assert(ms[j] == rest[j - 1]);
            }
        }
        if spec_has_type(ms, t) {
            assert(ms[f] == rest[f - 1]);
        }
    }
}

/// A one-chunk sequence serializes to that chunk's bytes.
pub proof fn lemma_chunks_bytes_singleton(m: ChunkModel)
    ensures
        spec_chunks_bytes(seq![m]) == spec_chunk_bytes(m),
{
    let s = seq![m];
    assert(s.len() == 1 && s.first() == m);
    assert(s.drop_first() =~= Seq::<ChunkModel>::empty());
    assert(spec_chunks_bytes(Seq::<ChunkModel>::empty()) == Seq::<u8>::empty());
    assert(spec_chunks_bytes(s) =~= spec_chunk_bytes(m));
}

/// Serialization of chunk sequences distributes over concatenation.
pub proof fn lemma_chunks_bytes_concat(a: Seq<ChunkModel>, b: Seq<ChunkModel>)
    ensures
        spec_chunks_bytes(a + b) == spec_chunks_bytes(a) + spec_chunks_bytes(b),
    decreases a.len(),
{
    if a.len() == 0 {
        assert(a + b =~= b);
        assert(spec_chunks_bytes(a) + spec_chunks_bytes(b) =~= spec_chunks_bytes(b));
    } else {
        assert((a + b).first() == a.first());
        assert((a + b).drop_first() =~= a.drop_first() + b);
        lemma_chunks_bytes_concat(a.drop_first(), b);
        assert(spec_chunks_bytes(a + b) =~= spec_chunks_bytes(a) + spec_chunks_bytes(b));
    }
}

/// Selection by tag distributes over concatenation.
pub proof fn lemma_select_concat(a: Seq<ChunkModel>, b: Seq<ChunkModel>, t: Seq<u8>)
    ensures
        spec_select_by_type(a + b, t) == spec_select_by_type(a, t) + spec_select_by_type(b, t),
    decreases a.len(),
{
    if a.len() == 0 {
        assert(a + b =~= b);
        assert(spec_select_by_type(a, t) + spec_select_by_type(b, t) =~= spec_select_by_type(
            b,
            t,
        ));
    } else {
        assert((a + b).first() == a.first());
        assert((a + b).drop_first() =~= a.drop_first() + b);
        lemma_select_concat(a.drop_first(), b, t);
        if a.first().type_bytes == t {
            assert(seq![a.first()] + (spec_select_by_type(a.drop_first(), t)
                + spec_select_by_type(b, t)) =~= (seq![a.first()] + spec_select_by_type(
                a.drop_first(),
                t,
            )) + spec_select_by_type(b, t));
        }
    }
}

/// Where no chunk carries tag `t`, selection by `t` is empty.
pub proof fn lemma_select_none(ms: Seq<ChunkModel>, t: Seq<u8>)
    requires
        forall|i: int| 0 <= i < ms.len() ==> (#[trigger] ms[i]).type_bytes != t,
    ensures
        spec_select_by_type(ms, t).len() == 0,
    decreases ms.len(),
{
    if ms.len() > 0 {
        assert(ms.first() == ms[0]);
        assert forall|i: int|
            0 <= i < ms.drop_first().len() implies (#[trigger] ms.drop_first()[i]).type_bytes
            != t by {
            assert(ms.drop_first()[i] == ms[i + 1]);
        }
        lemma_select_none(ms.drop_first(), t);
    }
}

/// A one-chunk sequence with tag `t` selects as itself.
pub proof fn lemma_select_singleton(m: ChunkModel, t: Seq<u8>)
    ensures
        m.type_bytes == t ==> spec_select_by_type(seq![m], t) == seq![m],
        m.type_bytes != t ==> spec_select_by_type(seq![m], t).len() == 0,
{
    let s = seq![m];
    assert(s.first() == m);
    assert(s.drop_first() =~= Seq::<ChunkModel>::empty());
    assert(spec_select_by_type(Seq::<ChunkModel>::empty(), t) =~= Seq::<ChunkModel>::empty());
    assert(spec_select_by_type(s.drop_first(), t) =~= Seq::<ChunkModel>::empty());
    if m.type_bytes == t {
        assert(spec_select_by_type(s, t) == seq![m] + spec_select_by_type(s.drop_first(), t));
        assert(spec_select_by_type(s, t) =~= s);
    }
}

/// Unfolding of the stream parser one chunk at a time.
proof fn lemma_parse_chunks_step(b: Seq<u8>, m: ChunkModel, n: int)
    requires
        b.len() != 0,
        spec_parse_one_chunk(b) == Ok::<(ChunkModel, int), ErrorSpec>((m, n)),
    ensures
        spec_parse_chunks(b) == match spec_parse_chunks(b.skip(n)) {
            Ok(rest) => Ok::<Seq<ChunkModel>, ErrorSpec>(seq![m] + rest),
            Err(e) => Err::<Seq<ChunkModel>, ErrorSpec>(e),
        },
{
}

/// A sequence of valid chunks parses back from its own concatenated
/// serialization as itself.
pub proof fn lemma_parse_chunks_of_chunks_bytes(ms: Seq<ChunkModel>)
    requires
        forall|i: int| 0 <= i < ms.len() ==> (#[trigger] ms[i]).valid(),
    ensures
        spec_parse_chunks(spec_chunks_bytes(ms)) == Ok::<Seq<ChunkModel>, ErrorSpec>(ms),
    decreases ms.len(),
{
    if ms.len() == 0 {
        assert(spec_chunks_bytes(ms) == Seq::<u8>::empty());
        assert(ms =~= Seq::<ChunkModel>::empty());
    } else {
        let m = ms.first();
        assert(m == ms[0]);
        let rest = ms.drop_first();
        assert forall|i: int| 0 <= i < rest.len() implies (#[trigger] rest[i]).valid() by {
            assert(rest[i] == ms[i + 1]);
        }
        let rest_bytes = spec_chunks_bytes(rest);
        lemma_parse_one_prefix(m, rest_bytes);
        let b = spec_chunks_bytes(ms);
        assert(b == spec_chunk_bytes(m) + rest_bytes);
        assert(b.len() != 0);
        lemma_parse_chunks_step(b, m, 12 + m.data.len() as int);
        lemma_parse_chunks_of_chunks_bytes(rest);
        assert(seq![m] + rest =~= ms);
    }
}

/// Round trip: a file serialized from valid chunks parses back to exactly that
/// chunk sequence, signature included.
#[verifier::rlimit(50)]
pub proof fn lemma_png_round_trip(ms: Seq<ChunkModel>)
    requires
        forall|i: int| 0 <= i < ms.len() ==> (#[trigger] ms[i]).valid(),
    ensures
        spec_parse_png(spec_png_bytes(ms)) == Ok::<Seq<ChunkModel>, ErrorSpec>(ms),
{
    let b = spec_png_bytes(ms);
    assert(b.len() >= 8);
    assert(b.subrange(0, 8) =~= spec_png_signature());
    assert(b.skip(8) =~= spec_chunks_bytes(ms));
    lemma_parse_chunks_of_chunks_bytes(ms);
}

/// A chunk sequence parsed from a byte stream reconstructs it: every parsed
/// chunk is valid and their concatenated serialization is the original stream.
#[verifier::spinoff_prover]
#[verifier::rlimit(75)]
pub proof fn lemma_parse_chunks_reconstructs(b: Seq<u8>)
    ensures
        spec_parse_chunks(b) matches Ok(ms) ==> spec_chunks_bytes(ms) == b && (forall|i: int|
            0 <= i < ms.len() ==> (#[trigger] ms[i]).valid()),
    decreases b.len(),
{
    if b.len() == 0 {
        if spec_parse_chunks(b) is Ok {
            assert(spec_chunks_bytes(spec_parse_chunks(b)->Ok_0) =~= b);
        }
    } else if spec_parse_chunks(b) is Ok {
        let (m, n) = spec_parse_one_chunk(b)->Ok_0;
        lemma_parse_one_reconstructs(b);
        lemma_parse_chunks_reconstructs(b.skip(n));
        lemma_parse_chunks_step(b, m, n);
        let rest = spec_parse_chunks(b.skip(n))->Ok_0;
        let ms = spec_parse_chunks(b)->Ok_0;
        assert(ms == seq![m] + rest);
        assert(ms.first() == m && ms.drop_first() =~= rest);
        assert(spec_chunks_bytes(ms) == spec_chunk_bytes(m) + spec_chunks_bytes(rest)) by {
            assert(spec_chunks_bytes(ms) == spec_chunk_bytes(ms.first()) + spec_chunks_bytes(
                ms.drop_first(),
            ));
        }
        assert(spec_chunks_bytes(ms) =~= b.subrange(0, n) + b.skip(n));
        assert(b.subrange(0, n) + b.skip(n) =~= b);
        assert forall|i: int| 0 <= i < ms.len() implies (#[trigger] ms[i]).valid() by {
            if i > 0 {
                assert(ms[i] == rest[i - 1]);
            }
        }
    }
}

/// A parsed file reconstructs its bytes: serializing what `parse` accepted
/// gives back the original buffer, byte for byte.
pub proof fn lemma_png_parse_serialize(b: Seq<u8>)
    ensures
        spec_parse_png(b) matches Ok(ms) ==> spec_png_bytes(ms) == b && (forall|i: int|
            0 <= i < ms.len() ==> (#[trigger] ms[i]).valid()),
{
    if spec_parse_png(b) is Ok {
        lemma_parse_chunks_reconstructs(b.skip(8));
        let ms = spec_parse_png(b)->Ok_0;
        assert(spec_png_bytes(ms) =~= b.subrange(0, 8) + b.skip(8));
        assert(b.subrange(0, 8) + b.skip(8) =~= b);
    }
}

/// An ordered sequence of chunks preceded by the fixed 8-byte PNG signature.
/// The last chunk is conventionally the trailer; insertion keeps it last.
#[derive(Debug, PartialEq, Eq)]
pub struct Png {
    chunks: Vec<Chunk>,
}

impl View for Png {
    type V = Seq<ChunkModel>;

    closed spec fn view(&self) -> Seq<ChunkModel> {
        self.chunks@.map_values(|c: Chunk| c@)
    }
}

/// Checks the first 8 bytes of `raw` against the PNG signature.
fn has_png_signature(raw: &[u8]) -> (r: bool)
    requires
        raw@.len() >= 8,
    ensures
        r == (raw@.subrange(0, 8) == spec_png_signature()),
{
    let r = raw[0] == 0x89 && raw[1] == 0x50 && raw[2] == 0x4e && raw[3] == 0x47 && raw[4] == 0x0d
        && raw[5] == 0x0a && raw[6] == 0x1a && raw[7] == 0x0a;
    proof {
        if r {
            assert(raw@.subrange(0, 8) =~= spec_png_signature());
        } else if raw@.subrange(0, 8) == spec_png_signature() {
            assert(raw@[0] == raw@.subrange(0, 8)[0] && raw@[1] == raw@.subrange(0, 8)[1] && raw@[2]
                == raw@.subrange(0, 8)[2] && raw@[3] == raw@.subrange(0, 8)[3]);
            assert(raw@[4] == raw@.subrange(0, 8)[4] && raw@[5] == raw@.subrange(0, 8)[5] && raw@[6]
                == raw@.subrange(0, 8)[6] && raw@[7] == raw@.subrange(0, 8)[7]);
            assert(false);
        }
    }
    r
}

impl Png {
    /// Every chunk of a parsed container is well formed.
    pub open spec fn wf(&self) -> bool {
        forall|i: int| 0 <= i < self@.len() ==> (#[trigger] self@[i]).wf()
    }

    /// Parses a whole file. Fails when the buffer cannot hold the signature,
    /// when the signature is wrong, or when any chunk fails to parse; a
    /// corrupt file is rejected outright, never partially loaded.
    pub fn parse(raw: &[u8]) -> (r: Result<Png, Error>)
        ensures
            res_view(r) == spec_parse_png(raw@),
            r matches Ok(p) ==> p.wf(),
    {
        if raw.len() < 8 {
            return Err(Error::InputTooSmall);
        }
        if !has_png_signature(raw) {
            return Err(Error::InvalidPngSignature);
        }
        let mut chunks: Vec<Chunk> = Vec::new();
        let mut pos: usize = 8;
        while pos < raw.len()
            invariant
                8 <= pos <= raw@.len(),
                raw@.subrange(0, 8) == spec_png_signature(),
                forall|i: int| 0 <= i < chunks@.len() ==> (#[trigger] chunks@[i]).wf(),
                spec_parse_chunks(raw@.skip(8)) == match spec_parse_chunks(raw@.skip(pos as int)) {
                    Ok(rest) => Ok(chunks@.map_values(|c: Chunk| c@) + rest),
                    Err(e) => Err::<Seq<ChunkModel>, ErrorSpec>(e),
                },
            decreases raw@.len() - pos,
        {
            let ghost suffix = raw@.skip(pos as int);
            proof {
                assert(suffix.len() > 0);
            }
            match Chunk::parse_at(raw, pos) {
                Ok((c, q)) => {
                    proof {
                        let (m, n) = spec_parse_one_chunk(suffix)->Ok_0;
                        assert(suffix.skip(n) =~= raw@.skip(q as int));
                        assert(chunks@.push(c).map_values(|x: Chunk| x@) =~= chunks@.map_values(
                            |x: Chunk| x@,
                        ).push(c@));
                        assert forall|rest: Seq<ChunkModel>|
                            true implies chunks@.map_values(|x: Chunk| x@) + (seq![c@] + rest)
                            =~= chunks@.map_values(|x: Chunk| x@).push(c@) + rest by {}
                    }
                    chunks.push(c);
                    pos = q;
                },
                Err(e) => {
                    proof {
                        let g = spec_parse_one_chunk(suffix)->Err_0;
                        assert(spec_parse_chunks(suffix) == Err::<Seq<ChunkModel>, ErrorSpec>(g));
                    }
                    return Err(e);
                },
            }
        }
        proof {
            assert(raw@.skip(pos as int) =~= Seq::<u8>::empty());
            assert(spec_parse_chunks(raw@.skip(pos as int)) == Ok::<Seq<ChunkModel>, ErrorSpec>(
                Seq::empty(),
            ));
        }
        let r = Png { chunks };
        proof {
            assert(r@ + Seq::<ChunkModel>::empty() =~= r@);
        }
        Ok(r)
    }

    /// Serializes the container: the signature, then every chunk in order.
    /// The exact inverse of `parse` for any parsed or well-formed container.
    pub fn as_bytes(&self) -> (r: Vec<u8>)
        ensures
            r@ == spec_png_bytes(self@),
    {
        let mut out: Vec<u8> = Vec::new();
        out.push(0x89);
        out.push(0x50);
        out.push(0x4e);
        out.push(0x47);
        out.push(0x0d);
        out.push(0x0a);
        out.push(0x1a);
        out.push(0x0a);
        proof {
            assert(out@ =~= spec_png_signature());
        }
        let mut i: usize = 0;
        while i < self.chunks.len()
            invariant
                0 <= i <= self.chunks@.len(),
                out@ == spec_png_signature() + spec_chunks_bytes(self@.take(i as int)),
            decreases self.chunks@.len() - i,
        {
            let mut cb = self.chunks[i].as_bytes();
            out.append(&mut cb);
            proof {
                let ghost prev = self@.take(i as int);
                assert(self@.take(i + 1) =~= prev + seq![self@[i as int]]);
                lemma_chunks_bytes_concat(prev, seq![self@[i as int]]);
                lemma_chunks_bytes_singleton(self@[i as int]);
                assert(out@ =~= spec_png_signature() + spec_chunks_bytes(self@.take(i + 1)));
            }
            i += 1;
        }
        proof {
            assert(self@.take(self@.len() as int) =~= self@);
        }
        out
    }

    /// All chunks whose tag equals `chunk_type`, in file order; absent when no
    /// chunk matches.
    pub fn chunk_by_type(&self, chunk_type: &ChunkType) -> (r: Option<Vec<&Chunk>>)
        ensures
            r is Some <==> spec_select_by_type(self@, chunk_type@).len() > 0,
            r matches Some(v) ==> v@.map_values(|c: &Chunk| c@) == spec_select_by_type(
                self@,
                chunk_type@,
            ),
    {
        let ghost t = chunk_type@;
        let mut found: Vec<&Chunk> = Vec::new();
        let mut i: usize = 0;
        proof {
            assert(self@.skip(0) =~= self@);
            assert(found@.map_values(|c: &Chunk| c@) =~= Seq::<ChunkModel>::empty());
            assert(Seq::<ChunkModel>::empty() + spec_select_by_type(self@, t)
                =~= spec_select_by_type(self@, t));
        }
        while i < self.chunks.len()
            invariant
                0 <= i <= self.chunks@.len(),
                spec_select_by_type(self@, t) == found@.map_values(|c: &Chunk| c@)
                    + spec_select_by_type(self@.skip(i as int), t),
                t == chunk_type@,
            decreases self.chunks@.len() - i,
        {
            let ghost suffix = self@.skip(i as int);
            proof {
                assert(suffix.first() == self@[i as int]);
                assert(suffix.drop_first() =~= self@.skip(i + 1));
            }
            let c = &self.chunks[i];
            if c.chunk_type().matches(chunk_type) {
                found.push(c);
                proof {
                    assert(found@.map_values(|x: &Chunk| x@) =~= found@.drop_last().map_values(
                        |x: &Chunk| x@,
                    ).push(c@));
                    assert(found@.drop_last().map_values(|x: &Chunk| x@).push(c@) + spec_select_by_type(
                        self@.skip(i + 1),
                        t,
                    ) =~= found@.drop_last().map_values(|x: &Chunk| x@) + (seq![self@[i as int]]
                        + spec_select_by_type(self@.skip(i + 1), t)));
                }
            }
            i += 1;
        }
        proof {
            assert(self@.skip(self@.len() as int) =~= Seq::<ChunkModel>::empty());
            assert(found@.map_values(|c: &Chunk| c@) + Seq::<ChunkModel>::empty() =~= found@
                .map_values(|c: &Chunk| c@));
        }
        if found.len() == 0 {
            proof {
                assert(found@.map_values(|c: &Chunk| c@).len() == 0);
            }
            None
        } else {
            Some(found)
        }
    }

    /// Adds a chunk at the very end of the sequence.
    pub fn append_chunk(&mut self, chunk: Chunk)
        ensures
            final(self)@ == old(self)@.push(chunk@),
    {
        self.chunks.push(chunk);
        proof {
            assert(final(self)@ =~= old(self)@.push(chunk@));
        }
    }

    /// Inserts a chunk immediately before the trailer chunk, keeping the
    /// trailer last; into an empty container the chunk goes alone.
    pub fn insert_between(&mut self, chunk: Chunk)
        ensures
            final(self)@ == spec_insert_between(old(self)@, chunk@),
    {
        if self.chunks.len() == 0 {
            self.chunks.push(chunk);
            proof {
                assert(final(self)@ =~= seq![chunk@]);
            }
        } else {
            let at = self.chunks.len() - 1;
            self.chunks.insert(at, chunk);
            proof {
                assert(final(self)@ =~= old(self)@.insert(old(self)@.len() - 1, chunk@));
            }
        }
    }

    /// Removes the first chunk whose tag equals `chunk_type`; fails, leaving
    /// the container unchanged, when no chunk matches.
    pub fn remove_chunk(&mut self, chunk_type: &ChunkType) -> (r: Result<(), Error>)
        ensures
            spec_has_type(old(self)@, chunk_type@) ==> r is Ok && final(self)@ == old(
                self,
            )@.remove(spec_first_with_type(old(self)@, chunk_type@)),
            !spec_has_type(old(self)@, chunk_type@) ==> (r matches Err(e) && e@
                == ErrorSpec::ChunkTypeNotFound(chunk_type@) && final(self)@ == old(self)@),
    {
        let ghost t = chunk_type@;
        proof {
            lemma_first_with_type(old(self)@, t);
        }
        let mut i: usize = 0;
        while i < self.chunks.len()
            invariant
                0 <= i <= self.chunks@.len(),
                *self == *old(self),
                forall|j: int| 0 <= j < i ==> (#[trigger] self@[j]).type_bytes != t,
                t == chunk_type@,
            decreases self.chunks@.len() - i,
        {
            let c = &self.chunks[i];
            if c.chunk_type().matches(chunk_type) {
                proof {
                    assert(self@[i as int] == c@);
                    assert(self@[i as int].type_bytes == t);
                    lemma_first_with_type(self@, t);
                    let f = spec_first_with_type(self@, t);
                    if f < i {
                        assert(self@[f].type_bytes != t);
                    }
                    assert(f == i);
                }
                self.chunks.remove(i);
                proof {
                    assert(final(self)@ =~= old(self)@.remove(i as int));
                }
                return Ok(());
            }
            i += 1;
        }
        proof {
            lemma_first_with_type(self@, t);
        }
        let tag = chunk_type.bytes();
        let mut owned: Vec<u8> = Vec::new();
        owned.push(tag[0]);
        owned.push(tag[1]);
        owned.push(tag[2]);
        owned.push(tag[3]);
        proof {
            assert(owned@ =~= chunk_type@);
        }
        Err(Error::ChunkTypeNotFound(owned))
    }
}

} // verus!
