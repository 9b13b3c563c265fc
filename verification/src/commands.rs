//! The operations handed to the command layer: embed a message, read the
//! messages back, and remove them, each from whole-file bytes.
use crate::chunk::{spec_chunk_model, Chunk, ChunkModel};
use crate::chunk_type::{spec_is_ascii_uppercase, spec_tag_valid, ChunkType};
use crate::errors::{res_view, Error, ErrorSpec};
use crate::png::{
    lemma_first_with_type, lemma_png_parse_serialize, lemma_png_round_trip, lemma_select_concat,
    lemma_select_none, lemma_select_singleton, spec_first_with_type, spec_has_type,
    spec_insert_between, spec_parse_png, spec_png_bytes, spec_select_by_type, Png,
};
use vstd::prelude::*;
use vstd::slice::slice_to_vec;
use vstd::string::StringSliceAdditionalSpecFns;
use vstd::utf8::{decode_utf8, valid_utf8};

verus! {

/// What encoding returns: the tag must have a valid reserved byte, the file
/// must parse, and then the message becomes a fresh chunk inserted before the
/// trailer of the re-serialized file.
pub open spec fn spec_encode(file: Seq<u8>, t: Seq<u8>, msg: Seq<u8>) -> Result<Seq<u8>, ErrorSpec>
    recommends
        t.len() == 4,
        msg.len() <= u32::MAX,
{
    if !spec_is_ascii_uppercase(t[2]) {
        Err(ErrorSpec::InvalidReservedBit(t))
    } else {
        match spec_parse_png(file) {
            Err(e) => Err(e),
            Ok(ms) => Ok(spec_png_bytes(spec_insert_between(ms, spec_chunk_model(t, msg)))),
        }
    }
}

/// What decoding returns: the file must parse, at least one chunk must carry
/// the tag, every such payload must be UTF-8, and then the texts come back in
/// file order.
pub open spec fn spec_decode(file: Seq<u8>, t: Seq<u8>) -> Result<Seq<Seq<char>>, ErrorSpec> {
    match spec_parse_png(file) {
        Err(e) => Err(e),
        Ok(ms) => {
            let sel = spec_select_by_type(ms, t);
            if sel.len() == 0 {
                Err(ErrorSpec::ChunkTypeNotFound(t))
            } else if exists|i: int| 0 <= i < sel.len() && !valid_utf8(#[trigger] sel[i].data) {
                Err(ErrorSpec::InvalidUtf8)
            } else {
                Ok(sel.map_values(|m: ChunkModel| decode_utf8(m.data)))
            }
        },
    }
}

/// What removal returns: the file must parse and hold the tag, and then the
/// first chunk carrying it is dropped from the re-serialized file.
pub open spec fn spec_remove(file: Seq<u8>, t: Seq<u8>) -> Result<Seq<u8>, ErrorSpec> {
    match spec_parse_png(file) {
        Err(e) => Err(e),
        Ok(ms) => if !spec_has_type(ms, t) {
            Err(ErrorSpec::ChunkTypeNotFound(t))
        } else {
            Ok(spec_png_bytes(ms.remove(spec_first_with_type(ms, t))))
        },
    }
}

/// After inserting chunk `m` before the trailer of `ms`, the result is a valid
/// sequence whenever `ms` was, the insertion point is `pos`, and removing `pos`
/// restores `ms`.
proof fn lemma_insert_between_shape(ms: Seq<ChunkModel>, m: ChunkModel)
    ensures
        ({
            let ms2 = spec_insert_between(ms, m);
            let pos: int = if ms.len() == 0 {
                0int
            } else {
                ms.len() - 1
            };
            &&& ms2.len() == ms.len() + 1
            &&& ms2[pos] == m
            &&& forall|i: int| 0 <= i < pos ==> #[trigger] ms2[i] == ms[i]
            &&& forall|i: int| pos < i < ms2.len() ==> #[trigger] ms2[i] == ms[i - 1]
            &&& ms2.remove(pos) == ms
            &&& ms2 == ms.take(pos) + seq![m] + ms.skip(pos)
        }),
{
    let ms2 = spec_insert_between(ms, m);
    let pos: int = if ms.len() == 0 {
        0int
    } else {
        ms.len() - 1
    };
    if ms.len() == 0 {
        assert(ms2 == seq![m]);
        assert(ms2.remove(0) =~= ms);
        assert(ms2 =~= ms.take(0) + seq![m] + ms.skip(0));
    } else {
        ms.insert_ensures(pos, m);
        assert(ms2.remove(pos) =~= ms);
        assert(ms2 =~= ms.take(pos) + seq![m] + ms.skip(pos));
    }
}

/// Idempotent embed and remove: encoding a message under a tag the file does
/// not yet hold and then removing that tag restores the original file bytes
/// exactly, byte for byte.
pub proof fn lemma_encode_then_remove(file: Seq<u8>, t: Seq<u8>, msg: Seq<u8>)
    requires
        spec_tag_valid(t),
        msg.len() <= u32::MAX,
        spec_parse_png(file) is Ok,
        forall|i: int|
            0 <= i < spec_parse_png(file)->Ok_0.len() ==> (#[trigger] spec_parse_png(
                file,
            )->Ok_0[i]).type_bytes != t,
    ensures
        spec_encode(file, t, msg) matches Ok(g) && spec_remove(g, t) == Ok::<Seq<u8>, ErrorSpec>(
            file,
        ),
{
    let ms = spec_parse_png(file)->Ok_0;
    lemma_png_parse_serialize(file);
    let m = spec_chunk_model(t, msg);
    assert(m.valid());
    let ms2 = spec_insert_between(ms, m);
    let pos: int = if ms.len() == 0 {
        0int
    } else {
        ms.len() - 1
    };
    lemma_insert_between_shape(ms, m);
    assert forall|i: int| 0 <= i < ms2.len() implies (#[trigger] ms2[i]).valid() by {
        if i < pos {
            assert(ms2[i] == ms[i]);
        } else if i > pos {
            assert(ms2[i] == ms[i - 1]);
        }
    }
    lemma_png_round_trip(ms2);
    let g = spec_png_bytes(ms2);
    assert(spec_encode(file, t, msg) == Ok::<Seq<u8>, ErrorSpec>(g));
    lemma_first_with_type(ms2, t);
    let f = spec_first_with_type(ms2, t);
    assert(ms2[pos].type_bytes == t);
    if f < pos {
        assert(ms2[f] == ms[f]);
        assert(ms[f].type_bytes != t);
        assert(ms2[f].type_bytes == t);
    }
    assert(f == pos);
    assert(spec_remove(g, t) == Ok::<Seq<u8>, ErrorSpec>(spec_png_bytes(ms2.remove(pos))));
}

/// Embed then extract: a message encoded under a tag the file does not yet
/// hold comes back, alone, when decoded under that tag; decoded under any
/// other tag the file does not hold, the lookup fails as not found.
pub proof fn lemma_encode_then_decode(file: Seq<u8>, t: Seq<u8>, msg: Seq<u8>)
    requires
        spec_tag_valid(t),
        msg.len() <= u32::MAX,
        valid_utf8(msg),
        spec_parse_png(file) is Ok,
        forall|i: int|
            0 <= i < spec_parse_png(file)->Ok_0.len() ==> (#[trigger] spec_parse_png(
                file,
            )->Ok_0[i]).type_bytes != t,
    ensures
        spec_encode(file, t, msg) matches Ok(g) && spec_decode(g, t) == Ok::<
            Seq<Seq<char>>,
            ErrorSpec,
        >(seq![decode_utf8(msg)]),
        ({
            forall|u: Seq<u8>|
                u != t && (forall|i: int|
                    0 <= i < spec_parse_png(file)->Ok_0.len() ==> (#[trigger] spec_parse_png(
                        file,
                    )->Ok_0[i]).type_bytes != u) ==> spec_decode(spec_encode(file, t, msg)->Ok_0, u)
                    == Err::<Seq<Seq<char>>, ErrorSpec>(ErrorSpec::ChunkTypeNotFound(u))
        }),
{
    let ms = spec_parse_png(file)->Ok_0;
    lemma_png_parse_serialize(file);
    let m = spec_chunk_model(t, msg);
    assert(m.valid());
    let ms2 = spec_insert_between(ms, m);
    let pos: int = if ms.len() == 0 {
        0int
    } else {
        ms.len() - 1
    };
    lemma_insert_between_shape(ms, m);
    assert forall|i: int| 0 <= i < ms2.len() implies (#[trigger] ms2[i]).valid() by {
        if i < pos {
            assert(ms2[i] == ms[i]);
        } else if i > pos {
            assert(ms2[i] == ms[i - 1]);
        }
    }
    lemma_png_round_trip(ms2);
    let g = spec_png_bytes(ms2);
    assert(spec_encode(file, t, msg) == Ok::<Seq<u8>, ErrorSpec>(g));
    let front = ms.take(pos);
    let back = ms.skip(pos);
    assert forall|i: int| 0 <= i < front.len() implies (#[trigger] front[i]).type_bytes != t by {
        assert(front[i] == ms[i]);
    }
    assert forall|i: int| 0 <= i < back.len() implies (#[trigger] back[i]).type_bytes != t by {
        assert(back[i] == ms[i + pos]);
    }
    lemma_select_concat(front + seq![m], back, t);
    lemma_select_concat(front, seq![m], t);
    lemma_select_none(front, t);
    lemma_select_none(back, t);
    lemma_select_singleton(m, t);
    assert(ms2 == (front + seq![m]) + back);
    assert(spec_select_by_type(ms2, t) =~= seq![m]);
    assert(spec_select_by_type(ms2, t).len() == 1);
    assert(spec_select_by_type(ms2, t)[0] == m);
    assert forall|i: int|
        0 <= i < spec_select_by_type(ms2, t).len() implies valid_utf8(
        #[trigger] spec_select_by_type(ms2, t)[i].data,
    ) by {
        assert(spec_select_by_type(ms2, t)[i] == m);
    }
    assert(spec_select_by_type(ms2, t).map_values(|x: ChunkModel| decode_utf8(x.data))
        =~= seq![decode_utf8(msg)]);
    assert forall|u: Seq<u8>|
        u != t && (forall|i: int|
            0 <= i < ms.len() ==> (#[trigger] ms[i]).type_bytes != u) implies spec_decode(g, u)
        == Err::<Seq<Seq<char>>, ErrorSpec>(ErrorSpec::ChunkTypeNotFound(u)) by {
        assert forall|i: int| 0 <= i < ms2.len() implies (#[trigger] ms2[i]).type_bytes != u by {
            if i < pos {
                assert(ms2[i] == ms[i]);
            } else if i > pos {
                assert(ms2[i] == ms[i - 1]);
            }
        }
        lemma_select_none(ms2, u);
    }
}

/// Encoding keeps every message already stored: when the trailer does not
/// carry the tag, the new chunk lands after all earlier chunks of that tag, so
/// repeated encodes stack their messages in insertion order, each once.
pub proof fn lemma_encode_keeps_earlier_messages(file: Seq<u8>, t: Seq<u8>, msg: Seq<u8>)
    requires
        spec_tag_valid(t),
        msg.len() <= u32::MAX,
        spec_parse_png(file) is Ok,
        spec_parse_png(file)->Ok_0.len() > 0,
        spec_parse_png(file)->Ok_0.last().type_bytes != t,
    ensures
        spec_encode(file, t, msg) matches Ok(g) && spec_parse_png(g) matches Ok(ms2)
            && spec_select_by_type(ms2, t) == spec_select_by_type(
            spec_parse_png(file)->Ok_0,
            t,
        ).push(spec_chunk_model(t, msg)),
{
    let ms = spec_parse_png(file)->Ok_0;
    lemma_png_parse_serialize(file);
    let m = spec_chunk_model(t, msg);
    assert(m.valid());
    let ms2 = spec_insert_between(ms, m);
    let pos: int = ms.len() - 1;
    lemma_insert_between_shape(ms, m);
    assert forall|i: int| 0 <= i < ms2.len() implies (#[trigger] ms2[i]).valid() by {
        if i < pos {
            assert(ms2[i] == ms[i]);
        } else if i > pos {
            assert(ms2[i] == ms[i - 1]);
        }
    }
    lemma_png_round_trip(ms2);
    assert(spec_encode(file, t, msg) == Ok::<Seq<u8>, ErrorSpec>(spec_png_bytes(ms2)));
    let front = ms.take(pos);
    let back = ms.skip(pos);
    assert(back =~= seq![ms.last()]);
    assert(ms =~= front + back);
    lemma_select_concat(front, back, t);
    lemma_select_singleton(ms.last(), t);
    assert(ms2 == front + seq![m] + back);
    assert((front + seq![m] + back) =~= (front + seq![m]) + back);
    lemma_select_concat(front + seq![m], back, t);
    lemma_select_concat(front, seq![m], t);
    lemma_select_singleton(m, t);
    assert(spec_select_by_type(ms2, t) =~= spec_select_by_type(front, t) + seq![m]);
    assert(spec_select_by_type(ms, t) =~= spec_select_by_type(front, t));
    assert(spec_select_by_type(front, t) + seq![m] =~= spec_select_by_type(front, t).push(m));
}

/// Copies a tag's 4 bytes into an owned vector for an error payload.
fn owned_tag(chunk_type: &ChunkType) -> (r: Vec<u8>)
    ensures
        r@ == chunk_type@,
{
    let tag = chunk_type.bytes();
    let mut owned: Vec<u8> = Vec::new();
    owned.push(tag[0]);
    owned.push(tag[1]);
    owned.push(tag[2]);
    owned.push(tag[3]);
    proof {
        assert(owned@ =~= chunk_type@);
    }
    owned
}

/// Embeds `msg` in the file as a fresh chunk tagged `chunk_type`, inserted
/// immediately before the trailer chunk, and returns the new file bytes.
pub fn encode(file_bytes: &[u8], chunk_type: &ChunkType, msg: &str) -> (r: Result<Vec<u8>, Error>)
    requires
        msg.spec_bytes().len() <= u32::MAX,
    ensures
        res_view(r) == spec_encode(file_bytes@, chunk_type@, msg.spec_bytes()),
{
    if !chunk_type.is_reserved_bit_valid() {
        return Err(Error::InvalidReservedBit(owned_tag(chunk_type)));
    }
    let mut png = match Png::parse(file_bytes) {
        Ok(p) => p,
        Err(e) => {
            return Err(e);
        },
    };
    let data = slice_to_vec(msg.as_bytes());
    let chunk = Chunk::new(*chunk_type, data);
    png.insert_between(chunk);
    Ok(png.as_bytes())
}

/// Reads back every message stored under `chunk_type`, in file order.
pub fn decode(file_bytes: &[u8], chunk_type: &ChunkType) -> (r: Result<Vec<String>, Error>)
    ensures
        r is Ok <==> spec_decode(file_bytes@, chunk_type@) is Ok,
        r matches Ok(v) ==> spec_decode(file_bytes@, chunk_type@) matches Ok(texts)
            && v.deep_view() == texts,
        r matches Err(e) ==> spec_decode(file_bytes@, chunk_type@) matches Err(g) && e@ == g,
{
    let png = match Png::parse(file_bytes) {
        Ok(p) => p,
        Err(e) => {
            return Err(e);
        },
    };
    let chunks = match png.chunk_by_type(chunk_type) {
        Some(v) => v,
        None => {
            return Err(Error::ChunkTypeNotFound(owned_tag(chunk_type)));
        },
    };
    let ghost sel = spec_select_by_type(png@, chunk_type@);
    let mut texts: Vec<String> = Vec::new();
    let mut i: usize = 0;
    while i < chunks.len()
        invariant
            0 <= i <= chunks@.len(),
            spec_parse_png(file_bytes@) == Ok::<Seq<ChunkModel>, ErrorSpec>(png@),
            sel == spec_select_by_type(png@, chunk_type@),
            chunks@.map_values(|c: &Chunk| c@) == sel,
            sel.len() == chunks@.len(),
            sel.len() > 0,
            texts@.len() == i,
            forall|j: int|
                0 <= j < i ==> valid_utf8(#[trigger] sel[j].data) && texts@[j]@ == decode_utf8(
                    sel[j].data,
                ),
        decreases chunks@.len() - i,
    {
        let c = chunks[i];
        proof {
            assert(chunks@.map_values(|x: &Chunk| x@)[i as int] == sel[i as int]);
        }
        match c.data_as_string() {
            Ok(s) => {
                texts.push(s);
            },
            Err(e) => {
                proof {
                    assert(!valid_utf8(sel[i as int].data));
                }
                return Err(e);
            },
        }
        i += 1;
    }
    proof {
        assert forall|j: int| 0 <= j < sel.len() implies valid_utf8(
            #[trigger] sel[j].data,
        ) by {}
        assert(texts.deep_view() =~= sel.map_values(|m: ChunkModel| decode_utf8(m.data)));
    }
    Ok(texts)
}

/// Removes the first chunk stored under `chunk_type` and returns the new file
/// bytes; the file is otherwise unchanged.
pub fn remove(file_bytes: &[u8], chunk_type: &ChunkType) -> (r: Result<Vec<u8>, Error>)
    ensures
        res_view(r) == spec_remove(file_bytes@, chunk_type@),
{
    let mut png = match Png::parse(file_bytes) {
        Ok(p) => p,
        Err(e) => {
            return Err(e);
        },
    };
    match png.remove_chunk(chunk_type) {
        Ok(_) => Ok(png.as_bytes()),
        Err(e) => Err(e),
    }
}

} // verus!
