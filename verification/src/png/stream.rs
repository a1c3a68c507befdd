use vstd::prelude::*;
use crate::png::reader::Error;
use crate::png::chunk::{ChunkModel, ChunkType, chunk_type_of, spec_chunk, RawChunk, lemma_chunk_of_bytes};
use crate::png::decoder::{spec_chunks, spec_header, spec_ihdr, PNGFormat};

verus! {

/// The bytes of chunks laid out one after the other.
pub open spec fn stream_bytes(cs: Seq<RawChunk>) -> Seq<u8>
    decreases cs.len(),
{
    if cs.len() == 0 {
        Seq::empty()
    } else {
        cs[0].bytes() + stream_bytes(cs.drop_first())
    }
}

/// The chunk is well sized and of a known type other than IEND.
pub open spec fn known_inner(c: RawChunk) -> bool {
    c.well_sized() && chunk_type_of(c.name) is Some && chunk_type_of(c.name) != Some(ChunkType::IEND)
}

/// Every chunk is well sized and of a known type other than IEND.
pub open spec fn known_inner_chunks(cs: Seq<RawChunk>) -> bool {
    forall|i: int| 0 <= i < cs.len() ==> known_inner(#[trigger] cs[i])
}

/// The models of the chunks, in order.
pub open spec fn raw_models(cs: Seq<RawChunk>) -> Seq<ChunkModel> {
    Seq::new(cs.len(), |i: int| cs[i].model())
}

proof fn lemma_stream_prefix(d: Seq<u8>, pos: int, cs: Seq<RawChunk>, acc: Seq<ChunkModel>)
    requires
        0 <= pos,
        known_inner_chunks(cs),
        pos + stream_bytes(cs).len() <= d.len(),
        d.subrange(pos, pos + stream_bytes(cs).len()) == stream_bytes(cs),
        !(acc.len() > 0 && acc.last().chunk_type == ChunkType::IEND),
    ensures
        spec_chunks(d, pos, acc) == spec_chunks(d, pos + stream_bytes(cs).len(), acc + raw_models(cs)),
        acc.len() + cs.len() > 0 ==> (acc + raw_models(cs)).last().chunk_type != ChunkType::IEND,
    decreases cs.len(),
{
    if cs.len() == 0 {
        assert(acc + raw_models(cs) =~= acc);
    } else {
        let c = cs[0];
        let rest = cs.drop_first();
        let n = c.bytes().len();
        assert(known_inner(cs[0]));
        assert(stream_bytes(cs) == c.bytes() + stream_bytes(rest));
        lemma_subranges(d, pos, c.bytes(), stream_bytes(rest));
        lemma_chunk_of_bytes(d, pos, c);
        assert forall|i: int| 0 <= i < rest.len() implies known_inner(#[trigger] rest[i]) by {
            assert(rest[i] == cs[i + 1]);
            assert(known_inner(cs[i + 1]));
        }
        assert(pos < d.len());
        assert(c.model().chunk_type != ChunkType::IEND);
        lemma_stream_prefix(d, pos + n, rest, acc.push(c.model()));
        assert(acc.push(c.model()) + raw_models(rest) =~= acc + raw_models(cs));
    }
}

/// A stream of chunks of known types ending in an IEND chunk reads as those
/// chunks, in order, IEND last; whatever follows IEND is never read.
pub proof fn law_chunks_up_to_iend(d: Seq<u8>, pos: int, cs: Seq<RawChunk>, end: RawChunk)
    requires
        0 <= pos,
        known_inner_chunks(cs),
        end.well_sized(),
        chunk_type_of(end.name) == Some(ChunkType::IEND),
        pos + stream_bytes(cs.push(end)).len() <= d.len(),
        d.subrange(pos, pos + stream_bytes(cs.push(end)).len()) == stream_bytes(cs.push(end)),
    ensures
        spec_chunks(d, pos, Seq::empty()) == Ok::<Seq<ChunkModel>, Error>(raw_models(cs).push(end.model())),
{
    lemma_stream_split(cs, end);
    let p = pos + stream_bytes(cs).len();
    lemma_subranges(d, pos, stream_bytes(cs), end.bytes());
    lemma_stream_prefix(d, pos, cs, Seq::empty());
    assert(Seq::<ChunkModel>::empty() + raw_models(cs) =~= raw_models(cs));
    lemma_chunk_of_bytes(d, p, end);
    let acc = raw_models(cs);
    let next = p + end.bytes().len();
    assert(p < d.len());
    assert(spec_chunk(d, p) == Ok::<(ChunkModel, int), Error>((end.model(), next)));
    assert(end.model().chunk_type == ChunkType::IEND);
    assert(spec_chunks(d, p, acc) == spec_chunks(d, next, acc.push(end.model())));
    assert(spec_chunks(d, next, acc.push(end.model())) == Ok::<Seq<ChunkModel>, Error>(acc.push(end.model())));
}

/// A stream of chunks of known types, none of them IEND, followed by a chunk
/// whose name is no chunk type, is an unknown-type error.
pub proof fn law_unknown_chunk_reported(d: Seq<u8>, pos: int, cs: Seq<RawChunk>, bad: RawChunk)
    requires
        0 <= pos,
        known_inner_chunks(cs),
        bad.well_sized(),
        chunk_type_of(bad.name) is None,
        pos + stream_bytes(cs.push(bad)).len() <= d.len(),
        d.subrange(pos, pos + stream_bytes(cs.push(bad)).len()) == stream_bytes(cs.push(bad)),
    ensures
        spec_chunks(d, pos, Seq::empty()) == Err::<Seq<ChunkModel>, Error>(Error::UnknownChunkType),
{
    lemma_stream_split(cs, bad);
    let p = pos + stream_bytes(cs).len();
    lemma_subranges(d, pos, stream_bytes(cs), bad.bytes());
    lemma_stream_prefix(d, pos, cs, Seq::empty());
    assert(Seq::<ChunkModel>::empty() + raw_models(cs) =~= raw_models(cs));
    lemma_chunk_of_bytes(d, p, bad);
    assert(p < d.len());
}

/// A stream that ends after chunks of known types without an IEND chunk is
/// a reader error.
pub proof fn law_missing_iend_reported(d: Seq<u8>, pos: int, cs: Seq<RawChunk>)
    requires
        0 <= pos,
        known_inner_chunks(cs),
        d.len() == pos + stream_bytes(cs).len(),
        d.subrange(pos, pos + stream_bytes(cs).len()) == stream_bytes(cs),
    ensures
        spec_chunks(d, pos, Seq::empty()) == Err::<Seq<ChunkModel>, Error>(Error::Reader),
{
    lemma_stream_prefix(d, pos, cs, Seq::empty());
    assert(Seq::<ChunkModel>::empty() + raw_models(cs) =~= raw_models(cs));
}

proof fn lemma_stream_split(cs: Seq<RawChunk>, last: RawChunk)
    ensures
        stream_bytes(cs.push(last)) == stream_bytes(cs) + last.bytes(),
    decreases cs.len(),
{
    if cs.len() == 0 {
        let one = cs.push(last);
        assert(one[0] == last);
        assert(one.drop_first() =~= Seq::<RawChunk>::empty());
        assert(stream_bytes(one.drop_first()) == Seq::<u8>::empty());
        assert(stream_bytes(one) == last.bytes() + Seq::<u8>::empty());
        assert(stream_bytes(one) =~= stream_bytes(cs) + last.bytes());
    } else {
        assert(cs.push(last).drop_first() =~= cs.drop_first().push(last));
        lemma_stream_split(cs.drop_first(), last);
        assert(stream_bytes(cs.push(last)) =~= stream_bytes(cs) + last.bytes());
    }
}

proof fn lemma_subranges(d: Seq<u8>, pos: int, a: Seq<u8>, b: Seq<u8>)
    requires
        0 <= pos,
        pos + a.len() + b.len() <= d.len(),
        d.subrange(pos, pos + (a + b).len()) == a + b,
    ensures
        d.subrange(pos, pos + a.len()) == a,
        d.subrange(pos + a.len(), pos + a.len() + b.len()) == b,
{
    assert forall|k: int| 0 <= k < a.len() implies d.subrange(pos, pos + a.len())[k] == a[k] by {
        assert(d.subrange(pos, pos + (a + b).len())[k] == (a + b)[k]);
    }
    assert forall|k: int| 0 <= k < b.len() implies d.subrange(pos + a.len(), pos + a.len() + b.len())[k] == b[k] by {
        assert(d.subrange(pos, pos + (a + b).len())[a.len() + k] == (a + b)[a.len() + k]);
        assert(d.subrange(pos, pos + (a + b).len())[a.len() + k] == d[pos + a.len() + k]);
        assert(d.subrange(pos + a.len(), pos + a.len() + b.len())[k] == d[pos + a.len() + k]);
    }
    assert(d.subrange(pos, pos + a.len()) =~= a);
    assert(d.subrange(pos + a.len(), pos + a.len() + b.len()) =~= b);
}

/// A file body made of an IHDR chunk for truecolour (with or without
/// alpha), chunks of known types and an IEND chunk parses to the header that
/// the IHDR chunk declares and to those chunks, in order, IEND last.
pub proof fn law_header_then_chunks(d: Seq<u8>, pos: int, ihdr: RawChunk, cs: Seq<RawChunk>, end: RawChunk)
    requires
        0 <= pos,
        ihdr.well_sized(),
        chunk_type_of(ihdr.name) == Some(ChunkType::IHDR),
        ihdr.body.len() >= 13,
        ihdr.body[9] == 2 || ihdr.body[9] == 6,
        known_inner_chunks(cs),
        end.well_sized(),
        chunk_type_of(end.name) == Some(ChunkType::IEND),
        pos + (ihdr.bytes() + stream_bytes(cs.push(end))).len() <= d.len(),
        d.subrange(pos, pos + (ihdr.bytes() + stream_bytes(cs.push(end))).len()) == ihdr.bytes() + stream_bytes(cs.push(end)),
    ensures
        spec_ihdr(ihdr.model()) matches Some(Ok(f)) && spec_header(d, pos)
            == Some(Ok::<(PNGFormat, Seq<ChunkModel>), Error>((f, raw_models(cs).push(end.model())))),
{
    lemma_subranges(d, pos, ihdr.bytes(), stream_bytes(cs.push(end)));
    lemma_chunk_of_bytes(d, pos, ihdr);
    law_chunks_up_to_iend(d, pos + ihdr.bytes().len(), cs, end);
}

} // verus!
