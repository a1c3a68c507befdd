use vstd::prelude::*;
use crate::png::reader::{ByteReader, Error, ReaderModel, be_u32};

verus! {

/// The kinds of PNG chunk the decoder knows.
#[allow(non_camel_case_types)]
#[derive(Debug, Clone, Copy, PartialEq, Eq, Structural)]
pub enum ChunkType {
    IHDR,
    PLTE,
    IDAT,
    IEND,
    cHRM,
    gAMA,
    iCCP,
    sBIT,
    sRGB,
    bkGD,
    hIST,
    tRNS,
    pHYs,
    sPLT,
    tIME,
    iTXt,
    tEXt,
    zTXt,
}

/// The chunk type that a four-byte name stands for.
pub open spec fn chunk_type_of(n: Seq<u8>) -> Option<ChunkType> {
    if n.len() != 4 {
        None
    } else if n == seq![73u8, 72u8, 68u8, 82u8] {
        Some(ChunkType::IHDR)
    } else if n == seq![80u8, 76u8, 84u8, 69u8] {
        Some(ChunkType::PLTE)
    } else if n == seq![73u8, 68u8, 65u8, 84u8] {
        Some(ChunkType::IDAT)
    } else if n == seq![73u8, 69u8, 78u8, 68u8] {
        Some(ChunkType::IEND)
    } else if n == seq![99u8, 72u8, 82u8, 77u8] {
        Some(ChunkType::cHRM)
    } else if n == seq![103u8, 65u8, 77u8, 65u8] {
        Some(ChunkType::gAMA)
    } else if n == seq![105u8, 67u8, 67u8, 80u8] {
        Some(ChunkType::iCCP)
    } else if n == seq![115u8, 66u8, 73u8, 84u8] {
        Some(ChunkType::sBIT)
    } else if n == seq![115u8, 82u8, 71u8, 66u8] {
        Some(ChunkType::sRGB)
    } else if n == seq![98u8, 107u8, 71u8, 68u8] {
        Some(ChunkType::bkGD)
    } else if n == seq![104u8, 73u8, 83u8, 84u8] {
        Some(ChunkType::hIST)
    } else if n == seq![116u8, 82u8, 78u8, 83u8] {
        Some(ChunkType::tRNS)
    } else if n == seq![112u8, 72u8, 89u8, 115u8] {
        Some(ChunkType::pHYs)
    } else if n == seq![115u8, 80u8, 76u8, 84u8] {
        Some(ChunkType::sPLT)
    } else if n == seq![116u8, 73u8, 77u8, 69u8] {
        Some(ChunkType::tIME)
    } else if n == seq![105u8, 84u8, 88u8, 116u8] {
        Some(ChunkType::iTXt)
    } else if n == seq![116u8, 69u8, 88u8, 116u8] {
        Some(ChunkType::tEXt)
    } else if n == seq![122u8, 84u8, 88u8, 116u8] {
        Some(ChunkType::zTXt)
    } else {
        None
    }
}

fn name_is(n: &Vec<u8>, a: u8, b: u8, c: u8, d: u8) -> (r: bool)
    requires
        n@.len() == 4,
    ensures
        r == (n@ == seq![a, b, c, d]),
{
    let r = n[0] == a && n[1] == b && n[2] == c && n[3] == d;
    proof {
        if r {
            assert(n@ =~= seq![a, b, c, d]);
        }
    }
    r
}

/// The chunk type named by four bytes.
pub fn chunk_type_from_name(n: &Vec<u8>) -> (r: Option<ChunkType>)
    ensures
        r == chunk_type_of(n@),
{
    if n.len() != 4 {
        None
    } else if name_is(n, 73, 72, 68, 82) {
        Some(ChunkType::IHDR)
    } else if name_is(n, 80, 76, 84, 69) {
        Some(ChunkType::PLTE)
    } else if name_is(n, 73, 68, 65, 84) {
        Some(ChunkType::IDAT)
    } else if name_is(n, 73, 69, 78, 68) {
        Some(ChunkType::IEND)
    } else if name_is(n, 99, 72, 82, 77) {
        Some(ChunkType::cHRM)
    } else if name_is(n, 103, 65, 77, 65) {
        Some(ChunkType::gAMA)
    } else if name_is(n, 105, 67, 67, 80) {
        Some(ChunkType::iCCP)
    } else if name_is(n, 115, 66, 73, 84) {
        Some(ChunkType::sBIT)
    } else if name_is(n, 115, 82, 71, 66) {
        Some(ChunkType::sRGB)
    } else if name_is(n, 98, 107, 71, 68) {
        Some(ChunkType::bkGD)
    } else if name_is(n, 104, 73, 83, 84) {
        Some(ChunkType::hIST)
    } else if name_is(n, 116, 82, 78, 83) {
        Some(ChunkType::tRNS)
    } else if name_is(n, 112, 72, 89, 115) {
        Some(ChunkType::pHYs)
    } else if name_is(n, 115, 80, 76, 84) {
        Some(ChunkType::sPLT)
    } else if name_is(n, 116, 73, 77, 69) {
        Some(ChunkType::tIME)
    } else if name_is(n, 105, 84, 88, 116) {
        Some(ChunkType::iTXt)
    } else if name_is(n, 116, 69, 88, 116) {
        Some(ChunkType::tEXt)
    } else if name_is(n, 122, 84, 88, 116) {
        Some(ChunkType::zTXt)
    } else {
        None
    }
}

/// A parsed chunk: its type, its declared length and its body.
pub ghost struct ChunkModel {
    pub chunk_type: ChunkType,
    pub length: u32,
    pub body: Seq<u8>,
}

/// The chunk that starts at `pos` of `d`, with the position after its CRC;
/// every short read is a `Reader` error.
pub open spec fn spec_chunk(d: Seq<u8>, pos: int) -> Result<(ChunkModel, int), Error> {
    if pos + 8 > d.len() {
        Err(Error::Reader)
    } else {
        let length = be_u32(d[pos], d[pos + 1], d[pos + 2], d[pos + 3]);
        let name = d.subrange(pos + 4, pos + 8);
        let body_end = pos + 8 + length;
        if length > 0 && body_end > d.len() {
            Err(Error::Reader)
        } else if body_end + 4 > d.len() {
            Err(Error::Reader)
        } else {
            match chunk_type_of(name) {
                None => Err(Error::UnknownChunkType),
                Some(t) => Ok((ChunkModel { chunk_type: t, length, body: d.subrange(pos + 8, body_end) }, body_end + 4)),
            }
        }
    }
}

/// A chunk with a reader over its body.
#[derive(Debug)]
pub struct Chunk {
    pub chunk_type: ChunkType,
    pub length: u32,
    pub reader: ByteReader,
}

impl Chunk {
    /// The chunk's type, declared length and body.
    pub open spec fn model(&self) -> ChunkModel {
        ChunkModel { chunk_type: self.chunk_type, length: self.length, body: self.reader@.data }
    }

    /// The reader is at the start of the body, which has the declared length.
    pub open spec fn fresh(&self) -> bool {
        self.reader.wf() && self.reader@.pos == 0 && self.reader@.data.len() == self.length
    }

    /// Reads the chunk at the reader's cursor.
    pub fn new(file_reader: &mut ByteReader) -> (r: Result<Chunk, Error>)
        requires
            old(file_reader).wf(),
        ensures
            final(file_reader).wf(),
            final(file_reader)@.data == old(file_reader)@.data,
            match spec_chunk(old(file_reader)@.data, old(file_reader)@.pos as int) {
                Err(e) => r == Err::<Chunk, Error>(e),
                Ok((c, next)) => r matches Ok(chunk) && chunk.chunk_type == c.chunk_type
                    && chunk.length == c.length && chunk.reader@.data == c.body && chunk.fresh()
                    && final(file_reader)@.pos == next,
            },
            r == Err::<Chunk, Error>(Error::Reader) ==> final(file_reader)@.pos == old(file_reader)@.data.len(),
            r == Err::<Chunk, Error>(Error::UnknownChunkType) ==> final(file_reader)@.pos
                == old(file_reader)@.pos + 8 + be_u32(
                    old(file_reader)@.data[old(file_reader)@.pos as int],
                    old(file_reader)@.data[old(file_reader)@.pos as int + 1],
                    old(file_reader)@.data[old(file_reader)@.pos as int + 2],
                    old(file_reader)@.data[old(file_reader)@.pos as int + 3],
                ) + 4,
    {
        let ghost d = old(file_reader)@.data;
        let ghost pos = old(file_reader)@.pos as int;
        let length = match file_reader.read_u32() {
            Ok(l) => l,
            Err(_) => return Err(Error::Reader),
        };
        let name = match file_reader.read_bytes(4) {
            Ok(n) => n,
            Err(_) => return Err(Error::Reader),
        };
        assert(file_reader@.pos == pos + 8);
        let data = match file_reader.read_bytes(length as usize) {
            Ok(b) => b,
            Err(_) => return Err(Error::Reader),
        };
        let reader = ByteReader::new(data);
        match file_reader.read_u32() {
            Ok(_) => {},
            Err(_) => return Err(Error::Reader),
        }
        proof {
            assert(pos + 8 <= d.len());
            if length == 0 {
                assert(length as usize == 0);
                assert(data@.len() == 0);
                assert(data@ =~= d.subrange(pos + 8, pos + 8));
            }
        }
        match chunk_type_from_name(&name) {
            Some(chunk_type) => Ok(Chunk { chunk_type, length, reader }),
            None => Err(Error::UnknownChunkType),
        }
    }
}

} // verus!
verus! {

/// The four-byte name of a chunk type.
pub open spec fn chunk_name(t: ChunkType) -> Seq<u8> {
    match t {
        ChunkType::IHDR => seq![73u8, 72u8, 68u8, 82u8],
        ChunkType::PLTE => seq![80u8, 76u8, 84u8, 69u8],
        ChunkType::IDAT => seq![73u8, 68u8, 65u8, 84u8],
        ChunkType::IEND => seq![73u8, 69u8, 78u8, 68u8],
        ChunkType::cHRM => seq![99u8, 72u8, 82u8, 77u8],
        ChunkType::gAMA => seq![103u8, 65u8, 77u8, 65u8],
        ChunkType::iCCP => seq![105u8, 67u8, 67u8, 80u8],
        ChunkType::sBIT => seq![115u8, 66u8, 73u8, 84u8],
        ChunkType::sRGB => seq![115u8, 82u8, 71u8, 66u8],
        ChunkType::bkGD => seq![98u8, 107u8, 71u8, 68u8],
        ChunkType::hIST => seq![104u8, 73u8, 83u8, 84u8],
        ChunkType::tRNS => seq![116u8, 82u8, 78u8, 83u8],
        ChunkType::pHYs => seq![112u8, 72u8, 89u8, 115u8],
        ChunkType::sPLT => seq![115u8, 80u8, 76u8, 84u8],
        ChunkType::tIME => seq![116u8, 73u8, 77u8, 69u8],
        ChunkType::iTXt => seq![105u8, 84u8, 88u8, 116u8],
        ChunkType::tEXt => seq![116u8, 69u8, 88u8, 116u8],
        ChunkType::zTXt => seq![122u8, 84u8, 88u8, 116u8],
    }
}

/// Every chunk type's name parses back to that type.
pub proof fn law_chunk_names_parse_back(t: ChunkType)
    ensures
        chunk_type_of(chunk_name(t)) == Some(t),
{
    match t {
        ChunkType::IHDR => {},
        ChunkType::PLTE => {},
        ChunkType::IDAT => {},
        ChunkType::IEND => {},
        ChunkType::cHRM => {},
        ChunkType::gAMA => {},
        ChunkType::iCCP => {},
        ChunkType::sBIT => {},
        ChunkType::sRGB => {},
        ChunkType::bkGD => {},
        ChunkType::hIST => {},
        ChunkType::tRNS => {},
        ChunkType::pHYs => {},
        ChunkType::sPLT => {},
        ChunkType::tIME => {},
        ChunkType::iTXt => {},
        ChunkType::tEXt => {},
        ChunkType::zTXt => {},
    }
}

/// The big-endian bytes of `n`.
pub open spec fn be_bytes(n: u32) -> Seq<u8> {
    seq![(n / 0x100_0000) as u8, (n / 0x1_0000 % 0x100) as u8, (n / 0x100 % 0x100) as u8, (n % 0x100) as u8]
}

proof fn lemma_be_bytes(n: u32)
    ensures
        be_bytes(n).len() == 4,
        be_u32(be_bytes(n)[0], be_bytes(n)[1], be_bytes(n)[2], be_bytes(n)[3]) == n,
{
    let b = be_bytes(n);
    assert(b[0] as int == n / 0x100_0000);
    assert(b[1] as int == n / 0x1_0000 % 0x100);
    assert(b[2] as int == n / 0x100 % 0x100);
    assert(b[3] as int == n % 0x100);
}

/// A chunk as a file holds it: its name, its body, and a CRC that decoding
/// does not check.
pub ghost struct RawChunk {
    pub name: Seq<u8>,
    pub body: Seq<u8>,
    pub crc: Seq<u8>,
}

impl RawChunk {
    pub open spec fn well_sized(self) -> bool {
        self.name.len() == 4 && self.crc.len() == 4 && self.body.len() <= u32::MAX
    }

    /// The chunk's bytes: the body's length, big-endian, then the name, the
    /// body and the CRC.
    pub open spec fn bytes(self) -> Seq<u8> {
        be_bytes(self.body.len() as u32) + self.name + self.body + self.crc
    }

    /// What the chunk parses to when its name is known.
    pub open spec fn model(self) -> ChunkModel {
        ChunkModel { chunk_type: chunk_type_of(self.name).unwrap(), length: self.body.len() as u32, body: self.body }
    }
}

/// A well-sized chunk laid out at `pos` parses to its model, or to an
/// unknown-type error when its name is not a chunk type, and the next chunk
/// starts right after its bytes.
pub proof fn lemma_chunk_of_bytes(d: Seq<u8>, pos: int, c: RawChunk)
    requires
        0 <= pos,
        c.well_sized(),
        pos + c.bytes().len() <= d.len(),
        d.subrange(pos, pos + c.bytes().len()) == c.bytes(),
    ensures
        c.bytes().len() == c.body.len() + 12,
        spec_chunk(d, pos) == match chunk_type_of(c.name) {
            None => Err::<(ChunkModel, int), Error>(Error::UnknownChunkType),
            Some(t) => Ok::<(ChunkModel, int), Error>((c.model(), pos + c.bytes().len())),
        },
{
    lemma_be_bytes(c.body.len() as u32);
    let b = c.bytes();
    let l = be_bytes(c.body.len() as u32);
    assert(b.len() == c.body.len() + 12);
    assert forall|k: int| 0 <= k < b.len() implies #[trigger] d[pos + k] == b[k] by {
        assert(d.subrange(pos, pos + b.len())[k] == d[pos + k]);
    }
    assert(d[pos] == l[0] && d[pos + 1] == l[1] && d[pos + 2] == l[2] && d[pos + 3] == l[3]) by {
        assert(d[pos + 0] == b[0]);
        assert(d[pos + 1] == b[1]);
        assert(d[pos + 2] == b[2]);
        assert(d[pos + 3] == b[3]);
    }
    assert(d.subrange(pos + 4, pos + 8) =~= c.name) by {
        assert forall|k: int| 0 <= k < 4 implies d.subrange(pos + 4, pos + 8)[k] == c.name[k] by {
            assert(d[pos + (4 + k)] == b[4 + k]);
        }
    }
    let body_end = pos + 8 + c.body.len();
    assert(d.subrange(pos + 8, body_end) =~= c.body) by {
        assert forall|k: int| 0 <= k < c.body.len() implies d.subrange(pos + 8, body_end)[k] == c.body[k] by {
            assert(d[pos + (8 + k)] == b[8 + k]);
        }
    }
}

} // verus!
