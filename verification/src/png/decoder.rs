use vstd::prelude::*;
use std::io::Read;
use crate::png::reader::{ByteReader, Error, be_u32};
use crate::png::chunk::{Chunk, ChunkModel, ChunkType, spec_chunk};
use crate::png::filter::{unfilter_image, unfilter_image_into, law_valid_scanlines_decode, decodable_filter, filter_of, all_opaque};

verus! {

/// What libflate's zlib decoder yields for a compressed stream: the
/// inflated bytes, or `None` where it reports an error.
pub uninterp spec fn zlib_inflate(data: Seq<u8>) -> Option<Seq<u8>>;

/// Inflates a zlib stream with `libflate::zlib::Decoder` (`Decoder::new`,
/// then `read_to_end`). The contract only names the result: it is
/// `zlib_inflate` of the input, `None` where either call fails.
#[verifier::external_body]
fn inflate(data: &[u8]) -> (r: Option<Vec<u8>>)
    ensures
        match zlib_inflate(data@) {
            None => r is None,
            Some(d) => r matches Some(v) && v@ == d,
        },
{
    let mut decoder = match libflate::zlib::Decoder::new(data) {
        Ok(d) => d,
        Err(_) => return None,
    };
    let mut out = Vec::new();
    match decoder.read_to_end(&mut out) {
        Ok(_) => Some(out),
        Err(_) => None,
    }
}

/// The image header.
#[derive(Debug, Clone, Copy, PartialEq, Eq, Structural)]
pub struct PNGFormat {
    pub width: u32,
    pub height: u32,
    pub bit_depth: u8,
    pub color_type: u8,
    pub compression_method: u8,
    pub filter_method: u8,
    pub interlace_method: u8,
    pub bytes_per_pixel: usize,
}

/// The header that an IHDR chunk declares. `None` where decoding stops: the
/// chunk is not an IHDR chunk, or its colour type is neither truecolour (2)
/// nor truecolour with alpha (6).
pub open spec fn spec_ihdr(c: ChunkModel) -> Option<Result<PNGFormat, Error>> {
    if c.chunk_type != ChunkType::IHDR {
        None
    } else if c.body.len() < 13 {
        Some(Err(Error::Reader))
    } else {
        let b = c.body;
        let bit_depth = b[8];
        let color_type = b[9];
        if color_type != 2 && color_type != 6 {
            None
        } else {
            Some(Ok(PNGFormat {
                width: be_u32(b[0], b[1], b[2], b[3]),
                height: be_u32(b[4], b[5], b[6], b[7]),
                bit_depth,
                color_type,
                compression_method: b[10],
                filter_method: b[11],
                interlace_method: b[12],
                bytes_per_pixel: (bit_depth / 8 * (if color_type == 2 { 3u8 } else { 4u8 })) as usize,
            }))
        }
    }
}

impl PNGFormat {
    /// Reads the header from an IHDR chunk; `None` where decoding stops.
    fn from_ihdr_chunk(chunk: Chunk) -> (r: Option<Result<PNGFormat, Error>>)
        requires
            chunk.reader.wf(),
            chunk.reader@.pos == 0,
        ensures
            r == spec_ihdr(chunk.model()),
    {
        if chunk.chunk_type != ChunkType::IHDR {
            return None;
        }
        let mut reader = chunk.reader;
        let width = match reader.read_u32() {
            Ok(v) => v,
            Err(_) => return Some(Err(Error::Reader)),
        };
        let height = match reader.read_u32() {
            Ok(v) => v,
            Err(_) => return Some(Err(Error::Reader)),
        };
        let bit_depth = match reader.read_u8() {
            Ok(v) => v,
            Err(_) => return Some(Err(Error::Reader)),
        };
        let color_type = match reader.read_u8() {
            Ok(v) => v,
            Err(_) => return Some(Err(Error::Reader)),
        };
        let compression_method = match reader.read_u8() {
            Ok(v) => v,
            Err(_) => return Some(Err(Error::Reader)),
        };
        let filter_method = match reader.read_u8() {
            Ok(v) => v,
            Err(_) => return Some(Err(Error::Reader)),
        };
        let interlace_method = match reader.read_u8() {
            Ok(v) => v,
            Err(_) => return Some(Err(Error::Reader)),
        };
        let bytes_per_pixel = if color_type == 2 {
            bit_depth as usize / 8 * 3
        } else if color_type == 6 {
            bit_depth as usize / 8 * 4
        } else {
            return None;
        };
        Some(Ok(PNGFormat {
            width,
            height,
            bit_depth,
            color_type,
            compression_method,
            filter_method,
            interlace_method,
            bytes_per_pixel,
        }))
    }
}


/// How the pixels of the image are stored.
#[derive(Debug, Clone, Copy, PartialEq, Eq, Structural)]
pub enum PixelType {
    IndexedColor,
    GrayScale,
    TrueColor,
}

/// The chunks from `pos` on, appended to `acc`, up to and including the
/// first IEND chunk.
pub open spec fn spec_chunks(d: Seq<u8>, pos: int, acc: Seq<ChunkModel>) -> Result<Seq<ChunkModel>, Error>
    decreases d.len() - pos,
{
    if acc.len() > 0 && acc.last().chunk_type == ChunkType::IEND {
        Ok(acc)
    } else if pos >= d.len() {
        Err(Error::Reader)
    } else {
        match spec_chunk(d, pos) {
            Err(e) => if e == Error::EndOfBuf { Ok(acc) } else { Err(e) },
            Ok((c, next)) => spec_chunks(d, next, acc.push(c)),
        }
    }
}

/// The pixel type that the chunks declare: indexed colour when there is a
/// palette chunk, truecolour otherwise; greyscale is never chosen.
pub open spec fn spec_pixel_type(chunks: Seq<ChunkModel>) -> PixelType {
    if exists|i: int| 0 <= i < chunks.len() && chunks[i].chunk_type == ChunkType::PLTE {
        PixelType::IndexedColor
    } else {
        PixelType::TrueColor
    }
}

/// The header and the remaining chunks of a file whose first chunk starts at
/// `pos`; `None` where decoding stops.
pub open spec fn spec_header(d: Seq<u8>, pos: int) -> Option<Result<(PNGFormat, Seq<ChunkModel>), Error>> {
    match spec_chunk(d, pos) {
        Err(e) => Some(Err(e)),
        Ok((c, next)) => match spec_ihdr(c) {
            None => None,
            Some(Err(e)) => Some(Err(e)),
            Some(Ok(f)) => match spec_chunks(d, next, Seq::empty()) {
                Err(e) => Some(Err(e)),
                Ok(cs) => Some(Ok((f, cs))),
            },
        },
    }
}

/// The image bytes from the first `k` chunks; `None` where decoding stops.
pub open spec fn spec_decode_chunks(chunks: Seq<ChunkModel>, f: PNGFormat, k: nat) -> Option<Result<Seq<u8>, Error>>
    decreases k,
{
    if k == 0 {
        Some(Ok(Seq::empty()))
    } else {
        match spec_decode_chunks(chunks, f, (k - 1) as nat) {
            None => None,
            Some(Err(e)) => Some(Err(e)),
            Some(Ok(acc)) => {
                let c = chunks[k - 1];
                if c.chunk_type == ChunkType::IDAT {
                    match zlib_inflate(c.body) {
                        None => Some(Err(Error::Decoding)),
                        Some(data) => match unfilter_image(data, f.width, f.height, f.bytes_per_pixel as int) {
                            None => None,
                            Some(img) => Some(Ok(acc + img)),
                        },
                    }
                } else {
                    Some(Ok(acc))
                }
            },
        }
    }
}

proof fn lemma_decode_stops(chunks: Seq<ChunkModel>, f: PNGFormat, k: nat, m: nat)
    requires
        k <= m,
        !(spec_decode_chunks(chunks, f, k) is Some && spec_decode_chunks(chunks, f, k).unwrap() is Ok),
    ensures
        spec_decode_chunks(chunks, f, m) == spec_decode_chunks(chunks, f, k),
    decreases m - k,
{
    if k < m {
        lemma_decode_stops(chunks, f, k, (m - 1) as nat);
    }
}

/// The image bytes of a parsed file; `None` where decoding stops, including
/// where `width * height * 4` overflows a `u32`.
pub open spec fn spec_image(f: PNGFormat, chunks: Seq<ChunkModel>) -> Option<Result<Seq<u8>, Error>> {
    if f.width * f.height * 4 > u32::MAX {
        None
    } else {
        spec_decode_chunks(chunks, f, chunks.len())
    }
}

/// The PNG signature.
pub open spec fn png_signature() -> Seq<u8> {
    seq![0x89u8, 0x50u8, 0x4eu8, 0x47u8, 0x0du8, 0x0au8, 0x1au8, 0x0au8]
}

/// What decoding the file that starts at `pos` of `d` gives: the RGBA bytes
/// and the dimensions, or an error; `None` where decoding stops.
pub open spec fn spec_to_bytes(d: Seq<u8>, pos: int) -> Option<Result<(Seq<u8>, (u32, u32)), Error>> {
    if pos + 8 > d.len() {
        Some(Err(Error::Reader))
    } else if d.subrange(pos, pos + 8) != png_signature() {
        Some(Err(Error::InvalidFile))
    } else {
        match spec_header(d, pos + 8) {
            None => None,
            Some(Err(e)) => Some(Err(e)),
            Some(Ok((f, cs))) => match spec_image(f, cs) {
                None => None,
                Some(Err(e)) => Some(Err(e)),
                Some(Ok(img)) => Some(Ok((img, (f.width, f.height)))),
            },
        }
    }
}

proof fn lemma_single_idat(chunks: Seq<ChunkModel>, f: PNGFormat, i: int, img: Seq<u8>, k: nat)
    requires
        0 <= i < chunks.len(),
        k <= chunks.len(),
        chunks[i].chunk_type == ChunkType::IDAT,
        forall|j: int| 0 <= j < chunks.len() && j != i ==> #[trigger] chunks[j].chunk_type != ChunkType::IDAT,
        zlib_inflate(chunks[i].body) matches Some(d)
            && unfilter_image(d, f.width, f.height, f.bytes_per_pixel as int) == Some(img),
    ensures
        spec_decode_chunks(chunks, f, k) == Some(Ok::<Seq<u8>, Error>(if k > i { img } else { Seq::empty() })),
    decreases k,
{
    if k > 0 {
        lemma_single_idat(chunks, f, i, img, (k - 1) as nat);
        if k - 1 == i {
            assert(Seq::<u8>::empty() + img =~= img);
        } else {
            assert(chunks[k - 1].chunk_type != ChunkType::IDAT);
        }
    }
}

/// A file with a single pixel-data chunk, whose inflated scanlines are all
/// there and carry filters that decode (none, sub or Paeth, or up below the
/// first row), decodes: to the unfiltered scanlines in row order, four
/// bytes for each pixel, every pixel opaque when pixels have three bytes.
/// Other chunks add nothing.
pub proof fn law_single_idat_decodes(f: PNGFormat, chunks: Seq<ChunkModel>, i: int, data: Seq<u8>)
    requires
        f.bytes_per_pixel == 3 || f.bytes_per_pixel == 4,
        f.width * f.height * 4 <= u32::MAX,
        f.width * f.bytes_per_pixel + 1 <= usize::MAX,
        f.width * 4 <= usize::MAX,
        0 <= i < chunks.len(),
        chunks[i].chunk_type == ChunkType::IDAT,
        forall|j: int| 0 <= j < chunks.len() && j != i ==> #[trigger] chunks[j].chunk_type != ChunkType::IDAT,
        zlib_inflate(chunks[i].body) == Some(data),
        f.height * (f.width * f.bytes_per_pixel + 1) <= data.len(),
        forall|q: int| 0 <= q < f.height ==>
            decodable_filter(#[trigger] filter_of(data, f.width * f.bytes_per_pixel + 1, q), q == 0),
    ensures
        spec_image(f, chunks) matches Some(Ok(img)) && {
            &&& unfilter_image(data, f.width, f.height, f.bytes_per_pixel as int) == Some(img)
            &&& img.len() == f.width * f.height * 4
            &&& f.bytes_per_pixel == 3 ==> all_opaque(img)
        },
{
    let bpp = f.bytes_per_pixel as int;
    law_valid_scanlines_decode(data, f.width, f.height, bpp);
    let img = unfilter_image(data, f.width, f.height, bpp).unwrap();
    lemma_single_idat(chunks, f, i, img, chunks.len());
}

/// A file is read no further than its first eight bytes unless they are the
/// PNG signature: fewer than eight bytes is a reader error, eight others an
/// invalid file.
pub proof fn law_signature_checked_first(d: Seq<u8>, pos: int)
    ensures
        pos + 8 > d.len() ==> spec_to_bytes(d, pos) == Some(Err::<(Seq<u8>, (u32, u32)), Error>(Error::Reader)),
        pos + 8 <= d.len() && d.subrange(pos, pos + 8) != png_signature()
            ==> spec_to_bytes(d, pos) == Some(Err::<(Seq<u8>, (u32, u32)), Error>(Error::InvalidFile)),
{
}

/// Reads chunks from the reader's cursor up to and including the first
/// IEND chunk.
fn read_chunks(reader: &mut ByteReader) -> (r: Result<Vec<Chunk>, Error>)
    requires
        old(reader).wf(),
    ensures
        match spec_chunks(old(reader)@.data, old(reader)@.pos as int, Seq::empty()) {
            Err(e) => r == Err::<Vec<Chunk>, Error>(e),
            Ok(cs) => r matches Ok(v) && v@.map_values(|c: Chunk| c.model()) == cs
                && forall|i: int| 0 <= i < v@.len() ==> #[trigger] v@[i].fresh(),
        },
{
    let ghost d = reader@.data;
    let ghost start = reader@.pos as int;
    let mut chunks: Vec<Chunk> = Vec::new();
    proof {
        assert(chunks@.map_values(|c: Chunk| c.model()) =~= Seq::<ChunkModel>::empty());
    }
    loop
        invariant_except_break
            reader.wf(),
            reader@.data == d,
            d == old(reader)@.data,
            start == old(reader)@.pos,
            spec_chunks(d, start, Seq::empty()) == spec_chunks(d, reader@.pos as int, chunks@.map_values(|c: Chunk| c.model())),
            forall|i: int| 0 <= i < chunks@.len() ==> #[trigger] chunks@[i].fresh(),
        ensures
            spec_chunks(d, start, Seq::empty()) == Ok::<Seq<ChunkModel>, Error>(chunks@.map_values(|c: Chunk| c.model())),
            forall|i: int| 0 <= i < chunks@.len() ==> #[trigger] chunks@[i].fresh(),
        decreases d.len() - reader@.pos,
    {
        let ghost acc = chunks@.map_values(|c: Chunk| c.model());
        let n = chunks.len();
        if n > 0 && chunks[n - 1].chunk_type == ChunkType::IEND {
            proof {
                assert(acc.last().chunk_type == ChunkType::IEND);
                assert(spec_chunks(d, reader@.pos as int, acc) == Ok::<Seq<ChunkModel>, Error>(acc));
            }
            break;
        }
        let ghost p = reader@.pos as int;
        proof {
            assert(!(acc.len() > 0 && acc.last().chunk_type == ChunkType::IEND)) by {
                if acc.len() > 0 {
                    assert(acc.last() == chunks@[n - 1].model());
                }
            }
        }
        match Chunk::new(reader) {
            Ok(c) => {
                chunks.push(c);
                proof {
                    assert(chunks@.map_values(|c: Chunk| c.model()) =~= acc.push(c.model()));
                }
            },
            Err(e) => {
                proof {
                    assert(spec_chunks(d, p, acc) == Err::<Seq<ChunkModel>, Error>(e));
                }
                if e == Error::EndOfBuf {
                    break;
                } else {
                    return Err(e);
                }
            },
        }
    }
    Ok(chunks)
}

/// A file split into its header and chunks.
#[derive(Debug)]
pub struct PNGParser {
    pub format: PNGFormat,
    pub pixel_type: PixelType,
    pub chunks: Vec<Chunk>,
}

impl PNGParser {
    pub open spec fn chunk_models(&self) -> Seq<ChunkModel> {
        self.chunks@.map_values(|c: Chunk| c.model())
    }

    pub open spec fn chunks_fresh(&self) -> bool {
        forall|i: int| 0 <= i < self.chunks@.len() ==> #[trigger] self.chunks@[i].fresh()
    }

    /// Reads the header and the chunks up to IEND; `None` where decoding stops.
    fn new(reader: ByteReader) -> (r: Option<Result<PNGParser, Error>>)
        requires
            reader.wf(),
        ensures
            match spec_header(reader@.data, reader@.pos as int) {
                None => r is None,
                Some(Err(e)) => r == Some(Err::<PNGParser, Error>(e)),
                Some(Ok((f, cs))) => r matches Some(Ok(p)) && p.format == f && p.chunk_models() == cs
                    && p.chunks_fresh() && p.pixel_type == spec_pixel_type(cs),
            },
    {
        let mut reader = reader;
        let ghost d = reader@.data;
        let ghost old_pos = reader@.pos as int;
        let ihdr_chunk = match Chunk::new(&mut reader) {
            Ok(c) => c,
            Err(e) => return Some(Err(e)),
        };
        let ghost c0 = ihdr_chunk.model();
        proof {
            let (c, next) = spec_chunk(d, old_pos).unwrap();
            assert(c0 == c);
            assert(reader@.pos == next);
        }
        let format = match PNGFormat::from_ihdr_chunk(ihdr_chunk) {
            None => return None,
            Some(Err(e)) => return Some(Err(e)),
            Some(Ok(f)) => f,
        };
        let chunks = match read_chunks(&mut reader) {
            Ok(cs) => cs,
            Err(e) => return Some(Err(e)),
        };
        let ghost cs = chunks@.map_values(|c: Chunk| c.model());
        let mut indexed_color = false;
        let mut i: usize = 0;
        while i < chunks.len()
            invariant
                i <= chunks@.len(),
                cs == chunks@.map_values(|c: Chunk| c.model()),
                indexed_color == exists|j: int| 0 <= j < i && cs[j].chunk_type == ChunkType::PLTE,
            decreases chunks@.len() - i,
        {
            if chunks[i].chunk_type == ChunkType::PLTE {
                indexed_color = true;
            }
            proof {
                if indexed_color {
                    if chunks@[i as int].chunk_type == ChunkType::PLTE {
                        assert(cs[i as int].chunk_type == ChunkType::PLTE);
                    }
                }
            }
            i = i + 1;
        }
        let grayscale = indexed_color && format.color_type == 0;
        let pixel_type = if indexed_color {
            PixelType::IndexedColor
        } else if grayscale {
            PixelType::GrayScale
        } else {
            PixelType::TrueColor
        };
        Some(Ok(PNGParser { format, chunks, pixel_type }))
    }

    /// The RGBA bytes of the image; `None` where decoding stops.
    fn parse_to_bytes(self) -> (r: Option<Result<Vec<u8>, Error>>)
        requires
            self.chunks_fresh(),
        ensures
            match spec_image(self.format, self.chunk_models()) {
                None => r is None,
                Some(Err(e)) => r == Some(Err::<Vec<u8>, Error>(e)),
                Some(Ok(img)) => r matches Some(Ok(v)) && v@ == img,
            },
    {
        let format = self.format;
        let ghost models = self.chunk_models();
        match format.width.checked_mul(format.height) {
            None => return None,
            Some(wh) => match wh.checked_mul(4) {
                None => return None,
                Some(_) => {},
            },
        }
        let mut chunks = self.chunks;
        let mut bytes: Vec<u8> = Vec::new();
        let n = chunks.len();
        let mut i: usize = 0;
        while i < n
            invariant
                i <= n,
                chunks@.len() == n - i,
                models.len() == n,
                forall|j: int| 0 <= j < chunks@.len() ==> #[trigger] chunks@[j].fresh() && chunks@[j].model() == models[i + j],
                spec_decode_chunks(models, format, i as nat) == Some(Ok::<Seq<u8>, Error>(bytes@)),
                format.width * format.height * 4 <= u32::MAX,
                models == self.chunk_models(),
                format == self.format,
            decreases n - i,
        {
            let ghost before_chunks = chunks@;
            let mut chunk = chunks.remove(0);
            proof {
                assert(before_chunks[0].fresh() && before_chunks[0].model() == models[i + 0]);
                assert forall|j: int| 0 <= j < chunks@.len() implies #[trigger] chunks@[j].fresh()
                    && chunks@[j].model() == models[(i + 1) + j] by {
                    assert(chunks@[j] == before_chunks[j + 1]);
                }
            }
            if chunk.chunk_type == ChunkType::IDAT {
                let compressed = match chunk.reader.read_bytes(chunk.length as usize) {
                    Ok(c) => c,
                    Err(_) => return Some(Err(Error::Reader)),
                };
                proof {
                    assert(compressed@ =~= models[i as int].body);
                }
                let data = match inflate(compressed.as_slice()) {
                    None => {
                        proof {
                            lemma_decode_stops(models, format, (i + 1) as nat, models.len());
                        }
                        return Some(Err(Error::Decoding));
                    },
                    Some(d) => d,
                };
                if !unfilter_image_into(&data, format.width, format.height, format.bytes_per_pixel, &mut bytes) {
                    proof {
                        lemma_decode_stops(models, format, (i + 1) as nat, models.len());
                    }
                    return None;
                }
            }
            let ghost next = i + 1;
            assert(forall|j: int| 0 <= j < chunks@.len() ==> #[trigger] chunks@[j].fresh() && chunks@[j].model() == models[next + j]);
            i = i + 1;
            assert forall|j: int| 0 <= j < chunks@.len() implies #[trigger] chunks@[j].fresh() && chunks@[j].model() == models[i + j] by {
                assert(chunks@[j].fresh());
                assert(chunks@[j].model() == models[next + j]);
            }
        }
        Some(Ok(bytes))
    }
}

/// Decodes a PNG file read from the reader's cursor into RGBA bytes and
/// its dimensions. `None` where decoding stops: the first chunk is not an
/// IHDR chunk, the colour type is neither 2 nor 6, the pixel count times four
/// overflows a `u32`, or the pixel data cannot be unfiltered.
pub fn to_bytes(reader: ByteReader) -> (r: Option<Result<(Vec<u8>, (u32, u32)), Error>>)
    requires
        reader.wf(),
    ensures
        match spec_to_bytes(reader@.data, reader@.pos as int) {
            None => r is None,
            Some(Err(e)) => r == Some(Err::<(Vec<u8>, (u32, u32)), Error>(e)),
            Some(Ok((img, dims))) => r matches Some(Ok((v, dv))) && v@ == img && dv == dims,
        },
{
    let mut reader = reader;
    let ghost d = reader@.data;
    let ghost pos = reader@.pos as int;
    let read_signature = match reader.read_bytes(8) {
        Ok(s) => s,
        Err(_) => return Some(Err(Error::Reader)),
    };
    let signature: [u8; 8] = [0x89, 0x50, 0x4e, 0x47, 0x0d, 0x0a, 0x1a, 0x0a];
    let mut same = true;
    let mut k: usize = 0;
    while k < 8
        invariant
            k <= 8,
            read_signature@.len() == 8,
            signature@ == png_signature(),
            same == forall|m: int| 0 <= m < k ==> read_signature@[m] == #[trigger] png_signature()[m],
        decreases 8 - k,
    {
        if read_signature[k] != signature[k] {
            same = false;
        }
        k = k + 1;
    }
    proof {
        assert(read_signature@ == d.subrange(pos, pos + 8));
        if same {
            assert(read_signature@ =~= png_signature());
        }
    }
    if !same {
        return Some(Err(Error::InvalidFile));
    }
    let parser = match PNGParser::new(reader) {
        None => return None,
        Some(Err(e)) => return Some(Err(e)),
        Some(Ok(p)) => p,
    };
    let width = parser.format.width;
    let height = parser.format.height;
    let dimensions = (width, height);
    let bytes = match parser.parse_to_bytes() {
        None => return None,
        Some(Err(e)) => return Some(Err(e)),
        Some(Ok(b)) => b,
    };
    Some(Ok((bytes, dimensions)))
}

} // verus!
