use vstd::prelude::*;

verus! {

pub open spec fn abs_diff(x: int, y: int) -> int {
    if x >= y { x - y } else { y - x }
}

/// The Paeth predictor: of `a` (left), `b` (up) and `c` (up-left), the one
/// closest to `a + b - c`, ties going to `a`, then `b`.
pub open spec fn paeth(a: int, b: int, c: int) -> int {
    let p = a + b - c;
    if abs_diff(p, a) <= abs_diff(p, b) && abs_diff(p, a) <= abs_diff(p, c) {
        a
    } else if abs_diff(p, b) <= abs_diff(p, c) {
        b
    } else {
        c
    }
}

fn abs_diff_i64(x: i64, y: i64) -> (r: u32)
    requires
        abs_diff(x as int, y as int) <= u32::MAX,
    ensures
        r == abs_diff(x as int, y as int),
{
    if x >= y { (x - y) as u32 } else { (y - x) as u32 }
}

/// The Paeth predictor of three neighbouring samples, truncated to a byte.
pub fn paeth_predictor(a: i32, b: i32, c: i32) -> (r: u8)
    requires
        i32::MIN <= a + b <= i32::MAX,
        i32::MIN <= a + b - c <= i32::MAX,
    ensures
        r == paeth(a as int, b as int, c as int) as u8,
{
    let p = a + b - c;
    let pa = abs_diff_i64(p as i64, a as i64);
    let pb = abs_diff_i64(p as i64, b as i64);
    let pc = abs_diff_i64(p as i64, c as i64);
    if pa <= pb && pa <= pc {
        a as u8
    } else if pb <= pc {
        b as u8
    } else {
        c as u8
    }
}

/// `x + y` modulo 256.
pub open spec fn add_mod(x: u8, y: u8) -> u8 {
    ((x as int + y as int) % 256) as u8
}

/// The unfiltered byte at `index` of a scanline with filter type `filter`,
/// given its raw bytes, the bytes of the scanline unfiltered before it, and
/// the unfiltered bytes of the previous scanline (empty on the first).
/// `None` where decoding stops: the average filter, an unknown filter, or
/// an up filter with no byte above.
pub open spec fn filter_byte(filter: u8, raw: Seq<u8>, decoded: Seq<u8>, prev: Seq<u8>, index: int, bpp: int) -> Option<u8> {
    if filter == 0 {
        Some(raw[index])
    } else if filter == 1 {
        if index < bpp {
            Some(raw[index])
        } else if index - bpp >= decoded.len() {
            None
        } else {
            Some(add_mod(raw[index], decoded[index - bpp]))
        }
    } else if filter == 2 {
        if index < prev.len() {
            Some(add_mod(raw[index], prev[index]))
        } else {
            None
        }
    } else if filter == 4 {
        let left: int = if index < bpp { 0 } else { decoded[index - bpp] as int };
        if index >= bpp && index - bpp >= decoded.len() {
            None
        } else if prev.len() != 0 && index >= prev.len() {
            None
        } else {
            let up: int = if prev.len() == 0 { 0 } else { prev[index] as int };
            let top_left: int = if prev.len() == 0 || index < bpp { 0 } else { prev[index - bpp] as int };
            Some(add_mod(raw[index], paeth(left, up, top_left) as u8))
        }
    } else {
        None
    }
}

/// The first `k` unfiltered bytes of a scanline.
pub open spec fn unfilter_prefix(filter: u8, raw: Seq<u8>, prev: Seq<u8>, bpp: int, k: nat) -> Option<Seq<u8>>
    decreases k,
{
    if k == 0 {
        Some(Seq::empty())
    } else {
        match unfilter_prefix(filter, raw, prev, bpp, (k - 1) as nat) {
            None => None,
            Some(d) => match filter_byte(filter, raw, d, prev, k - 1, bpp) {
                None => None,
                Some(b) => Some(d.push(b)),
            },
        }
    }
}

/// The output bytes of one unfiltered scanline: each run of three bytes
/// followed by an opaque alpha when a pixel has three bytes, otherwise each
/// run of four bytes; a trailing partial run is dropped.
pub open spec fn pack_row(row: Seq<u8>, bpp: int) -> Seq<u8>
    decreases row.len(),
{
    let g: int = if bpp == 3 { 3 } else { 4 };
    if row.len() < g {
        Seq::empty()
    } else if bpp == 3 {
        row.take(3).push(0xffu8) + pack_row(row.skip(3), bpp)
    } else {
        row.take(4) + pack_row(row.skip(4), bpp)
    }
}

/// The output of the first `r` scanlines of `data`, each `sl` bytes long
/// (a filter byte then the raw bytes), with the last unfiltered scanline;
/// `None` where decoding stops.
pub open spec fn unfilter_rows(data: Seq<u8>, sl: int, bpp: int, r: nat) -> Option<(Seq<u8>, Seq<u8>)>
    decreases r,
{
    if r == 0 {
        Some((Seq::empty(), Seq::empty()))
    } else {
        match unfilter_rows(data, sl, bpp, (r - 1) as nat) {
            None => None,
            Some((out, prev)) => {
                let offset = (r - 1) * sl;
                if offset + sl > data.len() {
                    None
                } else {
                    let raw = data.subrange(offset + 1, offset + sl);
                    match unfilter_prefix(data[offset], raw, prev, bpp, raw.len()) {
                        None => None,
                        Some(row) => Some((out + pack_row(row, bpp), row)),
                    }
                }
            },
        }
    }
}

/// The image bytes of a decompressed image `width` pixels wide with
/// `height` scanlines of `bpp` bytes per pixel; `None` where decoding stops,
/// including where a size does not fit in a `usize`.
pub open spec fn unfilter_image(data: Seq<u8>, width: u32, height: u32, bpp: int) -> Option<Seq<u8>> {
    if width * bpp + 1 > usize::MAX || width * 4 > usize::MAX {
        None
    } else {
        match unfilter_rows(data, width * bpp + 1, bpp, height as nat) {
            None => None,
            Some((out, _)) => Some(out),
        }
    }
}


proof fn lemma_unfilter_prefix_len(filter: u8, raw: Seq<u8>, prev: Seq<u8>, bpp: int, k: nat)
    ensures
        unfilter_prefix(filter, raw, prev, bpp, k) matches Some(d) ==> d.len() == k,
    decreases k,
{
    if k > 0 {
        lemma_unfilter_prefix_len(filter, raw, prev, bpp, (k - 1) as nat);
    }
}

fn add_mod_exec(x: u8, y: u8) -> (r: u8)
    ensures
        r == add_mod(x, y),
{
    ((x as u16 + y as u16) % 256) as u8
}

proof fn lemma_unfilter_stops(filter: u8, raw: Seq<u8>, prev: Seq<u8>, bpp: int, k: nat, m: nat)
    requires
        k <= m,
        unfilter_prefix(filter, raw, prev, bpp, k) is None,
    ensures
        unfilter_prefix(filter, raw, prev, bpp, m) is None,
    decreases m - k,
{
    if k < m {
        lemma_unfilter_stops(filter, raw, prev, bpp, k, (m - 1) as nat);
    }
}

/// The unfiltered byte at `index`, as `filter_byte` states it.
fn filter_byte_exec(filter: u8, byte: u8, decoded: &Vec<u8>, prev: &Vec<u8>, index: usize, bpp: usize, Ghost(raw): Ghost<Seq<u8>>) -> (r: Option<u8>)
    requires
        index < raw.len(),
        raw[index as int] == byte,
    ensures
        r == filter_byte(filter, raw, decoded@, prev@, index as int, bpp as int),
{
    if filter == 0 {
        Some(byte)
    } else if filter == 1 {
        if index < bpp {
            Some(byte)
        } else if index - bpp >= decoded.len() {
            None
        } else {
            Some(add_mod_exec(byte, decoded[index - bpp]))
        }
    } else if filter == 2 {
        if index < prev.len() {
            Some(add_mod_exec(byte, prev[index]))
        } else {
            None
        }
    } else if filter == 4 {
        if index >= bpp && index - bpp >= decoded.len() {
            return None;
        }
        if prev.len() != 0 && index >= prev.len() {
            return None;
        }
        let left: u8 = if index < bpp { 0 } else { decoded[index - bpp] };
        let up: u8 = if prev.len() == 0 { 0 } else { prev[index] };
        let top_left: u8 = if prev.len() == 0 || index < bpp { 0 } else { prev[index - bpp] };
        Some(add_mod_exec(byte, paeth_predictor(left as i32, up as i32, top_left as i32)))
    } else {
        None
    }
}

/// Unfilters the scanline whose raw bytes are `data[start..start + len]`.
fn unfilter_scanline(filter: u8, data: &Vec<u8>, start: usize, len: usize, prev: &Vec<u8>, bpp: usize) -> (r: Option<Vec<u8>>)
    requires
        start + len <= data@.len(),
    ensures
        match unfilter_prefix(filter, data@.subrange(start as int, start + len), prev@, bpp as int, len as nat) {
            None => r is None,
            Some(d) => r matches Some(v) && v@ == d,
        },
{
    let ghost raw = data@.subrange(start as int, start + len);
    let dlen = data.len();
    let mut decoded: Vec<u8> = Vec::new();
    let mut index: usize = 0;
    while index < len
        invariant
            index <= len,
            start + len <= data@.len(),
            dlen == data@.len(),
            raw == data@.subrange(start as int, start + len),
            unfilter_prefix(filter, raw, prev@, bpp as int, index as nat) == Some(decoded@),
            decoded@.len() == index,
        decreases len - index,
    {
        let byte = data[start + index];
        match filter_byte_exec(filter, byte, &decoded, prev, index, bpp, Ghost(raw)) {
            None => {
                proof {
                    lemma_unfilter_stops(filter, raw, prev@, bpp as int, (index + 1) as nat, len as nat);
                }
                return None;
            },
            Some(value) => {
                decoded.push(value);
                index = index + 1;
            },
        }
    }
    Some(decoded)
}

/// Appends the output bytes of one unfiltered scanline to `out`.
fn pack_row_into(row: &Vec<u8>, bpp: usize, out: &mut Vec<u8>)
    ensures
        final(out)@ == old(out)@ + pack_row(row@, bpp as int),
{
    let g: usize = if bpp == 3 { 3 } else { 4 };
    let mut i: usize = 0;
    proof {
        assert(row@.skip(0) =~= row@);
    }
    while g <= row.len() - i
        invariant
            g == (if bpp == 3 { 3usize } else { 4usize }),
            i <= row@.len(),
            old(out)@ + pack_row(row@, bpp as int) == out@ + pack_row(row@.skip(i as int), bpp as int),
        decreases row@.len() - i,
    {
        let ghost rest = row@.skip(i as int);
        let ghost before = out@;
        out.push(row[i]);
        out.push(row[i + 1]);
        out.push(row[i + 2]);
        if bpp == 3 {
            out.push(0xff);
        } else {
            out.push(row[i + 3]);
        }
        proof {
            assert(rest.skip(g as int) =~= row@.skip(i + g));
            if bpp == 3 {
                assert(out@ =~= before + rest.take(3).push(0xffu8));
            } else {
                assert(out@ =~= before + rest.take(4));
            }
            assert(pack_row(rest, bpp as int) == (if bpp == 3 { rest.take(3).push(0xffu8) } else { rest.take(4) })
                + pack_row(rest.skip(g as int), bpp as int));
            vstd::seq_lib::lemma_concat_associative(before, (if bpp == 3 { rest.take(3).push(0xffu8) } else { rest.take(4) }), pack_row(rest.skip(g as int), bpp as int));
        }
        i = i + g;
    }
    proof {
        let rest = row@.skip(i as int);
        assert(pack_row(rest, bpp as int) =~= Seq::<u8>::empty());
        assert(out@ + Seq::<u8>::empty() =~= out@);
    }
}

proof fn lemma_rows_stop(data: Seq<u8>, sl: int, bpp: int, k: nat, m: nat)
    requires
        k <= m,
        unfilter_rows(data, sl, bpp, k) is None,
    ensures
        unfilter_rows(data, sl, bpp, m) is None,
    decreases m - k,
{
    if k < m {
        lemma_rows_stop(data, sl, bpp, k, (m - 1) as nat);
    }
}

/// Appends the image bytes of the decompressed scanlines `data` to `out`;
/// returns false, with `out` unspecified, where decoding stops.
pub fn unfilter_image_into(data: &Vec<u8>, width: u32, height: u32, bpp: usize, out: &mut Vec<u8>) -> (ok: bool)
    ensures
        match unfilter_image(data@, width, height, bpp as int) {
            None => !ok,
            Some(img) => ok && final(out)@ == old(out)@ + img,
        },
{
    let wb = match (width as usize).checked_mul(bpp) {
        None => return false,
        Some(x) => x,
    };
    let sl = match wb.checked_add(1) {
        None => return false,
        Some(x) => x,
    };
    match (width as usize).checked_mul(4) {
        None => return false,
        Some(_) => {},
    }
    let dlen = data.len();
    let h = height as usize;
    let mut prev: Vec<u8> = Vec::new();
    let mut row: usize = 0;
    let ghost mut acc: Seq<u8> = Seq::empty();
    while row < h
        invariant
            row <= h,
            h == height,
            dlen == data@.len(),
            sl == width * bpp + 1,
            unfilter_rows(data@, sl as int, bpp as int, row as nat) == Some((acc, prev@)),
            out@ == old(out)@ + acc,
        decreases h - row,
    {
        let offset = match row.checked_mul(sl) {
            None => {
                proof {
                    lemma_rows_stop(data@, sl as int, bpp as int, (row + 1) as nat, height as nat);
                }
                return false;
            },
            Some(x) => x,
        };
        let end = match offset.checked_add(sl) {
            None => {
                proof {
                    lemma_rows_stop(data@, sl as int, bpp as int, (row + 1) as nat, height as nat);
                }
                return false;
            },
            Some(x) => x,
        };
        if end > dlen {
            proof {
                lemma_rows_stop(data@, sl as int, bpp as int, (row + 1) as nat, height as nat);
            }
            return false;
        }
        let filter = data[offset];
        match unfilter_scanline(filter, data, offset + 1, sl - 1, &prev, bpp) {
            None => {
                proof {
                    lemma_rows_stop(data@, sl as int, bpp as int, (row + 1) as nat, height as nat);
                }
                return false;
            },
            Some(decoded) => {
                let ghost before = out@;
                pack_row_into(&decoded, bpp, out);
                proof {
                    let p = pack_row(decoded@, bpp as int);
                    vstd::seq_lib::lemma_concat_associative(old(out)@, acc, p);
                    acc = acc + p;
                }
                prev = decoded;
            },
        }
        row = row + 1;
    }
    true
}
/// The Paeth predictor always picks one of its three neighbours.
pub proof fn law_paeth_picks_a_neighbour(a: int, b: int, c: int)
    ensures
        paeth(a, b, c) == a || paeth(a, b, c) == b || paeth(a, b, c) == c,
{
}

proof fn lemma_pack_row_len(row: Seq<u8>, bpp: int, w: nat)
    requires
        bpp == 3 || bpp == 4,
        row.len() == w * bpp,
    ensures
        pack_row(row, bpp).len() == 4 * w,
    decreases w,
{
    if w > 0 {
        assert(row.len() >= bpp) by (nonlinear_arith)
            requires
                row.len() == w * bpp,
                w > 0,
                bpp > 0,
        ;
        assert(row.skip(bpp).len() == (w - 1) * bpp) by (nonlinear_arith)
            requires
                row.skip(bpp).len() == row.len() - bpp,
                row.len() == w * bpp,
        ;
        lemma_pack_row_len(row.skip(bpp), bpp, (w - 1) as nat);
    }
}

proof fn lemma_rows_len(data: Seq<u8>, w: nat, bpp: int, r: nat)
    requires
        bpp == 3 || bpp == 4,
    ensures
        unfilter_rows(data, w * bpp + 1, bpp, r) matches Some((out, row)) ==> out.len() == r * (4 * w) && row.len() == if r == 0 { 0 } else { w * bpp },
    decreases r,
{
    if r > 0 {
        let sl = w * bpp + 1;
        lemma_rows_len(data, w, bpp, (r - 1) as nat);
        match unfilter_rows(data, sl, bpp, (r - 1) as nat) {
            None => {},
            Some((out, prev)) => {
                let offset = (r - 1) * sl;
                if offset + sl <= data.len() {
                    assert(offset + 1 <= offset + sl) by (nonlinear_arith)
                        requires
                            sl == w * bpp + 1,
                            w >= 0,
                            bpp > 0,
                    ;
                    let raw = data.subrange(offset + 1, offset + sl);
                    lemma_unfilter_prefix_len(data[offset], raw, prev, bpp, raw.len());
                    match unfilter_prefix(data[offset], raw, prev, bpp, raw.len()) {
                        None => {},
                        Some(row) => {
                            lemma_pack_row_len(row, bpp, w);
                            assert(r * (4 * w) == (r - 1) * (4 * w) + 4 * w) by (nonlinear_arith);
                        },
                    }
                }
            },
        }
    }
}

/// A decoded image of three- or four-byte pixels has four bytes for each
/// of its `width * height` pixels.
pub proof fn law_rgba_size(data: Seq<u8>, width: u32, height: u32, bpp: int)
    requires
        bpp == 3 || bpp == 4,
    ensures
        unfilter_image(data, width, height, bpp) matches Some(img) ==> img.len() == width * height * 4,
{
    lemma_rows_len(data, width as nat, bpp, height as nat);
    assert(height * (4 * width) == width * height * 4) by (nonlinear_arith);
}

/// The filter byte of scanline `r` when scanlines are `sl` bytes long.
pub open spec fn filter_of(data: Seq<u8>, sl: int, r: int) -> u8 {
    data[r * sl]
}

/// A filter type that always decodes on a scanline: none, sub or Paeth on
/// any row, up on every row but the first.
pub open spec fn decodable_filter(filter: u8, first_row: bool) -> bool {
    filter == 0 || filter == 1 || filter == 4 || (filter == 2 && !first_row)
}

/// The alpha byte of pixel `k` of RGBA bytes.
pub open spec fn alpha_at(rgba: Seq<u8>, k: int) -> u8 {
    rgba[4 * k + 3]
}

/// Every pixel of the RGBA bytes is fully opaque.
pub open spec fn all_opaque(rgba: Seq<u8>) -> bool {
    forall|k: int| 0 <= k < rgba.len() / 4 ==> #[trigger] alpha_at(rgba, k) == 255
}

proof fn lemma_prefix_decodes(filter: u8, raw: Seq<u8>, prev: Seq<u8>, bpp: int, k: nat)
    requires
        bpp > 0,
        k <= raw.len(),
        prev.len() == 0 || prev.len() == raw.len(),
        filter == 0 || filter == 1 || filter == 4 || (filter == 2 && prev.len() == raw.len()),
    ensures
        unfilter_prefix(filter, raw, prev, bpp, k) matches Some(d) && d.len() == k,
    decreases k,
{
    if k > 0 {
        lemma_prefix_decodes(filter, raw, prev, bpp, (k - 1) as nat);
    }
}

proof fn lemma_pack_row_opaque(row: Seq<u8>, w: nat)
    requires
        row.len() == w * 3,
    ensures
        pack_row(row, 3).len() == 4 * w,
        all_opaque(pack_row(row, 3)),
    decreases w,
{
    lemma_pack_row_len(row, 3, w);
    if w > 0 {
        let rest = row.skip(3);
        assert(rest.len() == (w - 1) * 3);
        lemma_pack_row_opaque(rest, (w - 1) as nat);
        let p = pack_row(row, 3);
        let head = row.take(3).push(0xffu8);
        let tail = pack_row(rest, 3);
        assert(p == head + tail);
        assert forall|k: int| 0 <= k < p.len() / 4 implies #[trigger] alpha_at(p, k) == 255 by {
            if k > 0 {
                assert(alpha_at(tail, k - 1) == 255);
                assert(p[4 * k + 3] == tail[4 * (k - 1) + 3]);
            }
        }
    }
}

proof fn lemma_concat_opaque(a: Seq<u8>, b: Seq<u8>)
    requires
        a.len() % 4 == 0,
        b.len() % 4 == 0,
        all_opaque(a),
        all_opaque(b),
    ensures
        all_opaque(a + b),
{
    let c = a + b;
    assert forall|k: int| 0 <= k < c.len() / 4 implies #[trigger] alpha_at(c, k) == 255 by {
        if 4 * k + 3 < a.len() {
            assert(k < a.len() / 4);
            assert(alpha_at(a, k) == 255);
        } else {
            let m = k - a.len() / 4;
            assert(4 * m + 3 == 4 * k + 3 - a.len());
            assert(0 <= m < b.len() / 4);
            assert(alpha_at(b, m) == 255);
        }
    }
}

proof fn lemma_rows_decode(data: Seq<u8>, w: nat, bpp: int, r: nat)
    requires
        bpp == 3 || bpp == 4,
        r * (w * bpp + 1) <= data.len(),
        forall|q: int| 0 <= q < r ==> decodable_filter(#[trigger] filter_of(data, w * bpp + 1, q), q == 0),
    ensures
        unfilter_rows(data, w * bpp + 1, bpp, r) matches Some((out, row)) && {
            &&& out.len() == r * (4 * w)
            &&& row.len() == if r == 0 { 0 } else { w * bpp }
            &&& bpp == 3 ==> all_opaque(out)
        },
    decreases r,
{
    let sl = w * bpp + 1;
    if r == 0 {
        assert(all_opaque(Seq::<u8>::empty()));
    } else {
        assert((r - 1) * sl <= data.len()) by (nonlinear_arith)
            requires
                r * sl <= data.len(),
                r >= 1,
                sl >= 1,
        ;
        assert forall|q: int| 0 <= q < r - 1 implies decodable_filter(#[trigger] filter_of(data, sl, q), q == 0) by {
            assert(decodable_filter(filter_of(data, sl, q), q == 0));
        }
        lemma_rows_decode(data, w, bpp, (r - 1) as nat);
        let (out, prev) = unfilter_rows(data, sl, bpp, (r - 1) as nat).unwrap();
        let offset = (r - 1) * sl;
        assert(offset + sl == r * sl) by (nonlinear_arith)
            requires
                offset == (r - 1) * sl,
        ;
        let raw = data.subrange(offset + 1, offset + sl);
        assert(raw.len() == w * bpp);
        assert(decodable_filter(filter_of(data, sl, r - 1), r - 1 == 0));
        assert(filter_of(data, sl, r - 1) == data[offset]);
        lemma_prefix_decodes(data[offset], raw, prev, bpp, raw.len());
        let row = unfilter_prefix(data[offset], raw, prev, bpp, raw.len()).unwrap();
        lemma_pack_row_len(row, bpp, w);
        assert(r * (4 * w) == (r - 1) * (4 * w) + 4 * w) by (nonlinear_arith);
        assert(unfilter_rows(data, sl, bpp, r) == Some((out + pack_row(row, bpp), row)));
        if bpp == 3 {
            lemma_pack_row_opaque(row, w);
            let m = (r - 1) * w;
            assert((r - 1) * (4 * w) == 4 * m) by (nonlinear_arith)
                requires
                    m == (r - 1) * w,
            ;
            assert(out.len() % 4 == 0);
            lemma_concat_opaque(out, pack_row(row, bpp));
        }
    }
}

/// Scanlines whose filter bytes are none, sub or Paeth, or up below the
/// first row, always decode: the image has four bytes for each pixel, and
/// with three-byte pixels every pixel is opaque.
pub proof fn law_valid_scanlines_decode(data: Seq<u8>, width: u32, height: u32, bpp: int)
    requires
        bpp == 3 || bpp == 4,
        width * bpp + 1 <= usize::MAX,
        width * 4 <= usize::MAX,
        height * (width * bpp + 1) <= data.len(),
        forall|q: int| 0 <= q < height ==> decodable_filter(#[trigger] filter_of(data, width * bpp + 1, q), q == 0),
    ensures
        unfilter_image(data, width, height, bpp) matches Some(img) && {
            &&& img.len() == width * height * 4
            &&& bpp == 3 ==> all_opaque(img)
        },
{
    lemma_rows_decode(data, width as nat, bpp, height as nat);
    assert(height * (4 * width) == width * height * 4) by (nonlinear_arith);
}

/// Every reconstructed byte of a scanline is its raw byte plus the filter's
/// prediction, modulo 256. The prediction looks at the byte reconstructed
/// `bpp` places to the left on the same scanline (`left`, 0 before the first
/// pixel) and, where there is a previous scanline, at the byte above it
/// (`up`) and the byte above `left` (`up_left`); without a previous scanline
/// those two are 0 but `left` is not. Only none (0), sub (1), up (2) and
/// Paeth (4) reconstruct anything.
pub proof fn law_scanline_reconstruction(filter: u8, raw: Seq<u8>, prev: Seq<u8>, bpp: int, k: nat)
    requires
        bpp > 0,
    ensures
        unfilter_prefix(filter, raw, prev, bpp, k) matches Some(d) ==> {
            &&& d.len() == k
            &&& k > 0 ==> (filter == 0 || filter == 1 || filter == 2 || filter == 4)
            &&& forall|i: int| 0 <= i < k ==> {
                let left: int = if i >= bpp { d[i - bpp] as int } else { 0 };
                let up: int = if prev.len() == 0 { 0 } else { prev[i] as int };
                let up_left: int = if prev.len() == 0 || i < bpp { 0 } else { prev[i - bpp] as int };
                #[trigger] d[i] as int == if filter == 0 {
                    raw[i] as int
                } else if filter == 1 {
                    (raw[i] + left) % 256
                } else if filter == 2 {
                    (raw[i] + prev[i]) % 256
                } else {
                    (raw[i] + (paeth(left, up, up_left) as u8)) % 256
                }
            }
        },
    decreases k,
{
    if k > 0 {
        law_scanline_reconstruction(filter, raw, prev, bpp, (k - 1) as nat);
        match unfilter_prefix(filter, raw, prev, bpp, (k - 1) as nat) {
            None => {},
            Some(d0) => {
                match filter_byte(filter, raw, d0, prev, k - 1, bpp) {
                    None => {},
                    Some(b) => {
                        let d = d0.push(b);
                        assert forall|i: int| 0 <= i < k implies {
                            let left: int = if i >= bpp { d[i - bpp] as int } else { 0 };
                            let up: int = if prev.len() == 0 { 0 } else { prev[i] as int };
                            let up_left: int = if prev.len() == 0 || i < bpp { 0 } else { prev[i - bpp] as int };
                            #[trigger] d[i] as int == if filter == 0 {
                                raw[i] as int
                            } else if filter == 1 {
                                (raw[i] + left) % 256
                            } else if filter == 2 {
                                (raw[i] + prev[i]) % 256
                            } else {
                                (raw[i] + (paeth(left, up, up_left) as u8)) % 256
                            }
                        } by {
                            if i < k - 1 {
                                assert(d[i] == d0[i]);
                                if i >= bpp {
                                    assert(d[i - bpp] == d0[i - bpp]);
                                }
                            } else {
                                if i >= bpp {
                                    assert(d[i - bpp] == d0[i - bpp]);
                                }
                            }
                        }
                    },
                }
            },
        }
    }
}

/// On the first scanline, where there is no scanline above, the Paeth
/// filter predicts every byte from its left neighbour alone, exactly as
/// the sub filter does.
pub proof fn law_first_row_paeth_is_sub(raw: Seq<u8>, bpp: int, k: nat)
    requires
        bpp > 0,
    ensures
        unfilter_prefix(4, raw, Seq::empty(), bpp, k) == unfilter_prefix(1, raw, Seq::empty(), bpp, k),
    decreases k,
{
    if k > 0 {
        law_first_row_paeth_is_sub(raw, bpp, (k - 1) as nat);
        match unfilter_prefix(1, raw, Seq::empty(), bpp, (k - 1) as nat) {
            None => {},
            Some(d) => {
                let i = k - 1;
                if i >= bpp && i - bpp < d.len() {
                    let left = d[i - bpp] as int;
                    assert(paeth(left, 0, 0) == left);
                } else if i < bpp {
                    assert(paeth(0, 0, 0) == 0);
                    assert(add_mod(raw[i], 0) == raw[i]);
                }
            },
        }
    }
}

} // verus!
