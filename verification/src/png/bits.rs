use vstd::prelude::*;
use crate::png::reader::{ByteReader, Error, ReaderModel};

verus! {

/// The order in which the bits of a byte are handed out: `LE` from the most
/// significant bit down, `BE` from the least significant bit up.
#[derive(Debug, Clone, Copy, PartialEq, Eq, Structural)]
pub enum Endian {
    BE,
    LE,
}

/// Reads a byte stream one bit at a time. The byte being consumed is kept
/// with the order it is read in; mixing orders within a byte is an error.
#[derive(Debug)]
pub struct BitReader {
    byte_reader: ByteReader,
    last_byte: Option<(u8, Endian)>,
    offset: usize,
}

/// The abstract state of a [`BitReader`].
pub ghost struct BitModel {
    pub bytes: ReaderModel,
    pub last: Option<(u8, Endian)>,
    pub offset: int,
}

impl View for BitReader {
    type V = BitModel;

    closed spec fn view(&self) -> BitModel {
        BitModel { bytes: self.byte_reader@, last: self.last_byte, offset: self.offset as int }
    }
}

/// Bit `k` of `b`, counting from the least significant bit.
pub open spec fn bit_of(b: u8, k: int) -> bool {
    (b >> (k as u8)) & 1u8 == 1u8
}

/// The bit position at which a freshly read byte starts.
pub open spec fn first_offset(e: Endian) -> int {
    match e {
        Endian::LE => 7,
        Endian::BE => 0,
    }
}

/// The bit position after which the byte is used up.
pub open spec fn last_offset(e: Endian) -> int {
    match e {
        Endian::LE => 0,
        Endian::BE => 7,
    }
}

/// The state after the bit at the current offset has been handed out.
pub open spec fn advance(s: BitModel, e: Endian) -> BitModel {
    if s.offset == last_offset(e) {
        BitModel { last: None, ..s }
    } else {
        match e {
            Endian::LE => BitModel { offset: s.offset - 1, ..s },
            Endian::BE => BitModel { offset: s.offset + 1, ..s },
        }
    }
}

/// Reading one bit in order `e`: the bit, or the error, and the new state.
pub open spec fn step(s: BitModel, e: Endian) -> (Result<bool, Error>, BitModel) {
    match s.last {
        Some((b, le)) => if le == e {
            (Ok(bit_of(b, s.offset)), advance(s, e))
        } else {
            (Err(Error::Decoding), s)
        },
        None => {
            let p = s.bytes.pos as int;
            if p + 1 <= s.bytes.data.len() {
                let b = s.bytes.data[p];
                let fresh = BitModel { bytes: s.bytes.at(p + 1), last: Some((b, e)), offset: first_offset(e) };
                (Ok(bit_of(b, first_offset(e))), advance(fresh, e))
            } else {
                (Err(Error::EndOfBuf), BitModel { bytes: s.bytes.at_end(), ..s })
            }
        },
    }
}

/// Reading `n` bits in order `e`, in the order they are read; the first
/// error stops the reading.
pub open spec fn read_bits(s: BitModel, n: nat, e: Endian) -> (Result<Seq<bool>, Error>, BitModel)
    decreases n,
{
    if n == 0 {
        (Ok(Seq::empty()), s)
    } else {
        let (r, s1) = read_bits(s, (n - 1) as nat, e);
        match r {
            Err(err) => (Err(err), s1),
            Ok(bs) => {
                let (b, s2) = step(s1, e);
                match b {
                    Err(err) => (Err(err), s2),
                    Ok(x) => (Ok(bs.push(x)), s2),
                }
            },
        }
    }
}

/// The byte whose bits, most significant first, are the last eight of `bs`.
pub open spec fn pack(bs: Seq<bool>) -> u8
    decreases bs.len(),
{
    if bs.len() == 0 {
        0
    } else {
        ((2 * pack(bs.drop_last()) + (if bs.last() { 1int } else { 0int })) % 256) as u8
    }
}

proof fn lemma_read_bits_err(s: BitModel, k: nat, m: nat, e: Endian)
    requires
        k <= m,
        read_bits(s, k, e).0 is Err,
    ensures
        read_bits(s, m, e) == read_bits(s, k, e),
    decreases m - k,
{
    if k < m {
        lemma_read_bits_err(s, k, (m - 1) as nat, e);
    }
}

proof fn lemma_shift_in(x: u8, bit: bool)
    ensures
        (if bit { (x << 1u8) | 1u8 } else { x << 1u8 }) == ((2 * x + (if bit { 1int } else { 0int })) % 256) as u8,
{
    if bit {
        assert((x << 1u8) | 1u8 == ((2 * x + 1) % 256) as u8) by (bit_vector);
    } else {
        assert(x << 1u8 == ((2 * x) % 256) as u8) by (bit_vector);
    }
}

/// The bit position read `i` bits after a byte was started.
pub open spec fn bit_position(e: Endian, i: int) -> int {
    match e {
        Endian::LE => 7 - i,
        Endian::BE => i,
    }
}

proof fn lemma_partial_byte(s: BitModel, e: Endian, k: nat)
    requires
        s.last is None,
        s.bytes.pos + 1 <= s.bytes.data.len(),
        1 <= k <= 8,
    ensures
        ({
            let b = s.bytes.data[s.bytes.pos as int];
            let after = s.bytes.at(s.bytes.pos as int + 1);
            &&& read_bits(s, k, e).0 == Ok::<Seq<bool>, Error>(Seq::new(k, |i: int| bit_of(b, bit_position(e, i))))
            &&& read_bits(s, k, e).1 == if k == 8 {
                BitModel { bytes: after, last: None, offset: last_offset(e) }
            } else {
                BitModel { bytes: after, last: Some((b, e)), offset: bit_position(e, k as int) }
            }
        }),
    decreases k,
{
    let b = s.bytes.data[s.bytes.pos as int];
    if k == 1 {
        assert(read_bits(s, 0, e) == (Ok::<Seq<bool>, Error>(Seq::empty()), s));
        assert(Seq::<bool>::empty().push(bit_of(b, first_offset(e))) =~= Seq::new(1, |i: int| bit_of(b, bit_position(e, i))));
    } else {
        lemma_partial_byte(s, e, (k - 1) as nat);
        let prev = Seq::new((k - 1) as nat, |i: int| bit_of(b, bit_position(e, i)));
        assert(prev.push(bit_of(b, bit_position(e, k - 1))) =~= Seq::new(k, |i: int| bit_of(b, bit_position(e, i))));
    }
}

proof fn lemma_pack_high_bits(b: u8, k: nat)
    requires
        k <= 8,
    ensures
        pack(Seq::new(k, |i: int| bit_of(b, 7 - i))) == b >> ((8 - k) as u8),
    decreases k,
{
    let bs = Seq::new(k, |i: int| bit_of(b, 7 - i));
    if k == 0 {
        assert(b >> 8u8 == 0u8) by (bit_vector);
    } else {
        lemma_pack_high_bits(b, (k - 1) as nat);
        assert(bs.drop_last() =~= Seq::new((k - 1) as nat, |i: int| bit_of(b, 7 - i)));
        let sh: u8 = (8 - k) as u8;
        assert(sh < 8);
        assert((2 * (b >> ((sh + 1) as u8)) + (if (b >> sh) & 1u8 == 1u8 { 1int } else { 0int })) % 256
            == b >> sh) by (bit_vector)
            requires
                sh < 8,
        ;
    }
}

/// A whole byte read bit by bit from a byte boundary comes back unchanged:
/// most significant bit first in order `LE`, least significant bit first
/// (then reversed) in order `BE`. Afterwards the reader stands at the next
/// byte boundary.
pub proof fn law_whole_byte(s: BitModel, e: Endian)
    requires
        s.last is None,
        s.bytes.pos + 1 <= s.bytes.data.len(),
    ensures
        ({
            let (r, s2) = read_bits(s, 8, e);
            let b = s.bytes.data[s.bytes.pos as int];
            &&& r is Ok
            &&& e == Endian::LE ==> pack(r->Ok_0) == b
            &&& e == Endian::BE ==> pack(r->Ok_0.reverse()) == b
            &&& s2 == BitModel { bytes: s.bytes.at(s.bytes.pos as int + 1), last: None, offset: last_offset(e) }
        }),
{
    let b = s.bytes.data[s.bytes.pos as int];
    lemma_partial_byte(s, e, 8);
    lemma_pack_high_bits(b, 8);
    assert(b >> 0u8 == b) by (bit_vector);
    let bs = Seq::new(8, |i: int| bit_of(b, bit_position(e, i)));
    let high_first = Seq::new(8, |i: int| bit_of(b, 7 - i));
    if e == Endian::LE {
        assert(bs =~= high_first);
    } else {
        assert(bs.reverse() =~= high_first);
    }
}

impl BitReader {
    /// The reader under the bits is well formed and the bit offset names a
    /// bit of a byte.
    pub open spec fn wf(&self) -> bool {
        self@.bytes.pos <= self@.bytes.data.len() && 0 <= self@.offset < 8
    }

    pub fn new(byte_reader: ByteReader) -> (r: Self)
        requires
            byte_reader.wf(),
        ensures
            r.wf(),
            r@ == (BitModel { bytes: byte_reader@, last: None, offset: 0 }),
    {
        BitReader { byte_reader, last_byte: None, offset: 0 }
    }

    /// Drops what is left of the current byte.
    pub fn flush_byte(&mut self)
        requires
            old(self).wf(),
        ensures
            final(self).wf(),
            final(self)@ == (BitModel { last: None, ..old(self)@ }),
    {
        self.last_byte = None;
    }

    fn read_bit(&mut self, e: Endian) -> (r: Result<bool, Error>)
        requires
            old(self).wf(),
        ensures
            final(self).wf(),
            (r, final(self)@) == step(old(self)@, e),
    {
        let last_byte = match self.last_byte {
            Some((b, le)) => {
                let same = match (le, e) {
                    (Endian::LE, Endian::LE) => true,
                    (Endian::BE, Endian::BE) => true,
                    _ => false,
                };
                if !same {
                    return Err(Error::Decoding);
                }
                b
            },
            None => {
                let b = self.byte_reader.read_u8()?;
                self.last_byte = Some((b, e));
                self.offset = match e {
                    Endian::LE => 7,
                    Endian::BE => 0,
                };
                b
            },
        };
        let offset = self.offset;
        let masked = (last_byte >> (offset as u8)) & 1u8;
        assert(masked <= 1u8) by (bit_vector)
            requires
                masked == (last_byte >> (offset as u8)) & 1u8,
        ;
        let next_bit = masked == 1u8;
        let last = match e {
            Endian::LE => 0,
            Endian::BE => 7,
        };
        if self.offset == last {
            self.last_byte = None;
        } else {
            match e {
                Endian::LE => self.offset = self.offset - 1,
                Endian::BE => self.offset = self.offset + 1,
            }
        }
        Ok(next_bit)
    }

    /// Reads one bit of the current byte, most significant first.
    pub fn read_bit_le(&mut self) -> (r: Result<bool, Error>)
        requires
            old(self).wf(),
        ensures
            final(self).wf(),
            (r, final(self)@) == step(old(self)@, Endian::LE),
    {
        self.read_bit(Endian::LE)
    }

    /// Reads one bit of the current byte, least significant first.
    pub fn read_bit_be(&mut self) -> (r: Result<bool, Error>)
        requires
            old(self).wf(),
        ensures
            final(self).wf(),
            (r, final(self)@) == step(old(self)@, Endian::BE),
    {
        self.read_bit(Endian::BE)
    }

    fn read_bits_in(&mut self, num_bits: usize, e: Endian) -> (r: Result<Vec<bool>, Error>)
        requires
            old(self).wf(),
        ensures
            final(self).wf(),
            final(self)@ == read_bits(old(self)@, num_bits as nat, e).1,
            match read_bits(old(self)@, num_bits as nat, e).0 {
                Err(err) => r == Err::<Vec<bool>, Error>(err),
                Ok(bs) => r matches Ok(v) && v@ == bs,
            },
    {
        let ghost s0 = self@;
        let mut bits: Vec<bool> = Vec::new();
        let mut k: usize = 0;
        while k < num_bits
            invariant
                k <= num_bits,
                self.wf(),
                s0 == old(self)@,
                read_bits(s0, k as nat, e) == (Ok::<Seq<bool>, Error>(bits@), self@),
            decreases num_bits - k,
        {
            let b = match self.read_bit(e) {
                Ok(b) => b,
                Err(err) => {
                    proof {
                        lemma_read_bits_err(s0, (k + 1) as nat, num_bits as nat, e);
                    }
                    return Err(err);
                },
            };
            bits.push(b);
            k = k + 1;
        }
        Ok(bits)
    }

    /// Reads `num_bits` bits, most significant first, in the order read.
    pub fn read_bits_le(&mut self, num_bits: usize) -> (r: Result<Vec<bool>, Error>)
        requires
            old(self).wf(),
        ensures
            final(self).wf(),
            final(self)@ == read_bits(old(self)@, num_bits as nat, Endian::LE).1,
            match read_bits(old(self)@, num_bits as nat, Endian::LE).0 {
                Err(err) => r == Err::<Vec<bool>, Error>(err),
                Ok(bs) => r matches Ok(v) && v@ == bs,
            },
    {
        self.read_bits_in(num_bits, Endian::LE)
    }

    /// Reads `num_bits` bits, least significant first, and returns them
    /// last read first.
    pub fn read_bits_be(&mut self, num_bits: usize) -> (r: Result<Vec<bool>, Error>)
        requires
            old(self).wf(),
        ensures
            final(self).wf(),
            final(self)@ == read_bits(old(self)@, num_bits as nat, Endian::BE).1,
            match read_bits(old(self)@, num_bits as nat, Endian::BE).0 {
                Err(err) => r == Err::<Vec<bool>, Error>(err),
                Ok(bs) => r matches Ok(v) && v@ == bs.reverse(),
            },
    {
        let bits = self.read_bits_in(num_bits, Endian::BE)?;
        let mut reversed: Vec<bool> = Vec::new();
        let mut k: usize = bits.len();
        while k > 0
            invariant
                k <= bits@.len(),
                reversed@ == bits@.subrange(k as int, bits@.len() as int).reverse(),
            decreases k,
        {
            proof {
                assert(bits@.subrange(k - 1, bits@.len() as int).reverse()
                    =~= bits@.subrange(k as int, bits@.len() as int).reverse().push(bits@[k - 1]));
            }
            reversed.push(bits[k - 1]);
            k = k - 1;
        }
        proof {
            assert(bits@.subrange(0, bits@.len() as int) =~= bits@);
        }
        Ok(reversed)
    }

    fn pack_bits(bits: &Vec<bool>) -> (v: u8)
        ensures
            v == pack(bits@),
    {
        let mut value: u8 = 0;
        let mut k: usize = 0;
        while k < bits.len()
            invariant
                k <= bits@.len(),
                value == pack(bits@.subrange(0, k as int)),
            decreases bits@.len() - k,
        {
            proof {
                let next = bits@.subrange(0, k + 1);
                assert(next.drop_last() =~= bits@.subrange(0, k as int));
                assert(next.last() == bits@[k as int]);
                lemma_shift_in(value, bits@[k as int]);
            }
            value = value << 1u8;
            if bits[k] {
                value = value | 1u8;
            }
            k = k + 1;
        }
        proof {
            assert(bits@.subrange(0, bits@.len() as int) =~= bits@);
        }
        value
    }

    /// Reads `num_bits` bits, most significant first, into a byte: each
    /// bit read is shifted in from the right.
    pub fn read_bits_to_u8_le(&mut self, num_bits: usize) -> (r: Result<u8, Error>)
        requires
            old(self).wf(),
        ensures
            final(self).wf(),
            final(self)@ == read_bits(old(self)@, num_bits as nat, Endian::LE).1,
            match read_bits(old(self)@, num_bits as nat, Endian::LE).0 {
                Err(err) => r == Err::<u8, Error>(err),
                Ok(bs) => r == Ok::<u8, Error>(pack(bs)),
            },
    {
        let bits = self.read_bits_le(num_bits)?;
        Ok(Self::pack_bits(&bits))
    }

    /// Reads `num_bits` bits, least significant first, into a byte: the
    /// last bit read is the most significant.
    pub fn read_bits_to_u8_be(&mut self, num_bits: usize) -> (r: Result<u8, Error>)
        requires
            old(self).wf(),
        ensures
            final(self).wf(),
            final(self)@ == read_bits(old(self)@, num_bits as nat, Endian::BE).1,
            match read_bits(old(self)@, num_bits as nat, Endian::BE).0 {
                Err(err) => r == Err::<u8, Error>(err),
                Ok(bs) => r == Ok::<u8, Error>(pack(bs.reverse())),
            },
    {
        let bits = self.read_bits_be(num_bits)?;
        Ok(Self::pack_bits(&bits))
    }

    /// Reads two groups of four bits, least significant first; the second
    /// group is the high byte of the result and the first the low byte.
    pub fn read_u16_be(&mut self) -> (r: Result<u16, Error>)
        requires
            old(self).wf(),
        ensures
            final(self).wf(),
            ({
                let (r1, s1) = read_bits(old(self)@, 4, Endian::BE);
                let (r2, s2) = read_bits(s1, 4, Endian::BE);
                match r1 {
                    Err(err) => r == Err::<u16, Error>(err) && final(self)@ == s1,
                    Ok(bs1) => final(self)@ == s2 && match r2 {
                        Err(err) => r == Err::<u16, Error>(err),
                        Ok(bs2) => r == Ok::<u16, Error>(
                            (pack(bs2.reverse()) * 256 + pack(bs1.reverse())) as u16,
                        ),
                    },
                }
            }),
    {
        let b1 = self.read_bits_to_u8_be(4)?;
        let b2 = self.read_bits_to_u8_be(4)?;
        let v: u16 = (b2 as u16) * 256 + (b1 as u16);
        Ok(v)
    }
}

} // verus!
