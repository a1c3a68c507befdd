use vstd::prelude::*;

verus! {

/// Why decoding failed.
#[derive(Debug, Clone, Copy, PartialEq, Eq, Structural)]
pub enum Error {
    Reader,
    InvalidFile,
    InvalidPath,
    UnknownChunkType,
    EndOfBuf,
    ReservedBlockEncoding,
    Decoding,
    UnsupportedEncoding,
}

impl Error {
    pub open spec fn spec_message(self) -> Seq<char> {
        match self {
            Error::Reader => "Reader could not read exact bytes from buffer"@,
            Error::InvalidFile => "The given file is not a PNG"@,
            Error::InvalidPath => "There is no such file at the given path"@,
            Error::UnknownChunkType => "This PNG format is unimplemented"@,
            Error::EndOfBuf => "Reader has overrun the inner buffer"@,
            Error::ReservedBlockEncoding => "Decoding error, this is a bug"@,
            Error::Decoding => "Failed to decode data, this is a bug"@,
            Error::UnsupportedEncoding => "File used an unknown form of compression"@,
        }
    }

    /// The message shown for this error.
    pub fn message(&self) -> (m: &'static str)
        ensures
            m@ == self.spec_message(),
    {
        match self {
            Error::Reader => "Reader could not read exact bytes from buffer",
            Error::InvalidFile => "The given file is not a PNG",
            Error::InvalidPath => "There is no such file at the given path",
            Error::UnknownChunkType => "This PNG format is unimplemented",
            Error::EndOfBuf => "Reader has overrun the inner buffer",
            Error::ReservedBlockEncoding => "Decoding error, this is a bug",
            Error::Decoding => "Failed to decode data, this is a bug",
            Error::UnsupportedEncoding => "File used an unknown form of compression",
        }
    }
}

/// Appends `c` to `s`.
#[verifier::external_body]
fn string_push(s: &mut String, c: char)
    ensures
        final(s)@ == old(s)@.push(c),
{
    s.push(c);
}

/// The character that a byte stands for in Latin-1.
pub open spec fn byte_char(b: u8) -> char {
    b as char
}

pub open spec fn latin1(bytes: Seq<u8>) -> Seq<char> {
    bytes.map_values(|b: u8| byte_char(b))
}

/// The big-endian value of four bytes.
pub open spec fn be_u32(b0: u8, b1: u8, b2: u8, b3: u8) -> u32 {
    (b0 as int * 0x100_0000 + b1 as int * 0x1_0000 + b2 as int * 0x100 + b3 as int) as u32
}

/// The big-endian value of two bytes.
pub open spec fn be_u16(b0: u8, b1: u8) -> u16 {
    (b0 as int * 0x100 + b1 as int) as u16
}

/// The position of the first zero byte of `s`, if any.
pub open spec fn first_nul(s: Seq<u8>) -> Option<int> {
    if exists|i: int| 0 <= i < s.len() && s[i] == 0 {
        Some(choose|i: int| 0 <= i < s.len() && s[i] == 0 && forall|j: int| 0 <= j < i ==> s[j] != 0)
    } else {
        None
    }
}

/// A reader over a byte buffer with a cursor.
#[derive(Debug)]
pub struct ByteReader {
    data: Vec<u8>,
    pos: usize,
}

/// The abstract state of a [`ByteReader`].
pub ghost struct ReaderModel {
    pub data: Seq<u8>,
    pub pos: nat,
}

impl ReaderModel {
    pub open spec fn remaining(self) -> Seq<u8> {
        self.data.subrange(self.pos as int, self.data.len() as int)
    }

    /// The same buffer with the cursor at `pos`.
    pub open spec fn at(self, pos: int) -> ReaderModel {
        ReaderModel { pos: pos as nat, ..self }
    }

    /// The same buffer with the cursor at its end.
    pub open spec fn at_end(self) -> ReaderModel {
        self.at(self.data.len() as int)
    }
}

impl View for ByteReader {
    type V = ReaderModel;

    closed spec fn view(&self) -> ReaderModel {
        ReaderModel { data: self.data@, pos: self.pos as nat }
    }
}

impl ByteReader {
    /// The cursor never passes the end.
    pub open spec fn wf(&self) -> bool {
        self@.pos <= self@.data.len()
    }

    pub fn new(data: Vec<u8>) -> (r: Self)
        ensures
            r.wf(),
            r@.data == data@,
            r@.pos == 0,
    {
        ByteReader { data, pos: 0 }
    }

    /// Reads exactly `bytes_to_read` bytes. A read past the end fails with
    /// `EndOfBuf` and leaves the cursor at the end.
    pub fn read_bytes(&mut self, bytes_to_read: usize) -> (r: Result<Vec<u8>, Error>)
        requires
            old(self).wf(),
        ensures
            final(self).wf(),
            final(self)@.data == old(self)@.data,
            bytes_to_read == 0 ==> (r matches Ok(v) && v@.len() == 0),
            bytes_to_read == 0 ==> final(self)@ == old(self)@,
            bytes_to_read > 0 && old(self)@.pos + bytes_to_read <= old(self)@.data.len() ==> {
                &&& r matches Ok(v)
                &&& v@ == old(self)@.data.subrange(old(self)@.pos as int, old(self)@.pos + bytes_to_read)
                &&& final(self)@ == old(self)@.at(old(self)@.pos + bytes_to_read)
            },
            bytes_to_read > 0 && old(self)@.pos + bytes_to_read > old(self)@.data.len() ==> {
                &&& r == Err::<Vec<u8>, Error>(Error::EndOfBuf)
                &&& final(self)@ == old(self)@.at_end()
            },
    {
        if bytes_to_read == 0 {
            return Ok(Vec::new());
        }
        if bytes_to_read > self.data.len() - self.pos {
            self.pos = self.data.len();
            return Err(Error::EndOfBuf);
        }
        let mut buf: Vec<u8> = Vec::new();
        let start = self.pos;
        let end = self.pos + bytes_to_read;
        let mut i = start;
        while i < end
            invariant
                start <= i <= end <= self.data.len(),
                self.pos == start,
                buf@ == self.data@.subrange(start as int, i as int),
            decreases end - i,
        {
            buf.push(self.data[i]);
            i = i + 1;
            proof {
                assert(buf@ =~= self.data@.subrange(start as int, i as int));
            }
        }
        self.pos = end;
        Ok(buf)
    }

    /// Reads a big-endian `u32`.
    pub fn read_u32(&mut self) -> (r: Result<u32, Error>)
        requires
            old(self).wf(),
        ensures
            final(self).wf(),
            final(self)@.data == old(self)@.data,
            ({
                let d = old(self)@.data;
                let p = old(self)@.pos as int;
                if p + 4 <= d.len() {
                    r == Ok::<u32, Error>(be_u32(d[p], d[p + 1], d[p + 2], d[p + 3]))
                        && final(self)@ == old(self)@.at(p + 4)
                } else {
                    r == Err::<u32, Error>(Error::EndOfBuf) && final(self)@ == old(self)@.at_end()
                }
            }),
    {
        let bytes = self.read_bytes(4)?;
        let b0 = bytes[0];
        let b1 = bytes[1];
        let b2 = bytes[2];
        let b3 = bytes[3];
        let v: u32 = ((b0 as u32) << 24u32) | ((b1 as u32) << 16u32) | ((b2 as u32) << 8u32) | (b3 as u32);
        assert(v == b0 as u32 * 0x100_0000 + b1 as u32 * 0x1_0000 + b2 as u32 * 0x100 + b3 as u32)
            by (bit_vector)
            requires
                v == ((b0 as u32) << 24u32) | ((b1 as u32) << 16u32) | ((b2 as u32) << 8u32) | (b3 as u32),
        ;
        Ok(v)
    }

    /// Reads a big-endian `u16`.
    pub fn read_u16(&mut self) -> (r: Result<u16, Error>)
        requires
            old(self).wf(),
        ensures
            final(self).wf(),
            final(self)@.data == old(self)@.data,
            ({
                let d = old(self)@.data;
                let p = old(self)@.pos as int;
                if p + 2 <= d.len() {
                    r == Ok::<u16, Error>(be_u16(d[p], d[p + 1])) && final(self)@ == old(self)@.at(p + 2)
                } else {
                    r == Err::<u16, Error>(Error::EndOfBuf) && final(self)@ == old(self)@.at_end()
                }
            }),
    {
        let bytes = self.read_bytes(2)?;
        let b0 = bytes[0];
        let b1 = bytes[1];
        let v: u16 = ((b0 as u16) << 8u16) | (b1 as u16);
        assert(v == b0 as u16 * 0x100 + b1 as u16) by (bit_vector)
            requires
                v == ((b0 as u16) << 8u16) | (b1 as u16),
        ;
        Ok(v)
    }

    pub fn read_u8(&mut self) -> (r: Result<u8, Error>)
        requires
            old(self).wf(),
        ensures
            final(self).wf(),
            final(self)@.data == old(self)@.data,
            ({
                let d = old(self)@.data;
                let p = old(self)@.pos as int;
                if p + 1 <= d.len() {
                    r == Ok::<u8, Error>(d[p]) && final(self)@ == old(self)@.at(p + 1)
                } else {
                    r == Err::<u8, Error>(Error::EndOfBuf) && final(self)@ == old(self)@.at_end()
                }
            }),
    {
        let bytes = self.read_bytes(1)?;
        Ok(bytes[0])
    }

    /// Reads everything up to the end.
    pub fn read_remaining_bytes(&mut self, buf_capacity: usize) -> (r: Result<Vec<u8>, Error>)
        requires
            old(self).wf(),
        ensures
            final(self).wf(),
            final(self)@ == old(self)@.at_end(),
            r matches Ok(v) && v@ == old(self)@.remaining(),
    {
        let n = self.data.len() - self.pos;
        let r = self.read_bytes(n);
        match r {
            Ok(v) => Ok(v),
            Err(e) => Err(e),
        }
    }

    /// Reads bytes up to a zero byte, which is consumed but not returned,
    /// each byte taken as the Latin-1 character of its value.
    pub fn read_null_terminated_string(&mut self) -> (r: Result<String, Error>)
        requires
            old(self).wf(),
        ensures
            final(self).wf(),
            final(self)@.data == old(self)@.data,
            match first_nul(old(self)@.remaining()) {
                Some(i) => r matches Ok(s) && s@ == latin1(old(self)@.remaining().subrange(0, i))
                    && final(self)@ == old(self)@.at(old(self)@.pos + i + 1),
                None => r == Err::<String, Error>(Error::EndOfBuf) && final(self)@ == old(self)@.at_end(),
            },
    {
        let ghost start = self.pos as int;
        let ghost rem = old(self)@.remaining();
        let mut buf = String::new();
        loop
            invariant_except_break
                self.wf(),
                self@.data == old(self)@.data,
                rem == old(self)@.remaining(),
                start == old(self)@.pos,
                start <= self.pos,
                forall|j: int| 0 <= j < self.pos - start ==> rem[j] != 0,
                buf@ == latin1(rem.subrange(0, self.pos - start)),
            ensures
                self.wf(),
                self@.data == old(self)@.data,
                match first_nul(rem) {
                    Some(i) => buf@ == latin1(rem.subrange(0, i)) && self@ == old(self)@.at(start + i + 1),
                    None => false,
                },
            decreases self.data@.len() - self.pos,
        {
            let ghost p = self.pos as int;
            let byte = self.read_bytes(1);
            match byte {
                Err(e) => {
                    proof {
                        assert forall|j: int| 0 <= j < rem.len() implies rem[j] != 0 by {
                            assert(p - start == rem.len());
                        }
                        assert(first_nul(rem) is None);
                    }
                    return Err(e);
                },
                Ok(b) => {
                    let c = b[0];
                    if c == 0u8 {
                        proof {
                            let i = p - start;
                            assert(rem[i] == 0);
                            let k = choose|k: int| 0 <= k < rem.len() && rem[k] == 0 && forall|j: int| 0 <= j < k ==> rem[j] != 0;
                            assert(k == i) by {
                                if k < i {
                                    assert(rem[k] != 0);
                                }
                                if k > i {
                                    assert(rem[i] != 0);
                                }
                            }
                        }
                        break;
                    }
                    string_push(&mut buf, c as char);
                    proof {
                        assert(rem.subrange(0, self.pos - start) =~= rem.subrange(0, p - start).push(c));
                        assert(latin1(rem.subrange(0, self.pos - start)) =~= latin1(rem.subrange(0, p - start)).push(c as char));
                    }
                },
            }
        }
        Ok(buf)
    }

    /// Reads `len` bytes as Latin-1 characters.
    pub fn read_string(&mut self, len: usize) -> (r: Result<String, Error>)
        requires
            old(self).wf(),
        ensures
            final(self).wf(),
            final(self)@.data == old(self)@.data,
            len == 0 ==> (r matches Ok(s) && s@.len() == 0) && final(self)@ == old(self)@,
            len > 0 && old(self)@.pos + len <= old(self)@.data.len() ==> {
                &&& r matches Ok(s)
                &&& s@ == latin1(old(self)@.data.subrange(old(self)@.pos as int, old(self)@.pos + len))
                &&& final(self)@ == old(self)@.at(old(self)@.pos + len)
            },
            len > 0 && old(self)@.pos + len > old(self)@.data.len() ==> {
                &&& r == Err::<String, Error>(Error::EndOfBuf)
                &&& final(self)@ == old(self)@.at_end()
            },
    {
        let buf = self.read_bytes(len)?;
        let mut s = String::new();
        let mut i: usize = 0;
        while i < buf.len()
            invariant
                i <= buf@.len(),
                s@ == latin1(buf@.subrange(0, i as int)),
            decreases buf@.len() - i,
        {
            string_push(&mut s, buf[i] as char);
            i = i + 1;
            proof {
                assert(buf@.subrange(0, i as int) =~= buf@.subrange(0, i - 1).push(buf@[i - 1]));
                assert(latin1(buf@.subrange(0, i as int)) =~= latin1(buf@.subrange(0, i - 1)).push(buf@[i - 1] as char));
            }
        }
        proof {
            assert(buf@.subrange(0, buf@.len() as int) =~= buf@);
        }
        Ok(s)
    }
}

} // verus!
