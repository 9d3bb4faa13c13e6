//! The stream decoder: a sequential cursor over the plaintext archive
//! buffer, offering the typed reads every higher layer is built on.  Each
//! read either consumes exactly the requested bytes and advances the
//! offset, or fails without moving it (except for a text read whose bytes
//! were consumed before decoding failed).

use vstd::prelude::*;
use vstd::utf8::{valid_utf8, decode_utf8};
use crate::bytes::{u32_from_le, u64_from_le};
use crate::archive::PakError;

verus! {

/// A cursor over the decrypted archive buffer.  The offset only grows and
/// never passes the end of the buffer.
pub struct PakReader {
    data: Vec<u8>,
    pos: usize,
}

impl PakReader {
    /// The whole underlying buffer; reads never change it.
    pub closed spec fn bytes(&self) -> Seq<u8> {
        self.data@
    }

    /// The current read offset into the buffer.
    pub closed spec fn position(&self) -> int {
        self.pos as int
    }

    /// The cursor invariant: the offset stays within the buffer.
    pub open spec fn wf(&self) -> bool {
        0 <= self.position() <= self.bytes().len()
    }

    /// Wraps a plaintext buffer, with the offset at its start.
    pub fn new(v: Vec<u8>) -> (r: PakReader)
        ensures
            r.wf(),
            r.bytes() == v@,
            r.position() == 0,
    {
        PakReader { data: v, pos: 0 }
    }

    /// Consumes one byte and returns it; fails at the end of the stream.
    pub fn read_u8(&mut self) -> (r: Result<u8, PakError>)
        requires
            old(self).wf(),
        ensures
            final(self).wf(),
            final(self).bytes() == old(self).bytes(),
            match r {
                Ok(b) => {
                    &&& old(self).position() + 1 <= old(self).bytes().len()
                    &&& b == old(self).bytes()[old(self).position()]
                    &&& final(self).position() == old(self).position() + 1
                },
                Err(e) => {
                    &&& e == PakError::EndOfStream
                    &&& old(self).position() + 1 > old(self).bytes().len()
                    &&& final(self).position() == old(self).position()
                },
            },
    {
        if self.pos < self.data.len() {
            let b = self.data[self.pos];
            self.pos = self.pos + 1;
            Ok(b)
        } else {
            Err(PakError::EndOfStream)
        }
    }

    /// Consumes exactly `len` bytes and returns them verbatim; `len` may be
    /// zero.  Fails when fewer than `len` bytes remain.
    pub fn read_vec_u8(&mut self, len: usize) -> (r: Result<Vec<u8>, PakError>)
        requires
            old(self).wf(),
        ensures
            final(self).wf(),
            final(self).bytes() == old(self).bytes(),
            match r {
                Ok(v) => {
                    &&& old(self).position() + len <= old(self).bytes().len()
                    &&& v@ == old(self).bytes().subrange(
                        old(self).position(),
                        old(self).position() + len,
                    )
                    &&& final(self).position() == old(self).position() + len
                },
                Err(e) => {
                    &&& e == PakError::EndOfStream
                    &&& old(self).position() + len > old(self).bytes().len()
                    &&& final(self).position() == old(self).position()
                },
            },
    {
        let n = self.data.len();
        if len > n - self.pos {
            return Err(PakError::EndOfStream);
        }
        let end: usize = self.pos + len;
        let ghost start: int = self.pos as int;
        let mut out: Vec<u8> = Vec::new();
        proof {
            assert(out@ =~= self.data@.subrange(start, start));
        }
        while self.pos < end
            invariant
                n == self.data@.len(),
                end <= n,
                0 <= start <= self.pos <= end,
                start + len == end,
                self.data@ == old(self).bytes(),
                out@ == self.data@.subrange(start, self.pos as int),
            decreases end - self.pos,
        {
            out.push(self.data[self.pos]);
            self.pos = self.pos + 1;
            assert(out@ =~= self.data@.subrange(start, self.pos as int));
        }
        Ok(out)
    }

    /// Consumes four bytes and interprets them as a little-endian unsigned
    /// 32-bit integer; fails when fewer than four bytes remain.
    pub fn read_u32(&mut self) -> (r: Result<u32, PakError>)
        requires
            old(self).wf(),
        ensures
            final(self).wf(),
            final(self).bytes() == old(self).bytes(),
            match r {
                Ok(n) => {
                    &&& old(self).position() + 4 <= old(self).bytes().len()
                    &&& n == u32_from_le(old(self).bytes().subrange(
                        old(self).position(),
                        old(self).position() + 4,
                    ))
                    &&& final(self).position() == old(self).position() + 4
                },
                Err(e) => {
                    &&& e == PakError::EndOfStream
                    &&& old(self).position() + 4 > old(self).bytes().len()
                    &&& final(self).position() == old(self).position()
                },
            },
    {
        if 4 > self.data.len() - self.pos {
            return Err(PakError::EndOfStream);
        }
        let b0 = self.data[self.pos] as u32;
        let b1 = self.data[self.pos + 1] as u32;
        let b2 = self.data[self.pos + 2] as u32;
        let b3 = self.data[self.pos + 3] as u32;
        self.pos = self.pos + 4;
        let n = b0 + b1 * 0x100 + b2 * 0x1_0000 + b3 * 0x100_0000;
        proof {
            let s = old(self).bytes().subrange(old(self).position(), old(self).position() + 4);
            assert(s[0] == b0 && s[1] == b1 && s[2] == b2 && s[3] == b3);
        }
        Ok(n)
    }

    /// Consumes eight bytes and interprets them as a little-endian unsigned
    /// 64-bit integer; fails when fewer than eight bytes remain.
    pub fn read_u64(&mut self) -> (r: Result<u64, PakError>)
        requires
            old(self).wf(),
        ensures
            final(self).wf(),
            final(self).bytes() == old(self).bytes(),
            match r {
                Ok(n) => {
                    &&& old(self).position() + 8 <= old(self).bytes().len()
                    &&& n == u64_from_le(old(self).bytes().subrange(
                        old(self).position(),
                        old(self).position() + 8,
                    ))
                    &&& final(self).position() == old(self).position() + 8
                },
                Err(e) => {
                    &&& e == PakError::EndOfStream
                    &&& old(self).position() + 8 > old(self).bytes().len()
                    &&& final(self).position() == old(self).position()
                },
            },
    {
        if 8 > self.data.len() - self.pos {
            return Err(PakError::EndOfStream);
        }
        let b0 = self.data[self.pos] as u64;
        let b1 = self.data[self.pos + 1] as u64;
        let b2 = self.data[self.pos + 2] as u64;
        let b3 = self.data[self.pos + 3] as u64;
        let b4 = self.data[self.pos + 4] as u64;
        let b5 = self.data[self.pos + 5] as u64;
        let b6 = self.data[self.pos + 6] as u64;
        let b7 = self.data[self.pos + 7] as u64;
        self.pos = self.pos + 8;
        let n = b0 + b1 * 0x100 + b2 * 0x1_0000 + b3 * 0x100_0000
            + b4 * 0x1_0000_0000 + b5 * 0x100_0000_0000 + b6 * 0x1_0000_0000_0000
            + b7 * 0x100_0000_0000_0000;
        proof {
            let s = old(self).bytes().subrange(old(self).position(), old(self).position() + 8);
            assert(s[0] == b0 && s[1] == b1 && s[2] == b2 && s[3] == b3);
            assert(s[4] == b4 && s[5] == b5 && s[6] == b6 && s[7] == b7);
        }
        Ok(n)
    }

    /// Consumes `len` bytes and decodes them as UTF-8 text.  Fails at the
    /// end of the stream without consuming, or with a decode error after
    /// consuming, when the bytes are not valid UTF-8.
    pub fn read_string(&mut self, len: usize) -> (r: Result<String, PakError>)
        requires
            old(self).wf(),
        ensures
            final(self).wf(),
            final(self).bytes() == old(self).bytes(),
            match r {
                Ok(s) => {
                    &&& old(self).position() + len <= old(self).bytes().len()
                    &&& valid_utf8(old(self).bytes().subrange(
                        old(self).position(),
                        old(self).position() + len,
                    ))
                    &&& s@ == decode_utf8(old(self).bytes().subrange(
                        old(self).position(),
                        old(self).position() + len,
                    ))
                    &&& final(self).position() == old(self).position() + len
                },
                Err(e) => {
                    &&& (e == PakError::EndOfStream || e == PakError::InvalidUtf8)
                    &&& (e == PakError::EndOfStream <==> old(self).position() + len > old(
                        self,
                    ).bytes().len())
                    &&& (e == PakError::InvalidUtf8 ==> {
                        &&& old(self).position() + len <= old(self).bytes().len()
                        &&& !valid_utf8(old(self).bytes().subrange(
                            old(self).position(),
                            old(self).position() + len,
                        ))
                        &&& final(self).position() == old(self).position() + len
                    })
                    &&& (e == PakError::EndOfStream ==> final(self).position() == old(
                        self,
                    ).position())
                },
            },
    {
        let buf = match self.read_vec_u8(len) {
            Ok(v) => v,
            Err(e) => {
                return Err(e);
            },
        };
        match bytes_to_string(buf) {
            Some(s) => Ok(s),
            None => Err(PakError::InvalidUtf8),
        }
    }
}

/// Relies on `String::from_utf8`: it succeeds exactly when the bytes are
/// valid UTF-8, and the resulting string holds the characters those bytes
/// encode, a function of the bytes alone.
#[verifier::external_body]
fn bytes_to_string(bytes: Vec<u8>) -> (r: Option<String>)
    ensures
        r is Some <==> valid_utf8(bytes@),
        r matches Some(s) ==> s@ == decode_utf8(bytes@),
{
    match String::from_utf8(bytes) {
        Ok(s) => Some(s),
        Err(_) => None,
    }
}

} // verus!
