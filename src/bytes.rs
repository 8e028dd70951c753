use vstd::prelude::*;

use crate::error::NbtReadError;

verus! {

/// The unsigned value of the two bytes at `p`, most significant first.
pub open spec fn be16(b: Seq<u8>, p: int) -> int {
    b[p] as int * 256 + b[p + 1] as int
}

/// The unsigned value of the four bytes at `p`, most significant first.
pub open spec fn be32(b: Seq<u8>, p: int) -> int {
    be16(b, p) * 65536 + be16(b, p + 2)
}

/// The unsigned value of the eight bytes at `p`, most significant first.
pub open spec fn be64(b: Seq<u8>, p: int) -> int {
    be32(b, p) * 4294967296 + be32(b, p + 4)
}

/// The two's-complement reading of an unsigned value `u` of a width whose
/// modulus is `m`.
pub open spec fn signed(u: int, m: int) -> int {
    if 2 * u >= m {
        u - m
    } else {
        u
    }
}

/// Whether `n` bytes starting at `p` lie inside `b`.
pub open spec fn fits(b: Seq<u8>, p: int, n: int) -> bool {
    0 <= p && 0 <= n && p + n <= b.len()
}

/// What `String::from_utf8` makes of a byte sequence: `None` where the bytes
/// are not valid UTF-8, else the characters they encode.
pub open spec fn utf8_text(b: Seq<u8>) -> Option<Seq<char>> {
    if vstd::utf8::valid_utf8(b) {
        Some(vstd::utf8::decode_utf8(b))
    } else {
        None
    }
}

/// Relies on `String::from_utf8`: it returns the text exactly when the bytes
/// are valid UTF-8, and the error otherwise.
#[verifier::external_body]
pub(crate) fn decode_utf8(b: Vec<u8>) -> (r: Result<String, std::string::FromUtf8Error>)
    ensures
        match r {
            Ok(s) => utf8_text(b@) == Some(s@),
            Err(_) => utf8_text(b@) is None,
        },
{
    String::from_utf8(b)
}

/// A cursor over an owned byte buffer: the byte source that the decoder
/// reads from.
pub struct ByteReader {
    data: Vec<u8>,
    pos: usize,
}

impl ByteReader {
    /// The whole buffer.
    pub closed spec fn bytes(&self) -> Seq<u8> {
        self.data@
    }

    /// How many bytes have been consumed.
    pub closed spec fn position(&self) -> int {
        self.pos as int
    }

    /// The cursor never passes the end of the buffer.
    pub closed spec fn wf(&self) -> bool {
        self.pos <= self.data.len()
    }

    /// A well-formed cursor lies within its buffer.
    pub proof fn lemma_position_bounds(&self)
        requires
            self.wf(),
        ensures
            0 <= self.position() <= self.bytes().len(),
    {
    }

    /// A cursor at the start of `data`.
    pub fn new(data: Vec<u8>) -> (r: ByteReader)
        ensures
            r.wf(),
            r.bytes() == data@,
            r.position() == 0,
    {
        ByteReader { data, pos: 0 }
    }

    /// How many bytes have been consumed.
    pub fn pos(&self) -> (r: usize)
        requires
            self.wf(),
        ensures
            r == self.position(),
    {
        self.pos
    }

    /// How many bytes are left.
    pub fn remaining(&self) -> (r: usize)
        requires
            self.wf(),
        ensures
            r == self.bytes().len() - self.position(),
    {
        self.data.len() - self.pos
    }

    /// Moves the cursor to `pos`, which lies within the buffer.
    pub fn rewind(&mut self, pos: usize)
        requires
            old(self).wf(),
            pos <= old(self).bytes().len(),
        ensures
            final(self).wf(),
            final(self).bytes() == old(self).bytes(),
            final(self).position() == pos,
    {
        self.pos = pos;
    }

    /// Reads one byte.
    pub fn read_u8(&mut self) -> (r: Result<u8, NbtReadError>)
        requires
            old(self).wf(),
        ensures
            final(self).wf(),
            final(self).bytes() == old(self).bytes(),
            fits(old(self).bytes(), old(self).position(), 1) <==> r is Ok,
            r matches Ok(x) ==> x == old(self).bytes()[old(self).position()]
                && final(self).position() == old(self).position() + 1,
            r matches Err(e) ==> e is UnexpectedEof,
    {
        if self.pos < self.data.len() {
            let x = self.data[self.pos];
            self.pos = self.pos + 1;
            Ok(x)
        } else {
            Err(NbtReadError::UnexpectedEof)
        }
    }

    /// Reads one byte as a two's-complement integer.
    pub fn read_i8(&mut self) -> (r: Result<i8, NbtReadError>)
        requires
            old(self).wf(),
        ensures
            final(self).wf(),
            final(self).bytes() == old(self).bytes(),
            fits(old(self).bytes(), old(self).position(), 1) <==> r is Ok,
            r matches Ok(x) ==> x as int == signed(
                old(self).bytes()[old(self).position()] as int,
                256,
            ) && final(self).position() == old(self).position() + 1,
            r matches Err(e) ==> e is UnexpectedEof,
    {
        let u = self.read_u8()?;
        if u >= 128 {
            Ok(((u as i16) - 256) as i8)
        } else {
            Ok(u as i8)
        }
    }

    /// Reads a big-endian unsigned 16-bit integer.
    pub fn read_u16(&mut self) -> (r: Result<u16, NbtReadError>)
        requires
            old(self).wf(),
        ensures
            final(self).wf(),
            final(self).bytes() == old(self).bytes(),
            fits(old(self).bytes(), old(self).position(), 2) <==> r is Ok,
            r matches Ok(x) ==> x as int == be16(old(self).bytes(), old(self).position())
                && final(self).position() == old(self).position() + 2,
            r matches Err(e) ==> e is UnexpectedEof,
    {
        if self.data.len() - self.pos >= 2 {
            let hi = self.data[self.pos];
            let lo = self.data[self.pos + 1];
            self.pos = self.pos + 2;
            Ok((hi as u16) * 256 + (lo as u16))
        } else {
            Err(NbtReadError::UnexpectedEof)
        }
    }

    /// Reads a big-endian two's-complement 16-bit integer.
    pub fn read_i16(&mut self) -> (r: Result<i16, NbtReadError>)
        requires
            old(self).wf(),
        ensures
            final(self).wf(),
            final(self).bytes() == old(self).bytes(),
            fits(old(self).bytes(), old(self).position(), 2) <==> r is Ok,
            r matches Ok(x) ==> x as int == signed(
                be16(old(self).bytes(), old(self).position()),
                65536,
            ) && final(self).position() == old(self).position() + 2,
            r matches Err(e) ==> e is UnexpectedEof,
    {
        let u = self.read_u16()?;
        if u >= 32768 {
            Ok(((u as i32) - 65536) as i16)
        } else {
            Ok(u as i16)
        }
    }

    /// Reads a big-endian unsigned 32-bit integer.
    pub fn read_u32(&mut self) -> (r: Result<u32, NbtReadError>)
        requires
            old(self).wf(),
        ensures
            final(self).wf(),
            final(self).bytes() == old(self).bytes(),
            fits(old(self).bytes(), old(self).position(), 4) <==> r is Ok,
            r matches Ok(x) ==> x as int == be32(old(self).bytes(), old(self).position())
                && final(self).position() == old(self).position() + 4,
            r matches Err(e) ==> e is UnexpectedEof,
    {
        if self.data.len() - self.pos >= 4 {
            let hi = self.read_u16()?;
            let lo = self.read_u16()?;
            Ok((hi as u32) * 65536 + (lo as u32))
        } else {
            Err(NbtReadError::UnexpectedEof)
        }
    }

    /// Reads a big-endian two's-complement 32-bit integer.
    pub fn read_i32(&mut self) -> (r: Result<i32, NbtReadError>)
        requires
            old(self).wf(),
        ensures
            final(self).wf(),
            final(self).bytes() == old(self).bytes(),
            fits(old(self).bytes(), old(self).position(), 4) <==> r is Ok,
            r matches Ok(x) ==> x as int == signed(
                be32(old(self).bytes(), old(self).position()),
                4294967296,
            ) && final(self).position() == old(self).position() + 4,
            r matches Err(e) ==> e is UnexpectedEof,
    {
        let u = self.read_u32()?;
        if u >= 2147483648 {
            Ok(((u as i64) - 4294967296) as i32)
        } else {
            Ok(u as i32)
        }
    }

    /// Reads a big-endian unsigned 64-bit integer.
    pub fn read_u64(&mut self) -> (r: Result<u64, NbtReadError>)
        requires
            old(self).wf(),
        ensures
            final(self).wf(),
            final(self).bytes() == old(self).bytes(),
            fits(old(self).bytes(), old(self).position(), 8) <==> r is Ok,
            r matches Ok(x) ==> x as int == be64(old(self).bytes(), old(self).position())
                && final(self).position() == old(self).position() + 8,
            r matches Err(e) ==> e is UnexpectedEof,
    {
        if self.data.len() - self.pos >= 8 {
            let hi = self.read_u32()?;
            let lo = self.read_u32()?;
            Ok((hi as u64) * 4294967296 + (lo as u64))
        } else {
            Err(NbtReadError::UnexpectedEof)
        }
    }

    /// Reads a big-endian two's-complement 64-bit integer.
    pub fn read_i64(&mut self) -> (r: Result<i64, NbtReadError>)
        requires
            old(self).wf(),
        ensures
            final(self).wf(),
            final(self).bytes() == old(self).bytes(),
            fits(old(self).bytes(), old(self).position(), 8) <==> r is Ok,
            r matches Ok(x) ==> x as int == signed(
                be64(old(self).bytes(), old(self).position()),
                18446744073709551616,
            ) && final(self).position() == old(self).position() + 8,
            r matches Err(e) ==> e is UnexpectedEof,
    {
        let u = self.read_u64()?;
        if u >= 9223372036854775808 {
            Ok(((u - 9223372036854775808) as i64) - 9223372036854775807 - 1)
        } else {
            Ok(u as i64)
        }
    }

    /// Reads exactly `n` bytes, failing with `UnexpectedEof` where fewer are
    /// left.
    pub fn read_bytes(&mut self, n: usize) -> (r: Result<Vec<u8>, NbtReadError>)
        requires
            old(self).wf(),
        ensures
            final(self).wf(),
            final(self).bytes() == old(self).bytes(),
            fits(old(self).bytes(), old(self).position(), n as int) <==> r is Ok,
            r matches Ok(v) ==> v@ == old(self).bytes().subrange(
                old(self).position(),
                old(self).position() + n,
            ) && final(self).position() == old(self).position() + n,
            r matches Err(e) ==> e is UnexpectedEof,
    {
        if self.data.len() - self.pos < n {
            return Err(NbtReadError::UnexpectedEof);
        }
        let start = self.pos;
        let mut v: Vec<u8> = Vec::new();
        let mut i: usize = 0;
        while i < n
            invariant
                self.wf(),
                self.data@ == old(self).data@,
                start == old(self).pos,
                self.pos == start,
                start + n <= self.data.len(),
                i <= n,
                v@ == self.data@.subrange(start as int, start + i),
            decreases n - i,
        {
            v.push(self.data[start + i]);
            i = i + 1;
            assert(v@ =~= self.data@.subrange(start as int, start + i));
        }
        self.pos = start + n;
        Ok(v)
    }
}

} // verus!
