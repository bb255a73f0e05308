use crate::error::DecodeError;
use crate::le::{i16_le, i32_le, read_i16_le, read_i32_le};
use vstd::prelude::*;
use vstd::slice::slice_subrange;

verus! {

/// The byte at `pos`, if the source has one there.
pub open spec fn byte_at(data: Seq<u8>, pos: int) -> Option<u8> {
    if 0 <= pos < data.len() {
        Some(data[pos])
    } else {
        None
    }
}

/// Whether `n` more bytes can be read from `pos`.
pub open spec fn has_bytes(data: Seq<u8>, pos: int, n: int) -> bool {
    0 <= pos && 0 <= n && pos + n <= data.len()
}

/// A forward-only reader over a byte slice.
pub struct ByteCursor<'a> {
    data: &'a [u8],
    pos: usize,
}

impl<'a> ByteCursor<'a> {
    /// The position never runs past the end of the source.
    pub closed spec fn wf(&self) -> bool {
        self.pos <= self.data@.len()
    }

    /// The bytes the cursor reads from.
    pub closed spec fn source(&self) -> Seq<u8> {
        self.data@
    }

    /// How many bytes have been consumed.
    pub closed spec fn offset(&self) -> int {
        self.pos as int
    }

    /// A well-formed cursor stands inside its source, or at its end.
    pub proof fn lemma_offset_in_range(&self)
        requires
            self.wf(),
        ensures
            0 <= self.offset() <= self.source().len(),
    {
    }

    /// A cursor at the start of `data`.
    pub fn new(data: &'a [u8]) -> (c: Self)
        ensures
            c.wf(),
            c.source() == data@,
            c.offset() == 0,
    {
        ByteCursor { data, pos: 0 }
    }

    /// How many bytes have been consumed.
    pub fn position(&self) -> (r: usize)
        requires
            self.wf(),
        ensures
            r == self.offset(),
    {
        self.pos
    }

    /// How many bytes are left to read.
    pub fn bytes_left(&self) -> (r: usize)
        requires
            self.wf(),
        ensures
            r == self.source().len() - self.offset(),
    {
        self.data.len() - self.pos
    }

    /// Consumes one byte; `None` at end of stream, with nothing consumed.
    pub fn next_byte(&mut self) -> (r: Option<u8>)
        requires
            old(self).wf(),
        ensures
            final(self).wf(),
            final(self).source() == old(self).source(),
            r == byte_at(old(self).source(), old(self).offset()),
            final(self).offset() == old(self).offset() + (if r is Some { 1int } else { 0int }),
    {
        if self.pos < self.data.len() {
            let b: u8 = self.data[self.pos];
            self.pos = self.pos + 1;
            Some(b)
        } else {
            None
        }
    }

    /// Consumes exactly `n` bytes, or none at all when fewer are left.
    pub fn read_exact(&mut self, n: usize) -> (r: Result<Vec<u8>, DecodeError>)
        requires
            old(self).wf(),
        ensures
            final(self).wf(),
            final(self).source() == old(self).source(),
            match r {
                Ok(v) => {
                    &&& has_bytes(old(self).source(), old(self).offset(), n as int)
                    &&& v@ == old(self).source().subrange(old(self).offset(), old(self).offset() + n)
                    &&& final(self).offset() == old(self).offset() + n
                },
                Err(e) => {
                    &&& !has_bytes(old(self).source(), old(self).offset(), n as int)
                    &&& e == DecodeError::TruncatedInput
                    &&& final(self).offset() == old(self).offset()
                },
            },
    {
        if n > self.data.len() - self.pos {
            return Err(DecodeError::TruncatedInput);
        }
        let part = slice_subrange(self.data, self.pos, self.pos + n);
        let v = slice_to_vec(part);
        self.pos = self.pos + n;
        Ok(v)
    }

    /// Consumes one byte, failing at end of stream.
    pub fn read_u8(&mut self) -> (r: Result<u8, DecodeError>)
        requires
            old(self).wf(),
        ensures
            final(self).wf(),
            final(self).source() == old(self).source(),
            match r {
                Ok(b) => {
                    &&& byte_at(old(self).source(), old(self).offset()) == Some(b)
                    &&& final(self).offset() == old(self).offset() + 1
                },
                Err(e) => {
                    &&& byte_at(old(self).source(), old(self).offset()) is None
                    &&& e == DecodeError::TruncatedInput
                    &&& final(self).offset() == old(self).offset()
                },
            },
    {
        match self.next_byte() {
            Some(b) => Ok(b),
            None => Err(DecodeError::TruncatedInput),
        }
    }

    /// Consumes two bytes as a little-endian signed number.
    pub fn read_i16_le(&mut self) -> (r: Result<i16, DecodeError>)
        requires
            old(self).wf(),
        ensures
            final(self).wf(),
            final(self).source() == old(self).source(),
            match r {
                Ok(v) => {
                    &&& has_bytes(old(self).source(), old(self).offset(), 2)
                    &&& v as int == i16_at(old(self).source(), old(self).offset())
                    &&& final(self).offset() == old(self).offset() + 2
                },
                Err(e) => {
                    &&& !has_bytes(old(self).source(), old(self).offset(), 2)
                    &&& e == DecodeError::TruncatedInput
                    &&& final(self).offset() == old(self).offset()
                },
            },
    {
        if self.data.len() - self.pos < 2 {
            return Err(DecodeError::TruncatedInput);
        }
        let part = slice_subrange(self.data, self.pos, self.pos + 2);
        let v = read_i16_le(part);
        self.pos = self.pos + 2;
        Ok(v)
    }

    /// Consumes four bytes as a little-endian signed number.
    pub fn read_i32_le(&mut self) -> (r: Result<i32, DecodeError>)
        requires
            old(self).wf(),
        ensures
            final(self).wf(),
            final(self).source() == old(self).source(),
            match r {
                Ok(v) => {
                    &&& has_bytes(old(self).source(), old(self).offset(), 4)
                    &&& v as int == i32_at(old(self).source(), old(self).offset())
                    &&& final(self).offset() == old(self).offset() + 4
                },
                Err(e) => {
                    &&& !has_bytes(old(self).source(), old(self).offset(), 4)
                    &&& e == DecodeError::TruncatedInput
                    &&& final(self).offset() == old(self).offset()
                },
            },
    {
        if self.data.len() - self.pos < 4 {
            return Err(DecodeError::TruncatedInput);
        }
        let part = slice_subrange(self.data, self.pos, self.pos + 4);
        let v = read_i32_le(part);
        self.pos = self.pos + 4;
        Ok(v)
    }
}

/// The little-endian signed 16-bit number stored at `pos`.
pub open spec fn i16_at(data: Seq<u8>, pos: int) -> int {
    i16_le(data[pos], data[pos + 1])
}

/// The little-endian signed 32-bit number stored at `pos`.
pub open spec fn i32_at(data: Seq<u8>, pos: int) -> int {
    i32_le(data[pos], data[pos + 1], data[pos + 2], data[pos + 3])
}

/// Copies a slice into a vector.
pub fn slice_to_vec(s: &[u8]) -> (v: Vec<u8>)
    ensures
        v@ == s@,
{
    let mut v: Vec<u8> = Vec::new();
    let mut i: usize = 0;
    while i < s.len()
        invariant
            i <= s.len(),
            v@ == s@.subrange(0, i as int),
        decreases s.len() - i,
    {
        v.push(s[i]);
        i = i + 1;
        assert(v@ =~= s@.subrange(0, i as int));
    }
    assert(s@.subrange(0, s@.len() as int) =~= s@);
    v
}

} // verus!
