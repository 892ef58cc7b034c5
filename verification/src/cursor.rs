//! A read position over the bytes of a whole message.

use crate::error::DNSError;
use crate::wire::{read_be16, read_be32, u16_at, u32_at};
use vstd::prelude::*;
use vstd::slice::{slice_subrange, slice_to_vec};

verus! {

/// A message buffer and the offset of the next byte to read. Names with
/// compression pointers refer to absolute offsets, so a decoder needs the
/// whole buffer and the freedom to move in it. The offset may lie beyond the
/// end of the buffer: reading there fails.
pub struct ByteCursor<'a> {
    data: &'a [u8],
    pos: usize,
}

impl<'a> ByteCursor<'a> {
    /// The bytes of the message.
    pub closed spec fn bytes(&self) -> Seq<u8> {
        self.data@
    }

    /// The offset of the next byte to read.
    pub closed spec fn offset(&self) -> int {
        self.pos as int
    }

    /// Offset and length are machine integers.
    pub proof fn lemma_in_range(&self)
        ensures
            0 <= self.offset() <= usize::MAX,
            self.bytes().len() <= usize::MAX,
    {
        assert(self.data.len() == self.data@.len());
    }

    /// A cursor at the start of `data`.
    pub fn new(data: &'a [u8]) -> (cursor: Self)
        ensures
            cursor.bytes() == data@,
            cursor.offset() == 0,
    {
        ByteCursor { data, pos: 0 }
    }

    /// The offset of the next byte to read.
    pub fn position(&self) -> (pos: usize)
        ensures
            pos == self.offset(),
    {
        self.pos
    }

    /// The length of the message.
    pub fn len(&self) -> (n: usize)
        ensures
            n == self.bytes().len(),
    {
        self.data.len()
    }

    /// Moves to the absolute offset `pos`, which may lie beyond the end.
    pub fn seek(&mut self, pos: usize)
        ensures
            final(self).bytes() == old(self).bytes(),
            final(self).offset() == pos,
    {
        self.pos = pos;
    }

    /// Reads one byte. Fails with `IOError`, and stays in place, at the end of
    /// the buffer.
    pub fn read_u8(&mut self) -> (r: Result<u8, DNSError>)
        ensures
            final(self).bytes() == old(self).bytes(),
            old(self).offset() < old(self).bytes().len() ==> r == Ok::<u8, DNSError>(
                old(self).bytes()[old(self).offset()],
            ) && final(self).offset() == old(self).offset() + 1,
            old(self).offset() >= old(self).bytes().len() ==> r == Err::<u8, DNSError>(
                DNSError::IOError,
            ) && final(self).offset() == old(self).offset(),
    {
        if self.pos < self.data.len() {
            let b = self.data[self.pos];
            self.pos = self.pos + 1;
            Ok(b)
        } else {
            Err(DNSError::IOError)
        }
    }

    /// Reads a big-endian 16-bit integer. Fails with `IOError`, and stays in
    /// place, where fewer than two bytes are left.
    pub fn read_u16(&mut self) -> (r: Result<u16, DNSError>)
        ensures
            final(self).bytes() == old(self).bytes(),
            old(self).offset() + 2 <= old(self).bytes().len() ==> r == Ok::<u16, DNSError>(
                u16_at(old(self).bytes(), old(self).offset()),
            ) && final(self).offset() == old(self).offset() + 2,
            old(self).offset() + 2 > old(self).bytes().len() ==> r == Err::<u16, DNSError>(
                DNSError::IOError,
            ) && final(self).offset() == old(self).offset(),
    {
        let n = self.data.len();
        if self.pos <= n && n - self.pos >= 2 {
            let v = read_be16(slice_subrange(self.data, self.pos, self.pos + 2));
            self.pos = self.pos + 2;
            Ok(v)
        } else {
            Err(DNSError::IOError)
        }
    }

    /// Reads a big-endian 32-bit integer. Fails with `IOError`, and stays in
    /// place, where fewer than four bytes are left.
    pub fn read_u32(&mut self) -> (r: Result<u32, DNSError>)
        ensures
            final(self).bytes() == old(self).bytes(),
            old(self).offset() + 4 <= old(self).bytes().len() ==> r == Ok::<u32, DNSError>(
                u32_at(old(self).bytes(), old(self).offset()),
            ) && final(self).offset() == old(self).offset() + 4,
            old(self).offset() + 4 > old(self).bytes().len() ==> r == Err::<u32, DNSError>(
                DNSError::IOError,
            ) && final(self).offset() == old(self).offset(),
    {
        let n = self.data.len();
        if self.pos <= n && n - self.pos >= 4 {
            let v = read_be32(slice_subrange(self.data, self.pos, self.pos + 4));
            self.pos = self.pos + 4;
            Ok(v)
        } else {
            Err(DNSError::IOError)
        }
    }

    /// Reads the next `count` bytes. Fails with `IOError`, and stays in place,
    /// where fewer are left.
    pub fn read_exact(&mut self, count: usize) -> (r: Result<Vec<u8>, DNSError>)
        ensures
            final(self).bytes() == old(self).bytes(),
            old(self).offset() + count <= old(self).bytes().len() ==> {
                &&& r matches Ok(bytes)
                &&& bytes@ == old(self).bytes().subrange(
                    old(self).offset(),
                    old(self).offset() + count,
                )
                &&& final(self).offset() == old(self).offset() + count
            },
            old(self).offset() + count > old(self).bytes().len() ==> r == Err::<Vec<u8>, DNSError>(
                DNSError::IOError,
            ) && final(self).offset() == old(self).offset(),
    {
        let n = self.data.len();
        if self.pos <= n && n - self.pos >= count {
            let bytes = slice_to_vec(slice_subrange(self.data, self.pos, self.pos + count));
            self.pos = self.pos + count;
            Ok(bytes)
        } else {
            Err(DNSError::IOError)
        }
    }
}

} // verus!
