//! A reader over a byte slice that hands out at most a given number of bytes.

use vstd::prelude::*;
use vstd::slice::slice_subrange;

verus! {

/// Why a decoder stopped.
#[derive(Clone, Copy, Debug, PartialEq, Eq, Structural)]
pub enum DecodeError {
    /// The input ended before the value did.
    UnexpectedEof,
    /// The bytes are there but spell no value of the type.
    InvalidData,
}

/// Reads from the front of a byte slice, and no further than `remaining_len`
/// bytes in all, however long the slice is.
pub struct SubstreamReader<'a> {
    remaining_len: usize,
    reader: &'a [u8],
}

impl<'a> SubstreamReader<'a> {
    /// The bytes that can still be read.
    pub closed spec fn unread(&self) -> Seq<u8> {
        if self.remaining_len <= self.reader@.len() {
            self.reader@.take(self.remaining_len as int)
        } else {
            self.reader@
        }
    }

    /// How many more bytes the reader is allowed to hand out.
    pub closed spec fn allowance(&self) -> nat {
        self.remaining_len as nat
    }

    /// The bytes of the underlying slice that lie beyond the allowance.
    pub closed spec fn beyond(&self) -> Seq<u8> {
        if self.remaining_len <= self.reader@.len() {
            self.reader@.skip(self.remaining_len as int)
        } else {
            Seq::empty()
        }
    }

    pub fn new(reader: &'a [u8], len: usize) -> (r: Self)
        ensures
            r.allowance() == len,
            r.unread() == (if len <= reader@.len() {
                reader@.take(len as int)
            } else {
                reader@
            }),
            r.beyond() == (if len <= reader@.len() {
                reader@.skip(len as int)
            } else {
                Seq::empty()
            }),
    {
        Self { remaining_len: len, reader }
    }

    /// Whether the whole allowance has been read.
    pub fn reached_end(&self) -> (end: bool)
        ensures
            end == (self.allowance() == 0),
    {
        self.remaining_len == 0
    }

    /// How many bytes can still be read.
    pub fn remaining(&self) -> (n: usize)
        ensures
            n == self.unread().len(),
    {
        if self.remaining_len <= self.reader.len() {
            self.remaining_len
        } else {
            self.reader.len()
        }
    }

    /// Reads up to `max` bytes: as many as are left, if fewer.
    pub fn read(&mut self, max: usize) -> (got: &'a [u8])
        ensures
            got@.len() == (if max <= old(self).unread().len() {
                max as nat
            } else {
                old(self).unread().len()
            }),
            got@ == old(self).unread().take(got@.len() as int),
            final(self).unread() == old(self).unread().skip(got@.len() as int),
            final(self).allowance() == old(self).allowance() - got@.len(),
            final(self).beyond() == old(self).beyond(),
    {
        let avail = self.remaining();
        let n = if max <= avail {
            max
        } else {
            avail
        };
        let got = slice_subrange(self.reader, 0, n);
        let rest = slice_subrange(self.reader, n, self.reader.len());
        proof {
            let old_unread = self.unread();
            let new_len = (self.remaining_len - n) as int;
            assert(got@ =~= old_unread.take(n as int));
            if self.remaining_len <= self.reader@.len() {
                assert(rest@.take(new_len) =~= old_unread.skip(n as int));
                assert(rest@.skip(new_len) =~= self.beyond());
            } else {
                assert(rest@ =~= old_unread.skip(n as int));
            }
        }
        self.reader = rest;
        self.remaining_len = self.remaining_len - n;
        got
    }

    /// Reads exactly `n` bytes, or nothing at all if fewer are left.
    pub fn read_exact(&mut self, n: usize) -> (r: Result<&'a [u8], DecodeError>)
        ensures
            n <= old(self).unread().len() ==> r is Ok && r->Ok_0@ == old(self).unread().take(
                n as int,
            ) && final(self).unread() == old(self).unread().skip(n as int)
                && final(self).allowance() == old(self).allowance() - n && final(self).beyond()
                == old(self).beyond(),
            n > old(self).unread().len() ==> r == Err::<&[u8], DecodeError>(
                DecodeError::UnexpectedEof,
            ) && *final(self) == *old(self),
    {
        if n > self.remaining() {
            return Err(DecodeError::UnexpectedEof);
        }
        Ok(self.read(n))
    }
}

} // verus!
