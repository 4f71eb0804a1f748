//! A byte stream that can be rolled back to the last checkpoint.
//!
//! The tolerant parser reads ahead to see whether a packet is sound. Where
//! it is not, the parser goes back to the checkpoint and tries one byte
//! further on; where it is, the parser sets a new checkpoint behind it.

use crate::substream::DecodeError;
use vstd::prelude::*;
use vstd::slice::{slice_subrange, slice_to_vec};

verus! {

/// A stream over a byte source that keeps what was read since the last
/// checkpoint, so that it can be read again.
pub struct StreamWithCheckpoints {
    reader: Vec<u8>,
    reader_pos: usize,
    prev_data: Vec<u8>,
    prev_data_pos: usize,
}

impl StreamWithCheckpoints {
    /// The positions lie within what they index, and no more is kept than
    /// was taken from the source.
    pub closed spec fn wf(&self) -> bool {
        &&& self.prev_data_pos <= self.prev_data@.len()
        &&& self.prev_data@.len() <= self.reader_pos
        &&& self.reader_pos <= self.reader@.len()
    }

    /// The bytes read since the last checkpoint: a rollback brings them back.
    pub closed spec fn behind(&self) -> Seq<u8> {
        self.prev_data@.take(self.prev_data_pos as int)
    }

    /// The bytes still to be read, from the current position to the end of
    /// the source.
    pub closed spec fn ahead(&self) -> Seq<u8> {
        self.prev_data@.skip(self.prev_data_pos as int) + self.reader@.skip(self.reader_pos as int)
    }

    /// How many of the bytes ahead have been read before and are kept.
    pub closed spec fn cached(&self) -> nat {
        (self.prev_data@.len() - self.prev_data_pos) as nat
    }

    pub fn new(reader: Vec<u8>) -> (stream: Self)
        ensures
            stream.wf(),
            stream.ahead() == reader@,
            stream.behind() == Seq::<u8>::empty(),
            stream.cached() == 0,
    {
        let stream = Self { reader, reader_pos: 0, prev_data: Vec::new(), prev_data_pos: 0 };
        assert(stream.ahead() =~= reader@);
        assert(stream.behind() =~= Seq::<u8>::empty());
        stream
    }

    /// Checkpoint the current position: what was read before it is let go.
    pub fn checkpoint(&mut self)
        requires
            old(self).wf(),
        ensures
            final(self).wf(),
            final(self).ahead() == old(self).ahead(),
            final(self).behind() == Seq::<u8>::empty(),
            final(self).cached() == old(self).cached(),
    {
        let kept = self.prev_data.split_off(self.prev_data_pos);
        self.prev_data = kept;
        self.prev_data_pos = 0;
        assert(self.ahead() =~= old(self).ahead());
        assert(self.behind() =~= Seq::<u8>::empty());
    }

    /// Skip ahead by `skip_by` bytes and checkpoint the new position.
    pub fn skip_and_checkpoint(&mut self, skip_by: usize)
        requires
            old(self).wf(),
            skip_by <= old(self).ahead().len(),
        ensures
            final(self).wf(),
            final(self).ahead() == old(self).ahead().skip(skip_by as int),
            final(self).behind() == Seq::<u8>::empty(),
            final(self).cached() == (if skip_by <= old(self).cached() {
                (old(self).cached() - skip_by) as nat
            } else {
                0
            }),
    {
        let cached = self.prev_data.len() - self.prev_data_pos;
        let left = self.reader.len() - self.reader_pos;
        assert(self.ahead().len() == cached + left);
        if skip_by > cached {
            let ahead = skip_by - cached;
            self.reader_pos = self.reader_pos + ahead;
            self.prev_data_pos = 0;
            self.prev_data.clear();
        } else {
            let kept = self.prev_data.split_off(self.prev_data_pos + skip_by);
            self.prev_data = kept;
            self.prev_data_pos = 0;
        }
        assert(self.ahead() =~= old(self).ahead().skip(skip_by as int));
        assert(self.behind() =~= Seq::<u8>::empty());
    }

    /// Rollback to the last checkpoint.
    pub fn rollback(&mut self)
        requires
            old(self).wf(),
        ensures
            final(self).wf(),
            final(self).ahead() == old(self).behind() + old(self).ahead(),
            final(self).behind() == Seq::<u8>::empty(),
            final(self).cached() == old(self).behind().len() + old(self).cached(),
    {
        self.prev_data_pos = 0;
        assert(self.ahead() =~= old(self).behind() + old(self).ahead());
        assert(self.behind() =~= Seq::<u8>::empty());
    }

    /// Go back by `n` of the bytes read since the last checkpoint.
    pub fn rollback_n(&mut self, n: usize)
        requires
            old(self).wf(),
            n <= old(self).behind().len(),
        ensures
            final(self).wf(),
            final(self).behind() == old(self).behind().take(old(self).behind().len() - n),
            final(self).ahead() == old(self).behind().skip(old(self).behind().len() - n) + old(
                self,
            ).ahead(),
            final(self).cached() == old(self).cached() + n,
    {
        self.prev_data_pos = self.prev_data_pos - n;
        assert(self.behind() =~= old(self).behind().take(old(self).behind().len() - n));
        assert(self.ahead() =~= old(self).behind().skip(old(self).behind().len() - n) + old(
            self,
        ).ahead());
    }

    /// How many bytes a rollback would bring back.
    pub fn rollback_len(&self) -> (n: usize)
        requires
            self.wf(),
        ensures
            n == self.behind().len(),
    {
        self.prev_data_pos
    }

    /// How many of the bytes ahead are kept from an earlier read.
    pub fn cached_len(&self) -> (n: usize)
        requires
            self.wf(),
        ensures
            n == self.cached(),
    {
        self.prev_data.len() - self.prev_data_pos
    }

    /// The same as `cached_len`.
    pub fn remaining_cached_len(&self) -> (n: usize)
        requires
            self.wf(),
        ensures
            n == self.cached(),
    {
        self.prev_data.len() - self.prev_data_pos
    }

    /// How many bytes can still be read.
    pub fn remaining(&self) -> (n: usize)
        requires
            self.wf(),
        ensures
            n == self.ahead().len(),
    {
        (self.prev_data.len() - self.prev_data_pos) + (self.reader.len() - self.reader_pos)
    }

    /// Reads up to `max` bytes: as many as the source still has, if fewer.
    /// Bytes kept from before a rollback come first, then fresh ones.
    pub fn read(&mut self, max: usize) -> (got: Vec<u8>)
        requires
            old(self).wf(),
        ensures
            final(self).wf(),
            got@.len() == (if max <= old(self).ahead().len() {
                max as nat
            } else {
                old(self).ahead().len()
            }),
            got@ == old(self).ahead().take(got@.len() as int),
            final(self).ahead() == old(self).ahead().skip(got@.len() as int),
            final(self).behind() == old(self).behind() + got@,
            final(self).cached() == (if got@.len() <= old(self).cached() {
                (old(self).cached() - got@.len()) as nat
            } else {
                0
            }),
    {
        let remaining_buffer = self.prev_data.len() - self.prev_data_pos;
        let remaining_buffer_min = if remaining_buffer <= max {
            remaining_buffer
        } else {
            max
        };
        let mut buf = slice_to_vec(
            slice_subrange(
                self.prev_data.as_slice(),
                self.prev_data_pos,
                self.prev_data_pos + remaining_buffer_min,
            ),
        );
        self.prev_data_pos = self.prev_data_pos + remaining_buffer_min;
        if remaining_buffer_min < max {
            let wanted = max - remaining_buffer_min;
            let left = self.reader.len() - self.reader_pos;
            let read_from_stream = if wanted <= left {
                wanted
            } else {
                left
            };
            let fresh = slice_subrange(
                self.reader.as_slice(),
                self.reader_pos,
                self.reader_pos + read_from_stream,
            );
            buf.extend_from_slice(fresh);
            self.prev_data.extend_from_slice(fresh);
            self.prev_data_pos = self.prev_data_pos + read_from_stream;
            self.reader_pos = self.reader_pos + read_from_stream;
        }
        assert(buf@ =~= old(self).ahead().take(buf@.len() as int));
        assert(self.ahead() =~= old(self).ahead().skip(buf@.len() as int));
        assert(self.behind() =~= old(self).behind() + buf@);
        buf
    }

    /// Gives up the stream for the bytes that were still to be read.
    pub fn into_remaining(self) -> (rest: Vec<u8>)
        requires
            self.wf(),
        ensures
            rest@ == self.ahead(),
    {
        let mut rest = slice_to_vec(
            slice_subrange(self.prev_data.as_slice(), self.prev_data_pos, self.prev_data.len()),
        );
        rest.extend_from_slice(
            slice_subrange(self.reader.as_slice(), self.reader_pos, self.reader.len()),
        );
        assert(rest@ =~= self.ahead());
        rest
    }

    /// Reads exactly `n` bytes, or nothing at all if the source has fewer.
    pub fn read_exact(&mut self, n: usize) -> (r: Result<Vec<u8>, DecodeError>)
        requires
            old(self).wf(),
        ensures
            final(self).wf(),
            n <= old(self).ahead().len() ==> r is Ok && r->Ok_0@ == old(self).ahead().take(n as int)
                && final(self).ahead() == old(self).ahead().skip(n as int) && final(self).behind()
                == old(self).behind() + r->Ok_0@,
            n > old(self).ahead().len() ==> r is Err && r->Err_0 == DecodeError::UnexpectedEof
                && final(self).ahead() == old(self).ahead() && final(self).behind() == old(
                self,
            ).behind() && final(self).cached() == old(self).cached(),
    {
        if n > self.remaining() {
            return Err(DecodeError::UnexpectedEof);
        }
        Ok(self.read(n))
    }
}

} // verus!
