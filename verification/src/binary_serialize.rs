//! The wire format of a message type: how a value is written as bytes and
//! read back from them.

use crate::encoding::{get_le, le_value, lemma_le_value_bound, radix};
use crate::substream::{DecodeError, SubstreamReader};
use crate::validity::ValidityCheck;
use vstd::prelude::*;

verus! {

/// A type whose values have a byte form.
///
/// The byte form is a function of the value's view (`wire`), and reading is
/// a function of the bytes at hand (`parse`): the value read and the number
/// of bytes it took, or the reason why none can be read.
pub trait BinarySerialize: Sized + View + ValidityCheck {
    /// The bytes of a value.
    spec fn wire(v: Self::V) -> Seq<u8>;

    /// What a reader makes of the front of `bytes`.
    spec fn parse(bytes: Seq<u8>) -> Result<(Self::V, nat), DecodeError>;

    /// Appends the bytes of the value to `writer`.
    fn serialize_to_stream(&self, writer: &mut Vec<u8>)
        requires
            self.valid(),
        ensures
            final(writer)@ == old(writer)@ + Self::wire(self@),
    ;

    /// The number of bytes that `serialize_to_stream` appends.
    fn length_when_serialized(&self) -> (n: u32)
        requires
            self.valid(),
        ensures
            n == Self::wire(self@).len(),
    ;

    /// Reads one value from the front of what `reader` has left. On success
    /// the reader has moved past the value's bytes and no further.
    fn deserialize_from_stream(reader: &mut SubstreamReader) -> (r: Result<Self, DecodeError>)
        ensures
            match Self::parse(old(reader).unread()) {
                Ok((v, n)) => r is Ok && r->Ok_0@ == v && n <= old(reader).unread().len()
                    && final(reader).unread() == old(reader).unread().skip(n as int)
                    && final(reader).allowance() == old(reader).allowance() - n
                    && final(reader).beyond() == old(reader).beyond(),
                Err(e) => r is Err && r->Err_0 == e,
            },
    ;

    /// What is read is what was written: the bytes that reading took are
    /// the bytes of the value that it gave.
    proof fn lemma_parse_inverse(bytes: Seq<u8>)
        requires
            Self::parse(bytes) is Ok,
        ensures
            Self::parse(bytes)->Ok_0.1 <= bytes.len(),
            Self::wire(Self::parse(bytes)->Ok_0.0) == bytes.take(Self::parse(bytes)->Ok_0.1 as int),
    ;

    /// A valid value reads back from its own bytes, whatever follows them,
    /// and reading takes exactly those bytes.
    proof fn lemma_roundtrip(&self, rest: Seq<u8>)
        requires
            self.valid(),
        ensures
            Self::parse(Self::wire(self@) + rest) == Ok::<(Self::V, nat), DecodeError>(
                (self@, Self::wire(self@).len()),
            ),
    ;
}

/// Reads an unsigned integer of `width` bytes, least significant byte first.
pub fn read_le(reader: &mut SubstreamReader, width: usize) -> (r: Result<u64, DecodeError>)
    requires
        width <= 8,
    ensures
        width <= old(reader).unread().len() ==> r is Ok && r->Ok_0 == le_value(
            old(reader).unread().take(width as int),
        ) && final(reader).unread() == old(reader).unread().skip(width as int)
            && final(reader).allowance() == old(reader).allowance() - width
            && final(reader).beyond() == old(reader).beyond() && r->Ok_0 < radix(width as nat),
        width > old(reader).unread().len() ==> r == Err::<u64, DecodeError>(
            DecodeError::UnexpectedEof,
        ) && *final(reader) == *old(reader),
{
    let bytes = reader.read_exact(width)?;
    proof {
        lemma_le_value_bound(bytes@);
    }
    Ok(get_le(bytes))
}

} // verus!
