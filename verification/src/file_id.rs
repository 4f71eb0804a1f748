//! The 128-bit identifier that a file keeps across the whole pipeline.

use crate::encoding::{be_bytes, be_value, get_be, put_be};
use crate::encoding::{lemma_be_bytes_of_value, lemma_be_value_of_bytes, lemma_le_value_bound, lemma_radix_values};
use crate::substream::{DecodeError, SubstreamReader};
use vstd::prelude::*;

verus! {

/// A universally unique file identifier, held as the 128-bit number that its
/// sixteen bytes spell, most significant byte first.
#[derive(Clone, Copy, Debug, PartialEq, Eq, Hash, Structural)]
pub struct FileId {
    pub raw: u128,
}

/// The text form of an identifier: what `uuid` prints for the UUID with
/// these 128 bits.
pub uninterp spec fn uuid_text(raw: u128) -> Seq<char>;

/// Whether the 128 bits are those of a random UUID: the version is 4 and
/// the variant is the one of RFC 4122. The other 122 bits are free.
pub open spec fn version_four(raw: u128) -> bool {
    ((raw >> 76) & 0xF) == 4 && ((raw >> 62) & 0x3) == 2
}

/// `uuid::Uuid::new_v4`: a fresh random identifier. It masks the version
/// and the variant into the bits that it draws, so these are promised; of
/// the bits drawn nothing is.
#[verifier::external_body]
fn uuid_new_v4() -> (id: FileId)
    ensures
        version_four(id.raw),
{
    FileId { raw: uuid::Uuid::new_v4().as_u128() }
}

/// `uuid::Uuid`'s `Display`, through `to_string`: the lower-case hyphenated
/// text of the UUID with these bits. The contract only names the text.
#[verifier::external_body]
fn uuid_to_string(raw: u128) -> (text: String)
    ensures
        text@ == uuid_text(raw),
{
    uuid::Uuid::from_u128(raw).to_string()
}

pub open spec fn high_half(raw: u128) -> nat {
    (raw as nat) / 0x1_0000_0000_0000_0000
}

pub open spec fn low_half(raw: u128) -> nat {
    (raw as nat) % 0x1_0000_0000_0000_0000
}

impl FileId {
    /// The sixteen bytes of the identifier on the wire.
    pub open spec fn wire(self) -> Seq<u8> {
        be_bytes(high_half(self.raw), 8) + be_bytes(low_half(self.raw), 8)
    }

    /// The identifier that sixteen bytes spell.
    pub open spec fn from_wire(bytes: Seq<u8>) -> FileId {
        FileId {
            raw: (be_value(bytes.take(8)) * 0x1_0000_0000_0000_0000 + be_value(
                bytes.skip(8),
            )) as u128,
        }
    }

    /// The identifier with all bits zero.
    pub fn nil() -> (id: Self)
        ensures
            id.raw == 0,
    {
        FileId { raw: 0 }
    }

    /// A fresh identifier, drawn at random: a UUID of version 4.
    pub fn random() -> (id: Self)
        ensures
            version_four(id.raw),
    {
        uuid_new_v4()
    }

    /// The name of the directory that holds this file's parts.
    pub fn to_string(&self) -> (name: String)
        ensures
            name@ == uuid_text(self.raw),
    {
        uuid_to_string(self.raw)
    }

    pub proof fn lemma_wire_len(self)
        ensures
            self.wire().len() == 16,
    {
        lemma_radix_values();
        lemma_be_value_of_bytes(high_half(self.raw), 8);
        lemma_be_value_of_bytes(low_half(self.raw), 8);
    }

    /// Sixteen bytes spell exactly one identifier, and it spells them back.
    pub proof fn lemma_wire_roundtrip(self)
        ensures
            Self::from_wire(self.wire()) == self,
    {
        lemma_radix_values();
        let hi = be_bytes(high_half(self.raw), 8);
        let lo = be_bytes(low_half(self.raw), 8);
        lemma_be_value_of_bytes(high_half(self.raw), 8);
        lemma_be_value_of_bytes(low_half(self.raw), 8);
        assert(self.wire().take(8) =~= hi);
        assert(self.wire().skip(8) =~= lo);
    }

    pub proof fn lemma_from_wire_roundtrip(bytes: Seq<u8>)
        requires
            bytes.len() == 16,
        ensures
            Self::from_wire(bytes).wire() == bytes,
    {
        lemma_radix_values();
        let hi = bytes.take(8);
        let lo = bytes.skip(8);
        lemma_le_value_bound(hi.reverse());
        lemma_le_value_bound(lo.reverse());
        lemma_be_bytes_of_value(hi);
        lemma_be_bytes_of_value(lo);
        let raw = Self::from_wire(bytes).raw;
        assert(high_half(raw) == be_value(hi));
        assert(low_half(raw) == be_value(lo));
        assert(hi + lo =~= bytes);
    }

    /// Appends the sixteen bytes of the identifier.
    pub fn serialize_to_stream(&self, writer: &mut Vec<u8>)
        ensures
            final(writer)@ == old(writer)@ + self.wire(),
    {
        let hi: u64 = (self.raw / 0x1_0000_0000_0000_0000u128) as u64;
        let lo: u64 = (self.raw % 0x1_0000_0000_0000_0000u128) as u64;
        let ghost start = writer@;
        put_be(writer, hi, 8);
        put_be(writer, lo, 8);
        assert(writer@ =~= start + self.wire());
    }

    /// Reads sixteen bytes as an identifier.
    pub fn deserialize_from_stream(reader: &mut SubstreamReader) -> (r: Result<Self, DecodeError>)
        ensures
            old(reader).unread().len() >= 16 ==> r == Ok::<FileId, DecodeError>(
                Self::from_wire(old(reader).unread().take(16)),
            ) && final(reader).unread() == old(reader).unread().skip(16)
                && final(reader).allowance() == old(reader).allowance() - 16
                && final(reader).beyond() == old(reader).beyond(),
            old(reader).unread().len() < 16 ==> r == Err::<FileId, DecodeError>(
                DecodeError::UnexpectedEof,
            ) && *final(reader) == *old(reader),
    {
        let bytes = match reader.read_exact(16) {
            Ok(bytes) => bytes,
            Err(e) => {
                return Err(e);
            },
        };
        let hi = get_be(vstd::slice::slice_subrange(bytes, 0, 8));
        let lo = get_be(vstd::slice::slice_subrange(bytes, 8, 16));
        proof {
            assert(bytes@.subrange(0, 8) =~= bytes@.take(8));
            assert(bytes@.subrange(8, 16) =~= bytes@.skip(8));
        }
        let raw: u128 = (hi as u128) * 0x1_0000_0000_0000_0000u128 + (lo as u128);
        Ok(FileId { raw })
    }
}

} // verus!
