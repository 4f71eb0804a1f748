//! How a managed file keeps its data on disk.

use crate::binary_serialize::BinarySerialize;
use crate::substream::{DecodeError, SubstreamReader};
use crate::validity::ValidityCheck;
use vstd::prelude::*;

verus! {

/// The two layouts of a managed file's data.
#[derive(Clone, Copy, Debug, PartialEq, Eq, Structural)]
pub enum ManagedFileMode {
    /// All parts in one file, each at its offset.
    Contiguous,
    /// One file for each part that remains.
    Split,
}

impl View for ManagedFileMode {
    type V = ManagedFileMode;

    open spec fn view(&self) -> ManagedFileMode {
        *self
    }
}

impl ManagedFileMode {
    /// The byte that stands for the mode on disk.
    pub open spec fn byte(self) -> u8 {
        match self {
            ManagedFileMode::Contiguous => 0,
            ManagedFileMode::Split => 1,
        }
    }

    /// The mode that a byte stands for.
    pub open spec fn of_byte(byte: u8) -> Option<ManagedFileMode> {
        if byte == 0 {
            Some(ManagedFileMode::Contiguous)
        } else if byte == 1 {
            Some(ManagedFileMode::Split)
        } else {
            None
        }
    }

    /// The one byte of the mode file.
    pub open spec fn encoded(self) -> Seq<u8> {
        seq![self.byte()]
    }

    /// What a reader makes of the front of `bytes` as a mode.
    pub open spec fn decoded(bytes: Seq<u8>) -> Result<(ManagedFileMode, nat), DecodeError> {
        if bytes.len() < 1 {
            Err(DecodeError::UnexpectedEof)
        } else {
            match Self::of_byte(bytes[0]) {
                Some(mode) => Ok((mode, 1)),
                None => Err(DecodeError::InvalidData),
            }
        }
    }

    pub fn to_u8(&self) -> (byte: u8)
        ensures
            byte == self.byte(),
            byte == 0 || byte == 1,
    {
        match self {
            ManagedFileMode::Contiguous => 0,
            ManagedFileMode::Split => 1,
        }
    }

    pub fn from_u8(byte: u8) -> (mode: Option<Self>)
        ensures
            mode == Self::of_byte(byte),
    {
        if byte == 0 {
            Some(ManagedFileMode::Contiguous)
        } else if byte == 1 {
            Some(ManagedFileMode::Split)
        } else {
            None
        }
    }
}

impl ValidityCheck for ManagedFileMode {
    open spec fn valid(&self) -> bool {
        true
    }

    fn is_valid(&self) -> (ok: bool) {
        true
    }
}

impl BinarySerialize for ManagedFileMode {
    open spec fn wire(v: ManagedFileMode) -> Seq<u8> {
        v.encoded()
    }

    open spec fn parse(bytes: Seq<u8>) -> Result<(ManagedFileMode, nat), DecodeError> {
        ManagedFileMode::decoded(bytes)
    }

    fn serialize_to_stream(&self, writer: &mut Vec<u8>) {
        let ghost start = writer@;
        writer.push(self.to_u8());
        assert(writer@ =~= start + self.encoded());
    }

    fn length_when_serialized(&self) -> (n: u32) {
        1
    }

    /// Refuses a byte that is neither 0 nor 1.
    fn deserialize_from_stream(reader: &mut SubstreamReader) -> (r: Result<Self, DecodeError>) {
        let bytes = reader.read_exact(1)?;
        match Self::from_u8(bytes[0]) {
            Some(mode) => Ok(mode),
            None => Err(DecodeError::InvalidData),
        }
    }

    proof fn lemma_parse_inverse(bytes: Seq<u8>) {
        assert(bytes.take(1) =~= seq![bytes[0]]);
    }

    proof fn lemma_roundtrip(&self, rest: Seq<u8>) {
    }
}

} // verus!
