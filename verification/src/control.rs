//! What the receiver tells the sender: parts that arrived, files to drop,
//! priorities to set.

use crate::binary_serialize::{read_le, BinarySerialize};
use crate::encoding::{i16_of_twos, le_bytes, le_value, put_le, twos, twos_of_i16, untwos};
use crate::encoding::{lemma_le_bytes_len, lemma_le_value_of_bytes, lemma_radix_values, lemma_twos_roundtrip};
use crate::file_id::FileId;
use crate::file_part_id::FilePartIdRangeInclusive;
use crate::substream::{DecodeError, SubstreamReader};
use crate::validity::ValidityCheck;
use vstd::prelude::*;

verus! {

/// The parts of the range have arrived and may be released by the sender.
#[derive(Clone, Copy, Debug, PartialEq, Eq, Structural)]
pub struct ConfirmPart {
    pub file_id: FileId,
    pub part_range: FilePartIdRangeInclusive,
}

/// The file is abandoned: the sender drops all it holds of it.
#[derive(Clone, Copy, Debug, PartialEq, Eq, Structural)]
pub struct DeleteFile {
    pub file_id: FileId,
}

/// Every remaining part of the file gets this priority.
#[derive(Clone, Copy, Debug, PartialEq, Eq, Structural)]
pub struct SetFilePriority {
    pub file_id: FileId,
    pub priority: i16,
}

#[derive(Clone, Copy, Debug, PartialEq, Eq, Structural)]
pub enum ControlMessage {
    ConfirmPart(ConfirmPart),
    DeleteFile(DeleteFile),
    SetFilePriority(SetFilePriority),
}

impl ControlMessage {
    /// The file that the message is about.
    pub open spec fn about(self) -> FileId {
        match self {
            ControlMessage::ConfirmPart(m) => m.file_id,
            ControlMessage::DeleteFile(m) => m.file_id,
            ControlMessage::SetFilePriority(m) => m.file_id,
        }
    }

    /// The file that the message is about.
    pub fn file_id(&self) -> (id: FileId)
        ensures
            id == self.about(),
    {
        match self {
            ControlMessage::ConfirmPart(m) => m.file_id,
            ControlMessage::DeleteFile(m) => m.file_id,
            ControlMessage::SetFilePriority(m) => m.file_id,
        }
    }
}

impl View for ConfirmPart {
    type V = ConfirmPart;

    open spec fn view(&self) -> ConfirmPart {
        *self
    }
}

impl View for DeleteFile {
    type V = DeleteFile;

    open spec fn view(&self) -> DeleteFile {
        *self
    }
}

impl View for SetFilePriority {
    type V = SetFilePriority;

    open spec fn view(&self) -> SetFilePriority {
        *self
    }
}

impl ValidityCheck for ConfirmPart {
    open spec fn valid(&self) -> bool {
        self.part_range.valid()
    }

    fn is_valid(&self) -> (ok: bool) {
        self.part_range.is_valid()
    }
}

impl ValidityCheck for DeleteFile {
    open spec fn valid(&self) -> bool {
        true
    }

    fn is_valid(&self) -> (ok: bool) {
        true
    }
}

impl ValidityCheck for SetFilePriority {
    open spec fn valid(&self) -> bool {
        true
    }

    fn is_valid(&self) -> (ok: bool) {
        true
    }
}

impl ValidityCheck for ControlMessage {
    open spec fn valid(&self) -> bool {
        match self {
            ControlMessage::ConfirmPart(m) => m.valid(),
            ControlMessage::DeleteFile(m) => m.valid(),
            ControlMessage::SetFilePriority(m) => m.valid(),
        }
    }

    fn is_valid(&self) -> (ok: bool) {
        match self {
            ControlMessage::ConfirmPart(m) => m.is_valid(),
            ControlMessage::DeleteFile(m) => m.is_valid(),
            ControlMessage::SetFilePriority(m) => m.is_valid(),
        }
    }
}

impl DeleteFile {
    /// The bytes of the message on the wire.
    pub open spec fn encoded(self) -> Seq<u8> {
        self.file_id.wire()
    }

    /// What a reader makes of the front of `bytes` as this message.
    pub open spec fn decoded(bytes: Seq<u8>) -> Result<(DeleteFile, nat), DecodeError> {
        if bytes.len() < 16 {
            Err(DecodeError::UnexpectedEof)
        } else {
            Ok((DeleteFile { file_id: FileId::from_wire(bytes.take(16)) }, 16))
        }
    }
}

impl BinarySerialize for DeleteFile {
    open spec fn wire(v: DeleteFile) -> Seq<u8> {
        v.encoded()
    }

    open spec fn parse(bytes: Seq<u8>) -> Result<(DeleteFile, nat), DecodeError> {
        DeleteFile::decoded(bytes)
    }

    fn serialize_to_stream(&self, writer: &mut Vec<u8>) {
        self.file_id.serialize_to_stream(writer);
    }

    fn length_when_serialized(&self) -> (n: u32) {
        proof {
            self.file_id.lemma_wire_len();
        }
        16
    }

    fn deserialize_from_stream(reader: &mut SubstreamReader) -> (r: Result<Self, DecodeError>) {
        let file_id = FileId::deserialize_from_stream(reader)?;
        Ok(DeleteFile { file_id })
    }

    proof fn lemma_parse_inverse(bytes: Seq<u8>) {
        FileId::lemma_from_wire_roundtrip(bytes.take(16));
    }

    proof fn lemma_roundtrip(&self, rest: Seq<u8>) {
        self.file_id.lemma_wire_len();
        self.file_id.lemma_wire_roundtrip();
        assert((self.file_id.wire() + rest).take(16) =~= self.file_id.wire());
    }
}

impl ConfirmPart {
    /// The bytes of the message on the wire.
    pub open spec fn encoded(self) -> Seq<u8> {
        self.file_id.wire() + self.part_range.encoded()
    }

    /// What a reader makes of the front of `bytes` as this message.
    pub open spec fn decoded(bytes: Seq<u8>) -> Result<(ConfirmPart, nat), DecodeError> {
        if bytes.len() < 24 {
            Err(DecodeError::UnexpectedEof)
        } else {
            match FilePartIdRangeInclusive::from_wire(bytes.subrange(16, 24)) {
                Some(part_range) => Ok(
                    (ConfirmPart { file_id: FileId::from_wire(bytes.take(16)), part_range }, 24),
                ),
                None => Err(DecodeError::InvalidData),
            }
        }
    }
}

impl BinarySerialize for ConfirmPart {
    open spec fn wire(v: ConfirmPart) -> Seq<u8> {
        v.encoded()
    }

    open spec fn parse(bytes: Seq<u8>) -> Result<(ConfirmPart, nat), DecodeError> {
        ConfirmPart::decoded(bytes)
    }

    fn serialize_to_stream(&self, writer: &mut Vec<u8>) {
        let ghost start = writer@;
        self.file_id.serialize_to_stream(writer);
        self.part_range.serialize_to_stream(writer);
        assert(writer@ =~= start + Self::wire(*self));
    }

    fn length_when_serialized(&self) -> (n: u32) {
        proof {
            self.file_id.lemma_wire_len();
            self.part_range.lemma_wire_len();
        }
        16 + self.part_range.length_when_serialized()
    }

    fn deserialize_from_stream(reader: &mut SubstreamReader) -> (r: Result<Self, DecodeError>) {
        let ghost input = reader.unread();
        let file_id = FileId::deserialize_from_stream(reader)?;
        proof {
            if input.len() >= 24 {
                assert(input.skip(16).take(8) =~= input.subrange(16, 24));
            }
        }
        let part_range = FilePartIdRangeInclusive::deserialize_from_stream(reader)?;
        proof {
            assert(input.skip(16).skip(8) =~= input.skip(24));
        }
        Ok(ConfirmPart { file_id, part_range })
    }

    proof fn lemma_parse_inverse(bytes: Seq<u8>) {
        let id = bytes.take(16);
        let range = bytes.subrange(16, 24);
        FileId::lemma_from_wire_roundtrip(id);
        assert(range.take(8) =~= range);
        FilePartIdRangeInclusive::lemma_decoded_inverse(range);
        assert(id + range =~= bytes.take(24));
    }

    proof fn lemma_roundtrip(&self, rest: Seq<u8>) {
        self.file_id.lemma_wire_len();
        self.file_id.lemma_wire_roundtrip();
        self.part_range.lemma_wire_len();
        self.part_range.lemma_wire_roundtrip();
        let all = Self::wire(*self) + rest;
        assert(all.take(16) =~= self.file_id.wire());
        assert(all.subrange(16, 24) =~= self.part_range.encoded());
    }
}

impl SetFilePriority {
    pub open spec fn priority_bytes(self) -> Seq<u8> {
        le_bytes(twos(self.priority as int, 2), 2)
    }
}

impl SetFilePriority {
    /// The bytes of the message on the wire.
    pub open spec fn encoded(self) -> Seq<u8> {
        self.file_id.wire() + self.priority_bytes()
    }

    /// What a reader makes of the front of `bytes` as this message.
    pub open spec fn decoded(bytes: Seq<u8>) -> Result<(SetFilePriority, nat), DecodeError> {
        if bytes.len() < 18 {
            Err(DecodeError::UnexpectedEof)
        } else {
            Ok(
                (
                    SetFilePriority {
                        file_id: FileId::from_wire(bytes.take(16)),
                        priority: untwos(le_value(bytes.subrange(16, 18)), 2) as i16,
                    },
                    18,
                ),
            )
        }
    }
}

impl BinarySerialize for SetFilePriority {
    open spec fn wire(v: SetFilePriority) -> Seq<u8> {
        v.encoded()
    }

    open spec fn parse(bytes: Seq<u8>) -> Result<(SetFilePriority, nat), DecodeError> {
        SetFilePriority::decoded(bytes)
    }

    fn serialize_to_stream(&self, writer: &mut Vec<u8>) {
        let ghost start = writer@;
        self.file_id.serialize_to_stream(writer);
        put_le(writer, twos_of_i16(self.priority), 2);
        assert(writer@ =~= start + Self::wire(*self));
    }

    fn length_when_serialized(&self) -> (n: u32) {
        proof {
            self.file_id.lemma_wire_len();
            lemma_le_bytes_len(twos(self.priority as int, 2), 2);
        }
        16 + 2
    }

    fn deserialize_from_stream(reader: &mut SubstreamReader) -> (r: Result<Self, DecodeError>) {
        let ghost input = reader.unread();
        let file_id = FileId::deserialize_from_stream(reader)?;
        proof {
            if input.len() >= 18 {
                assert(input.skip(16).take(2) =~= input.subrange(16, 18));
            }
            lemma_radix_values();
        }
        let raw = read_le(reader, 2)?;
        proof {
            assert(input.skip(16).skip(2) =~= input.skip(18));
        }
        Ok(SetFilePriority { file_id, priority: i16_of_twos(raw) })
    }

    proof fn lemma_parse_inverse(bytes: Seq<u8>) {
        lemma_radix_values();
        let id = bytes.take(16);
        let raw = bytes.subrange(16, 18);
        FileId::lemma_from_wire_roundtrip(id);
        crate::encoding::lemma_le_value_bound(raw);
        crate::encoding::lemma_le_bytes_of_value(raw);
        crate::encoding::lemma_untwos_roundtrip(le_value(raw), 2);
        assert(id + raw =~= bytes.take(18));
    }

    proof fn lemma_roundtrip(&self, rest: Seq<u8>) {
        lemma_radix_values();
        self.file_id.lemma_wire_len();
        self.file_id.lemma_wire_roundtrip();
        let raw = twos(self.priority as int, 2);
        lemma_twos_roundtrip(self.priority as int, 2);
        lemma_le_bytes_len(raw, 2);
        lemma_le_value_of_bytes(raw, 2);
        let all = Self::wire(*self) + rest;
        assert(all.take(16) =~= self.file_id.wire());
        assert(all.subrange(16, 18) =~= le_bytes(raw, 2));
    }
}

} // verus!
