//! Transport packets: a typed message framed for a stream that may garble it.
//!
//! On the wire a packet is the signature `LFTP`, one byte that tells the type
//! of the message, the length of the payload in four bytes, the payload
//! itself, scrambled, and the checksum of the plain payload in eight bytes.

pub mod checkpoint_stream;
pub mod hashing;
pub mod scrambling;
pub mod tolerant_parser;

use crate::binary_serialize::{read_le, BinarySerialize};
use crate::chunks::{Chunk, ChunkView, DataChunk, DataChunkView, HeaderChunk, HeaderChunkView};
use crate::control::{ConfirmPart, ControlMessage, DeleteFile, SetFilePriority};
use crate::encoding::{le_bytes, le_value, put_le};
use crate::encoding::{lemma_le_bytes_len, lemma_le_value_of_bytes, lemma_radix_values};
use crate::substream::{DecodeError, SubstreamReader};
use crate::transport_packet::hashing::{checksum, checksum_of};
use crate::transport_packet::scrambling::{scramble, unscramble, ScramblingWriter, UnscramblingReader};
use crate::transport_packet::scrambling::{lemma_scramble_len, lemma_unscramble_len, lemma_unscramble_scramble};
use crate::validity::ValidityCheck;
use vstd::prelude::*;

verus! {

/// The type bytes of the five messages.
pub const TAG_HEADER_CHUNK: u8 = 0;

pub const TAG_DATA_CHUNK: u8 = 1;

pub const TAG_CONFIRM_PART: u8 = 128;

pub const TAG_DELETE_FILE: u8 = 129;

pub const TAG_SET_FILE_PRIORITY: u8 = 130;

/// The longest payload that a packet may carry: 8 MiB.
pub const MAX_DATA_LEN: usize = 8388608;

/// The four bytes `LFTP` that open every packet.
pub open spec fn signature() -> Seq<u8> {
    seq![0x4Cu8, 0x46u8, 0x54u8, 0x50u8]
}

/// A message that a transport packet can carry.
#[derive(Debug, PartialEq, Eq)]
pub enum TransportPacketData {
    HeaderChunk(HeaderChunk),
    DataChunk(DataChunk),
    AcknowledgementPacket(ConfirmPart),
    DeleteFile(DeleteFile),
    SetFilePriority(SetFilePriority),
}

pub enum TransportPacketDataView {
    HeaderChunk(HeaderChunkView),
    DataChunk(DataChunkView),
    AcknowledgementPacket(ConfirmPart),
    DeleteFile(DeleteFile),
    SetFilePriority(SetFilePriority),
}

impl View for TransportPacketData {
    type V = TransportPacketDataView;

    open spec fn view(&self) -> TransportPacketDataView {
        match self {
            TransportPacketData::HeaderChunk(m) => TransportPacketDataView::HeaderChunk(m@),
            TransportPacketData::DataChunk(m) => TransportPacketDataView::DataChunk(m@),
            TransportPacketData::AcknowledgementPacket(m) => {
                TransportPacketDataView::AcknowledgementPacket(*m)
            },
            TransportPacketData::DeleteFile(m) => TransportPacketDataView::DeleteFile(*m),
            TransportPacketData::SetFilePriority(m) => TransportPacketDataView::SetFilePriority(*m),
        }
    }
}

impl Clone for TransportPacketData {
    fn clone(&self) -> (copy: Self)
        ensures
            copy@ == self@,
    {
        match self {
            TransportPacketData::HeaderChunk(m) => TransportPacketData::HeaderChunk(m.clone()),
            TransportPacketData::DataChunk(m) => TransportPacketData::DataChunk(m.clone()),
            TransportPacketData::AcknowledgementPacket(m) => {
                TransportPacketData::AcknowledgementPacket(*m)
            },
            TransportPacketData::DeleteFile(m) => TransportPacketData::DeleteFile(*m),
            TransportPacketData::SetFilePriority(m) => TransportPacketData::SetFilePriority(*m),
        }
    }
}

impl TransportPacketDataView {
    /// The byte that tells the type of the message.
    pub open spec fn tag(self) -> u8 {
        match self {
            TransportPacketDataView::HeaderChunk(_) => TAG_HEADER_CHUNK,
            TransportPacketDataView::DataChunk(_) => TAG_DATA_CHUNK,
            TransportPacketDataView::AcknowledgementPacket(_) => TAG_CONFIRM_PART,
            TransportPacketDataView::DeleteFile(_) => TAG_DELETE_FILE,
            TransportPacketDataView::SetFilePriority(_) => TAG_SET_FILE_PRIORITY,
        }
    }

    /// The payload: the bytes of the message itself.
    pub open spec fn body(self) -> Seq<u8> {
        match self {
            TransportPacketDataView::HeaderChunk(m) => m.encoded(),
            TransportPacketDataView::DataChunk(m) => m.encoded(),
            TransportPacketDataView::AcknowledgementPacket(m) => m.encoded(),
            TransportPacketDataView::DeleteFile(m) => m.encoded(),
            TransportPacketDataView::SetFilePriority(m) => m.encoded(),
        }
    }

    /// What a reader makes of the front of `bytes` as a message of the type
    /// that `tag` tells.
    #[verifier::opaque]
    pub open spec fn parse_body(tag: u8, bytes: Seq<u8>) -> Result<
        (TransportPacketDataView, nat),
        DecodeError,
    > {
        if tag == TAG_HEADER_CHUNK {
            match HeaderChunkView::decoded(bytes) {
                Ok((m, n)) => Ok((TransportPacketDataView::HeaderChunk(m), n)),
                Err(e) => Err(e),
            }
        } else if tag == TAG_DATA_CHUNK {
            match DataChunkView::decoded(bytes) {
                Ok((m, n)) => Ok((TransportPacketDataView::DataChunk(m), n)),
                Err(e) => Err(e),
            }
        } else if tag == TAG_CONFIRM_PART {
            match ConfirmPart::decoded(bytes) {
                Ok((m, n)) => Ok((TransportPacketDataView::AcknowledgementPacket(m), n)),
                Err(e) => Err(e),
            }
        } else if tag == TAG_DELETE_FILE {
            match DeleteFile::decoded(bytes) {
                Ok((m, n)) => Ok((TransportPacketDataView::DeleteFile(m), n)),
                Err(e) => Err(e),
            }
        } else if tag == TAG_SET_FILE_PRIORITY {
            match SetFilePriority::decoded(bytes) {
                Ok((m, n)) => Ok((TransportPacketDataView::SetFilePriority(m), n)),
                Err(e) => Err(e),
            }
        } else {
            Err(DecodeError::InvalidData)
        }
    }

    /// What a reader makes of the front of `bytes` as a type byte and the
    /// message that it announces.
    pub open spec fn decoded(bytes: Seq<u8>) -> Result<(TransportPacketDataView, nat), DecodeError> {
        if bytes.len() < 1 {
            Err(DecodeError::UnexpectedEof)
        } else {
            match Self::parse_body(bytes[0], bytes.skip(1)) {
                Ok((v, n)) => Ok((v, n + 1)),
                Err(e) => Err(e),
            }
        }
    }

    /// The data stream's view of the message: the chunk, if it is one.
    pub open spec fn as_chunk(self) -> Option<ChunkView> {
        match self {
            TransportPacketDataView::HeaderChunk(m) => Some(ChunkView::Header(m)),
            TransportPacketDataView::DataChunk(m) => Some(ChunkView::Data(m)),
            _ => None,
        }
    }

    /// The control stream's view of the message: the control message, if it
    /// is one.
    pub open spec fn as_control_message(self) -> Option<ControlMessage> {
        match self {
            TransportPacketDataView::AcknowledgementPacket(m) => Some(
                ControlMessage::ConfirmPart(m),
            ),
            TransportPacketDataView::DeleteFile(m) => Some(ControlMessage::DeleteFile(m)),
            TransportPacketDataView::SetFilePriority(m) => Some(
                ControlMessage::SetFilePriority(m),
            ),
            _ => None,
        }
    }

    /// The whole packet on the wire, after the signature.
    pub open spec fn frame(self) -> Seq<u8> {
        seq![self.tag()] + le_bytes(self.body().len(), 4) + scramble(self.body()) + le_bytes(
            checksum(self.body()) as nat,
            8,
        )
    }
}

/// What a frame holds: of the scrambled payload and the checksum that came
/// with it, the message of the type that `tag` tells. The checksum must be
/// that of the plain payload, and the message must take up all of it.
pub open spec fn open_frame(tag: u8, scrambled: Seq<u8>, sum: u64) -> Result<
    TransportPacketDataView,
    DecodeError,
> {
    let payload = unscramble(scrambled);
    if checksum(payload) != sum {
        Err(DecodeError::InvalidData)
    } else {
        match TransportPacketDataView::parse_body(tag, payload) {
            Ok((v, n)) => if n == payload.len() {
                Ok(v)
            } else {
                Err(DecodeError::InvalidData)
            },
            Err(_) => Err(DecodeError::InvalidData),
        }
    }
}

/// What a reader makes of the front of `bytes` as a packet without its
/// signature: the message and the length of the frame. It fails with
/// `UnexpectedEof` where the frame is cut short, with `InvalidData` where the
/// frame is all there and wrong.
#[verifier::opaque]
pub open spec fn parse_frame(bytes: Seq<u8>) -> Result<(TransportPacketDataView, nat), DecodeError> {
    if bytes.len() < 5 {
        Err(DecodeError::UnexpectedEof)
    } else {
        let len = le_value(bytes.subrange(1, 5)) as int;
        if len > MAX_DATA_LEN {
            Err(DecodeError::InvalidData)
        } else if bytes.len() < 5 + len + 8 {
            Err(DecodeError::UnexpectedEof)
        } else {
            match open_frame(
                bytes[0],
                bytes.subrange(5, 5 + len),
                le_value(bytes.subrange(5 + len, 13 + len)) as u64,
            ) {
                Ok(v) => Ok((v, (13 + len) as nat)),
                Err(e) => Err(e),
            }
        }
    }
}

impl TransportPacketData {
    pub fn as_chunk(self) -> (chunk: Option<Chunk>)
        ensures
            chunk is Some == self@.as_chunk() is Some,
            chunk is Some ==> chunk->Some_0@ == self@.as_chunk()->Some_0,
    {
        match self {
            TransportPacketData::HeaderChunk(header_chunk) => Some(Chunk::Header(header_chunk)),
            TransportPacketData::DataChunk(data_chunk) => Some(Chunk::Data(data_chunk)),
            _ => None,
        }
    }

    pub fn as_control_message(self) -> (message: Option<ControlMessage>)
        ensures
            message == self@.as_control_message(),
    {
        match self {
            TransportPacketData::AcknowledgementPacket(ack) => Some(
                ControlMessage::ConfirmPart(ack),
            ),
            TransportPacketData::DeleteFile(delete_file) => Some(
                ControlMessage::DeleteFile(delete_file),
            ),
            TransportPacketData::SetFilePriority(set_priority) => Some(
                ControlMessage::SetFilePriority(set_priority),
            ),
            _ => None,
        }
    }

    pub fn from_chunk(chunk: Chunk) -> (data: Self)
        ensures
            data@.as_chunk() == Some(chunk@),
    {
        match chunk {
            Chunk::Header(header_chunk) => TransportPacketData::HeaderChunk(header_chunk),
            Chunk::Data(data_chunk) => TransportPacketData::DataChunk(data_chunk),
        }
    }

    pub fn from_control_message(control_message: ControlMessage) -> (data: Self)
        ensures
            data@.as_control_message() == Some(control_message),
    {
        match control_message {
            ControlMessage::ConfirmPart(ack) => TransportPacketData::AcknowledgementPacket(ack),
            ControlMessage::DeleteFile(delete_file) => TransportPacketData::DeleteFile(
                delete_file,
            ),
            ControlMessage::SetFilePriority(set_priority) => TransportPacketData::SetFilePriority(
                set_priority,
            ),
        }
    }

    /// The byte that tells the type of the message.
    pub fn tag(&self) -> (tag: u8)
        ensures
            tag == self@.tag(),
    {
        match self {
            TransportPacketData::HeaderChunk(_) => TAG_HEADER_CHUNK,
            TransportPacketData::DataChunk(_) => TAG_DATA_CHUNK,
            TransportPacketData::AcknowledgementPacket(_) => TAG_CONFIRM_PART,
            TransportPacketData::DeleteFile(_) => TAG_DELETE_FILE,
            TransportPacketData::SetFilePriority(_) => TAG_SET_FILE_PRIORITY,
        }
    }

    /// Appends the bytes of the message itself, without the type byte.
    pub fn serialize_body(&self, writer: &mut Vec<u8>)
        requires
            self.valid(),
        ensures
            final(writer)@ == old(writer)@ + self@.body(),
    {
        match self {
            TransportPacketData::HeaderChunk(m) => m.serialize_to_stream(writer),
            TransportPacketData::DataChunk(m) => m.serialize_to_stream(writer),
            TransportPacketData::AcknowledgementPacket(m) => m.serialize_to_stream(writer),
            TransportPacketData::DeleteFile(m) => m.serialize_to_stream(writer),
            TransportPacketData::SetFilePriority(m) => m.serialize_to_stream(writer),
        }
    }

    /// The number of bytes of the message itself.
    pub fn body_length(&self) -> (n: u32)
        requires
            self.valid(),
        ensures
            n == self@.body().len(),
            n <= MAX_DATA_LEN,
    {
        let n = match self {
            TransportPacketData::HeaderChunk(m) => m.length_when_serialized(),
            TransportPacketData::DataChunk(m) => m.length_when_serialized(),
            TransportPacketData::AcknowledgementPacket(m) => m.length_when_serialized(),
            TransportPacketData::DeleteFile(m) => m.length_when_serialized(),
            TransportPacketData::SetFilePriority(m) => m.length_when_serialized(),
        };
        proof {
            self.lemma_body_fits();
        }
        n
    }

    /// Reads a message of the type that `tag` tells.
    pub fn deserialize_body(tag: u8, reader: &mut SubstreamReader) -> (r: Result<Self, DecodeError>)
        ensures
            match TransportPacketDataView::parse_body(tag, old(reader).unread()) {
                Ok((v, n)) => r is Ok && r->Ok_0@ == v && n <= old(reader).unread().len()
                    && final(reader).unread() == old(reader).unread().skip(n as int)
                    && final(reader).allowance() == old(reader).allowance() - n
                    && final(reader).beyond() == old(reader).beyond(),
                Err(e) => r is Err && r->Err_0 == e,
            },
    {
        proof {
            reveal(TransportPacketDataView::parse_body);
        }
        if tag == TAG_HEADER_CHUNK {
            Ok(TransportPacketData::HeaderChunk(HeaderChunk::deserialize_from_stream(reader)?))
        } else if tag == TAG_DATA_CHUNK {
            Ok(TransportPacketData::DataChunk(DataChunk::deserialize_from_stream(reader)?))
        } else if tag == TAG_CONFIRM_PART {
            Ok(
                TransportPacketData::AcknowledgementPacket(
                    ConfirmPart::deserialize_from_stream(reader)?,
                ),
            )
        } else if tag == TAG_DELETE_FILE {
            Ok(TransportPacketData::DeleteFile(DeleteFile::deserialize_from_stream(reader)?))
        } else if tag == TAG_SET_FILE_PRIORITY {
            Ok(
                TransportPacketData::SetFilePriority(
                    SetFilePriority::deserialize_from_stream(reader)?,
                ),
            )
        } else {
            Err(DecodeError::InvalidData)
        }
    }

    /// The payload of a valid message is well under the limit of a packet.
    pub proof fn lemma_body_fits(&self)
        requires
            self.valid(),
        ensures
            self@.body().len() <= MAX_DATA_LEN,
    {
        match self {
            TransportPacketData::HeaderChunk(m) => {
                let v = m@;
                v.id.lemma_wire_len();
                lemma_le_bytes_len(vstd::utf8::encode_utf8(v.name).len(), 2);
                lemma_le_bytes_len(crate::encoding::twos(v.date as int, 8), 8);
                lemma_le_bytes_len(v.part_count as nat, 4);
                lemma_le_bytes_len(v.size as nat, 8);
                lemma_le_bytes_len(v.file_part_size as nat, 4);
            },
            TransportPacketData::DataChunk(m) => {
                let v = m@;
                v.file_id.lemma_wire_len();
                lemma_le_bytes_len(v.part as nat, 4);
                lemma_le_bytes_len(v.data.len(), 4);
            },
            TransportPacketData::AcknowledgementPacket(m) => {
                m.file_id.lemma_wire_len();
                m.part_range.lemma_wire_len();
            },
            TransportPacketData::DeleteFile(m) => {
                m.file_id.lemma_wire_len();
            },
            TransportPacketData::SetFilePriority(m) => {
                m.file_id.lemma_wire_len();
                lemma_le_bytes_len(crate::encoding::twos(m.priority as int, 2), 2);
            },
        }
    }

    /// A valid message reads back from its payload under its type byte.
    pub proof fn lemma_body_roundtrip(&self, rest: Seq<u8>)
        requires
            self.valid(),
        ensures
            TransportPacketDataView::parse_body(self@.tag(), self@.body() + rest) == Ok::<
                (TransportPacketDataView, nat),
                DecodeError,
            >((self@, self@.body().len())),
    {
        reveal(TransportPacketDataView::parse_body);
        match self {
            TransportPacketData::HeaderChunk(m) => m.lemma_roundtrip(rest),
            TransportPacketData::DataChunk(m) => m.lemma_roundtrip(rest),
            TransportPacketData::AcknowledgementPacket(m) => m.lemma_roundtrip(rest),
            TransportPacketData::DeleteFile(m) => m.lemma_roundtrip(rest),
            TransportPacketData::SetFilePriority(m) => m.lemma_roundtrip(rest),
        }
    }

    /// The frame of a valid message opens to the message, whatever follows
    /// it, and takes up exactly its own bytes.
    pub proof fn lemma_frame_roundtrip(&self, rest: Seq<u8>)
        requires
            self.valid(),
        ensures
            parse_frame(self@.frame() + rest) == Ok::<(TransportPacketDataView, nat), DecodeError>(
                (self@, self@.frame().len()),
            ),
            self@.frame().len() == 13 + self@.body().len(),
    {
        reveal(parse_frame);
        lemma_radix_values();
        let v = self@;
        let body = v.body();
        let len = body.len() as int;
        let sum = checksum(body);
        self.lemma_body_fits();
        lemma_le_bytes_len(body.len(), 4);
        lemma_le_value_of_bytes(body.len(), 4);
        lemma_le_bytes_len(sum as nat, 8);
        lemma_le_value_of_bytes(sum as nat, 8);
        lemma_scramble_len(0, body);
        lemma_unscramble_scramble(0, body);
        self.lemma_body_roundtrip(Seq::empty());
        assert(body + Seq::<u8>::empty() =~= body);
        let all = v.frame() + rest;
        assert(all[0] == v.tag());
        assert(all.subrange(1, 5) =~= le_bytes(body.len(), 4));
        assert(all.subrange(5, 5 + len) =~= scramble(body));
        assert(all.subrange(5 + len, 13 + len) =~= le_bytes(sum as nat, 8));
    }
}

impl ValidityCheck for TransportPacketData {
    open spec fn valid(&self) -> bool {
        match self {
            TransportPacketData::HeaderChunk(m) => m.valid(),
            TransportPacketData::DataChunk(m) => m.valid(),
            TransportPacketData::AcknowledgementPacket(m) => m.valid(),
            TransportPacketData::DeleteFile(m) => m.valid(),
            TransportPacketData::SetFilePriority(m) => m.valid(),
        }
    }

    fn is_valid(&self) -> (ok: bool) {
        match self {
            TransportPacketData::HeaderChunk(m) => m.is_valid(),
            TransportPacketData::DataChunk(m) => m.is_valid(),
            TransportPacketData::AcknowledgementPacket(m) => m.is_valid(),
            TransportPacketData::DeleteFile(m) => m.is_valid(),
            TransportPacketData::SetFilePriority(m) => m.is_valid(),
        }
    }
}

impl BinarySerialize for TransportPacketData {
    /// The type byte, then the message.
    open spec fn wire(v: TransportPacketDataView) -> Seq<u8> {
        seq![v.tag()] + v.body()
    }

    open spec fn parse(bytes: Seq<u8>) -> Result<(TransportPacketDataView, nat), DecodeError> {
        TransportPacketDataView::decoded(bytes)
    }

    fn serialize_to_stream(&self, writer: &mut Vec<u8>) {
        let ghost start = writer@;
        writer.push(self.tag());
        self.serialize_body(writer);
        assert(writer@ =~= start + Self::wire(self@));
    }

    fn length_when_serialized(&self) -> (n: u32) {
        1 + self.body_length()
    }

    fn deserialize_from_stream(reader: &mut SubstreamReader) -> (r: Result<Self, DecodeError>) {
        let ghost input = reader.unread();
        let type_buf = reader.read_exact(1)?;
        let data = Self::deserialize_body(type_buf[0], reader)?;
        proof {
            let n = TransportPacketDataView::parse_body(input[0], input.skip(1))->Ok_0.1;
            assert(input.skip(1).skip(n as int) =~= input.skip((n + 1) as int));
        }
        Ok(data)
    }

    proof fn lemma_parse_inverse(bytes: Seq<u8>) {
        let rest = bytes.skip(1);
        lemma_parse_body_inverse(bytes[0], rest);
        let n = TransportPacketDataView::parse_body(bytes[0], rest)->Ok_0.1 as int;
        assert(seq![bytes[0]] + rest.take(n) =~= bytes.take(n + 1));
    }

    proof fn lemma_roundtrip(&self, rest: Seq<u8>) {
        self.lemma_body_roundtrip(rest);
        let all = Self::wire(self@) + rest;
        assert(all.skip(1) =~= self@.body() + rest);
    }
}

/// The bytes that a message was read from are the bytes of the message, and
/// the message is of the type that the type byte tells.
pub proof fn lemma_parse_body_inverse(tag: u8, bytes: Seq<u8>)
    requires
        TransportPacketDataView::parse_body(tag, bytes) is Ok,
    ensures
        TransportPacketDataView::parse_body(tag, bytes)->Ok_0.1 <= bytes.len(),
        TransportPacketDataView::parse_body(tag, bytes)->Ok_0.0.tag() == tag,
        TransportPacketDataView::parse_body(tag, bytes)->Ok_0.0.body() == bytes.take(
            TransportPacketDataView::parse_body(tag, bytes)->Ok_0.1 as int,
        ),
{
    reveal(TransportPacketDataView::parse_body);
    if tag == TAG_HEADER_CHUNK {
        HeaderChunkView::lemma_decoded_inverse(bytes);
    } else if tag == TAG_DATA_CHUNK {
        DataChunkView::lemma_decoded_inverse(bytes);
    } else if tag == TAG_CONFIRM_PART {
        ConfirmPart::lemma_parse_inverse(bytes);
    } else if tag == TAG_DELETE_FILE {
        DeleteFile::lemma_parse_inverse(bytes);
    } else if tag == TAG_SET_FILE_PRIORITY {
        SetFilePriority::lemma_parse_inverse(bytes);
    }
}

/// The bytes that a frame was read from are the frame of the message that
/// it gave.
pub proof fn lemma_parse_frame_inverse(bytes: Seq<u8>)
    requires
        parse_frame(bytes) is Ok,
    ensures
        parse_frame(bytes)->Ok_0.1 <= bytes.len(),
        parse_frame(bytes)->Ok_0.0.frame() == bytes.take(parse_frame(bytes)->Ok_0.1 as int),
{
    reveal(parse_frame);
    lemma_radix_values();
    let len_bytes = bytes.subrange(1, 5);
    let len = le_value(len_bytes) as int;
    let scrambled = bytes.subrange(5, 5 + len);
    let sum_bytes = bytes.subrange(5 + len, 13 + len);
    let payload = unscramble(scrambled);
    lemma_parse_body_inverse(bytes[0], payload);
    lemma_unscramble_len(0, scrambled);
    crate::transport_packet::scrambling::lemma_scramble_unscramble(0, scrambled);
    crate::encoding::lemma_le_value_bound(len_bytes);
    crate::encoding::lemma_le_value_bound(sum_bytes);
    crate::encoding::lemma_le_bytes_of_value(len_bytes);
    crate::encoding::lemma_le_bytes_of_value(sum_bytes);
    let v = parse_frame(bytes)->Ok_0.0;
    assert(payload.take(payload.len() as int) =~= payload);
    assert(v.body() == payload);
    assert(seq![bytes[0]] + len_bytes + scrambled + sum_bytes =~= bytes.take(13 + len));
}

/// The bytes that a packet was read from are the packet of the message
/// that it gave.
pub proof fn lemma_parse_packet_inverse(bytes: Seq<u8>)
    requires
        parse_packet(bytes) is Ok,
    ensures
        parse_packet(bytes)->Ok_0.1 <= bytes.len(),
        packet_wire(parse_packet(bytes)->Ok_0.0) == bytes.take(parse_packet(bytes)->Ok_0.1 as int),
{
    let rest = bytes.skip(4);
    lemma_parse_frame_inverse(rest);
    let n = parse_frame(rest)->Ok_0.1 as int;
    assert(bytes.take(4) + rest.take(n) =~= bytes.take(n + 4));
}

/// A frame that reads as a packet lies within the bytes at hand and holds at
/// least a type byte, a length and a checksum.
pub proof fn lemma_parse_frame_bounds(bytes: Seq<u8>)
    ensures
        parse_frame(bytes) is Ok ==> 13 <= parse_frame(bytes)->Ok_0.1 <= bytes.len(),
{
    reveal(parse_frame);
}

/// Opens a frame: unscrambles the payload, holds it against the checksum and
/// reads the message of the type that `tag` tells.
pub fn open_transport_frame(tag: u8, scrambled: &[u8], sum: u64) -> (r: Result<
    TransportPacketData,
    DecodeError,
>)
    ensures
        match open_frame(tag, scrambled@, sum) {
            Ok(v) => r is Ok && r->Ok_0@ == v,
            Err(e) => r is Err && r->Err_0 == e,
        },
{
    proof {
        lemma_unscramble_len(0, scrambled@);
    }
    let mut unscrambler = UnscramblingReader::new(scrambled);
    let payload = unscrambler.read(scrambled.len());
    assert(payload@ =~= unscramble(scrambled@));
    if checksum_of(payload.as_slice()) != sum {
        return Err(DecodeError::InvalidData);
    }
    let mut substream = SubstreamReader::new(payload.as_slice(), payload.len());
    assert(substream.unread() =~= payload@);
    let parsed = TransportPacketData::deserialize_body(tag, &mut substream);
    let reached_end = substream.reached_end();
    match parsed {
        Ok(data) => {
            if !reached_end {
                return Err(DecodeError::InvalidData);
            }
            Ok(data)
        },
        Err(_) => Err(DecodeError::InvalidData),
    }
}

/// A packet without its signature.
#[derive(Debug, PartialEq, Eq)]
pub struct TransportPacketInner {
    data: TransportPacketData,
}

impl View for TransportPacketInner {
    type V = TransportPacketDataView;

    closed spec fn view(&self) -> TransportPacketDataView {
        self.data@
    }
}

impl Clone for TransportPacketInner {
    fn clone(&self) -> (copy: Self)
        ensures
            copy@ == self@,
    {
        TransportPacketInner { data: self.data.clone() }
    }
}

impl TransportPacketInner {
    /// The message that the packet carries.
    pub closed spec fn message(&self) -> TransportPacketData {
        self.data
    }

    pub fn new(data: TransportPacketData) -> (packet: Self)
        ensures
            packet@ == data@,
            packet.message() == data,
    {
        Self { data }
    }

    pub fn data(self) -> (data: TransportPacketData)
        ensures
            data == self.message(),
            data@ == self@,
    {
        self.data
    }
}

impl ValidityCheck for TransportPacketInner {
    /// The message is valid and its payload is within the limit of a packet.
    open spec fn valid(&self) -> bool {
        self.message().valid() && self.message()@.body().len() <= MAX_DATA_LEN
    }

    fn is_valid(&self) -> (ok: bool) {
        self.data.is_valid() && self.data.body_length() as usize <= MAX_DATA_LEN
    }
}

impl BinarySerialize for TransportPacketInner {
    open spec fn wire(v: TransportPacketDataView) -> Seq<u8> {
        v.frame()
    }

    open spec fn parse(bytes: Seq<u8>) -> Result<(TransportPacketDataView, nat), DecodeError> {
        parse_frame(bytes)
    }

    fn serialize_to_stream(&self, writer: &mut Vec<u8>) {
        let ghost start = writer@;
        let mut body: Vec<u8> = Vec::new();
        self.data.serialize_body(&mut body);
        assert(body@ =~= self@.body());
        proof {
            self.data.lemma_body_fits();
        }
        writer.push(self.data.tag());
        put_le(writer, body.len() as u64, 4);
        let mut scrambler = ScramblingWriter::new(Vec::new());
        scrambler.write(body.as_slice());
        let scrambled = scrambler.into_inner();
        assert(scrambled@ =~= scramble(body@));
        writer.extend_from_slice(scrambled.as_slice());
        put_le(writer, checksum_of(body.as_slice()), 8);
        assert(writer@ =~= start + self@.frame());
    }

    fn length_when_serialized(&self) -> (n: u32) {
        proof {
            self.data.lemma_frame_roundtrip(Seq::empty());
        }
        1 + 4 + self.data.body_length() + 8
    }

    /// Refuses a payload of more than 8 MiB, one whose checksum does not
    /// match, and one that is no message of the announced type and length.
    fn deserialize_from_stream(reader: &mut SubstreamReader) -> (r: Result<Self, DecodeError>) {
        let ghost input = reader.unread();
        proof {
            reveal(parse_frame);
            lemma_radix_values();
        }
        let type_buf = reader.read_exact(1)?;
        let tag = type_buf[0];
        let len = read_le(reader, 4)?;
        proof {
            if input.len() >= 5 {
                assert(input.skip(1).take(4) =~= input.subrange(1, 5));
            }
        }
        if len > MAX_DATA_LEN as u64 {
            return Err(DecodeError::InvalidData);
        }
        if reader.remaining() < len as usize + 8 {
            return Err(DecodeError::UnexpectedEof);
        }
        let scrambled = reader.read(len as usize);
        let sum = read_le(reader, 8)?;
        proof {
            let rest = input.skip(1).skip(4);
            assert(rest.take(len as int) =~= input.subrange(5, 5 + len));
            assert(rest.skip(len as int).take(8) =~= input.subrange(5 + len, 13 + len));
            assert(rest.skip(len as int).skip(8) =~= input.skip(13 + len));
        }
        let data = open_transport_frame(tag, scrambled, sum)?;
        Ok(Self { data })
    }

    proof fn lemma_parse_inverse(bytes: Seq<u8>) {
        lemma_parse_frame_inverse(bytes);
    }

    proof fn lemma_roundtrip(&self, rest: Seq<u8>) {
        self.data.lemma_frame_roundtrip(rest);
    }
}

/// A whole packet, signature and all.
#[derive(Debug, PartialEq, Eq)]
pub struct TransportPacket {
    data: TransportPacketInner,
}

impl View for TransportPacket {
    type V = TransportPacketDataView;

    closed spec fn view(&self) -> TransportPacketDataView {
        self.data@
    }
}

impl Clone for TransportPacket {
    fn clone(&self) -> (copy: Self)
        ensures
            copy@ == self@,
    {
        TransportPacket { data: self.data.clone() }
    }
}

impl TransportPacket {
    /// The message that the packet carries.
    pub closed spec fn message(&self) -> TransportPacketData {
        self.data.message()
    }

    pub fn new(data: TransportPacketData) -> (packet: Self)
        ensures
            packet@ == data@,
            packet.message() == data,
    {
        Self { data: TransportPacketInner::new(data) }
    }

    pub fn data(self) -> (data: TransportPacketData)
        ensures
            data == self.message(),
            data@ == self@,
    {
        self.data.data()
    }

    pub fn data_as_chunk(self) -> (chunk: Option<Chunk>)
        ensures
            chunk is Some == self@.as_chunk() is Some,
            chunk is Some ==> chunk->Some_0@ == self@.as_chunk()->Some_0,
    {
        self.data.data().as_chunk()
    }

    pub fn data_as_control_message(self) -> (message: Option<ControlMessage>)
        ensures
            message == self@.as_control_message(),
    {
        self.data.data().as_control_message()
    }
}

impl ValidityCheck for TransportPacket {
    open spec fn valid(&self) -> bool {
        self.message().valid() && self.message()@.body().len() <= MAX_DATA_LEN
    }

    fn is_valid(&self) -> (ok: bool) {
        self.data.is_valid()
    }
}

/// The bytes of a packet that carries the message `v`.
pub open spec fn packet_wire(v: TransportPacketDataView) -> Seq<u8> {
    signature() + v.frame()
}

/// What a reader makes of the front of `bytes` as a whole packet.
pub open spec fn parse_packet(bytes: Seq<u8>) -> Result<(TransportPacketDataView, nat), DecodeError> {
    if bytes.len() < 4 {
        Err(DecodeError::UnexpectedEof)
    } else if bytes.take(4) != signature() {
        Err(DecodeError::InvalidData)
    } else {
        match parse_frame(bytes.skip(4)) {
            Ok((v, n)) => Ok((v, n + 4)),
            Err(e) => Err(e),
        }
    }
}

impl BinarySerialize for TransportPacket {
    open spec fn wire(v: TransportPacketDataView) -> Seq<u8> {
        packet_wire(v)
    }

    open spec fn parse(bytes: Seq<u8>) -> Result<(TransportPacketDataView, nat), DecodeError> {
        parse_packet(bytes)
    }

    fn serialize_to_stream(&self, writer: &mut Vec<u8>) {
        let ghost start = writer@;
        writer.push(0x4C);
        writer.push(0x46);
        writer.push(0x54);
        writer.push(0x50);
        assert(writer@ =~= start + signature());
        self.data.serialize_to_stream(writer);
        assert(writer@ =~= start + packet_wire(self@));
    }

    fn length_when_serialized(&self) -> (n: u32) {
        proof {
            self.data.data.lemma_frame_roundtrip(Seq::empty());
        }
        4 + self.data.length_when_serialized()
    }

    fn deserialize_from_stream(reader: &mut SubstreamReader) -> (r: Result<Self, DecodeError>) {
        let ghost input = reader.unread();
        let found = reader.read_exact(4)?;
        if !is_signature(found) {
            return Err(DecodeError::InvalidData);
        }
        let data = TransportPacketInner::deserialize_from_stream(reader)?;
        proof {
            let n = parse_frame(input.skip(4))->Ok_0.1;
            assert(input.skip(4).skip(n as int) =~= input.skip((n + 4) as int));
        }
        Ok(Self { data })
    }

    proof fn lemma_parse_inverse(bytes: Seq<u8>) {
        lemma_parse_packet_inverse(bytes);
    }

    proof fn lemma_roundtrip(&self, rest: Seq<u8>) {
        self.data.data.lemma_frame_roundtrip(rest);
        let all = packet_wire(self@) + rest;
        assert(all.take(4) =~= signature());
        assert(all.skip(4) =~= self@.frame() + rest);
    }
}

/// Whether four bytes are the signature.
pub fn is_signature(bytes: &[u8]) -> (b: bool)
    requires
        bytes@.len() == 4,
    ensures
        b == (bytes@ == signature()),
{
    let b = bytes[0] == 0x4C && bytes[1] == 0x46 && bytes[2] == 0x54 && bytes[3] == 0x50;
    proof {
        if b {
            assert(bytes@ =~= signature());
        }
    }
    b
}

} // verus!
