use file_downlink::validity::ValidityCheck;
use file_downlink::binary_serialize::BinarySerialize;
use std::hash::Hasher;

use file_downlink::chunks::{Chunk, DataChunk, HeaderChunk};
use file_downlink::control::{ConfirmPart, ControlMessage, DeleteFile, SetFilePriority};
use file_downlink::file_id::FileId;
use file_downlink::file_part_id::{FilePartId, FilePartIdRangeInclusive};
use file_downlink::substream::{DecodeError, SubstreamReader};
use file_downlink::transport_packet::hashing::{checksum_of, ChunkedHasher};
use file_downlink::transport_packet::scrambling::{ScramblingWriter, UnscramblingReader};
use file_downlink::transport_packet::{is_signature, open_transport_frame, TransportPacket, TransportPacketData, TransportPacketInner};

fn reference_hash(data: &[u8]) -> u64 {
    let mut hasher = twox_hash::XxHash64::with_seed(0);
    hasher.write(data);
    hasher.finish()
}

#[test]
fn test_transport_packet() {
    let packet = TransportPacketData::DataChunk(DataChunk {
        data: vec![1, 2, 3, 4, 5, 6, 7, 8, 9],
        file_id: FileId::nil(),
        part: 12,
    });

    let packet = TransportPacket::new(packet);

    let mut serialized = Vec::new();
    packet.serialize_to_stream(&mut serialized);

    let mut deserialized = SubstreamReader::new(&serialized, serialized.len());
    let deserialized = TransportPacket::deserialize_from_stream(&mut deserialized).unwrap();

    assert_eq!(deserialized.data(), packet.data());
}

#[test]
fn test_big_packet() {
    // Make a packet with the length of 1048576, arbitrary numbers
    let mut data = Vec::new();
    for i in 0..1048576 {
        data.push(i as u8);
    }

    let packet = TransportPacketData::DataChunk(DataChunk {
        data,
        file_id: FileId::nil(),
        part: 12,
    });

    let packet = TransportPacket::new(packet);

    let mut serialized = Vec::new();
    packet.serialize_to_stream(&mut serialized);

    let mut deserialized = SubstreamReader::new(&serialized, serialized.len());
    let deserialized = TransportPacket::deserialize_from_stream(&mut deserialized).unwrap();

    assert_eq!(deserialized.data(), packet.data());
}

#[test]
fn packet_bytes_are_signature_tag_length_payload_checksum() {
    let message = DeleteFile { file_id: FileId { raw: 0x01020304 } };
    let packet = TransportPacket::new(TransportPacketData::DeleteFile(message));
    assert!(packet.is_valid());
    let mut bytes = Vec::new();
    packet.serialize_to_stream(&mut bytes);

    let mut payload = vec![0u8; 12];
    payload.extend_from_slice(&[1, 2, 3, 4]);
    let mut scrambled = Vec::new();
    let mut carry = 0u8;
    for byte in &payload {
        carry = carry.wrapping_add(*byte);
        scrambled.push(carry);
    }
    assert_eq!(&scrambled[12..], &[1, 3, 6, 10]);

    let mut expected = b"LFTP".to_vec();
    expected.push(129);
    expected.extend_from_slice(&16u32.to_le_bytes());
    expected.extend_from_slice(&scrambled);
    expected.extend_from_slice(&reference_hash(&payload).to_le_bytes());
    assert_eq!(bytes, expected);
    assert_eq!(packet.length_when_serialized() as usize, bytes.len());
    assert_eq!(bytes.len(), 4 + 1 + 4 + 16 + 8);
}

#[test]
fn every_kind_of_message_has_its_tag_and_reads_back() {
    let id = FileId::random();
    let messages = vec![
        (
            0u8,
            TransportPacketData::HeaderChunk(HeaderChunk {
                id,
                name: "a file".to_string(),
                date: 77,
                part_count: 2,
                size: 100,
                file_part_size: 64,
            }),
        ),
        (1, TransportPacketData::DataChunk(DataChunk { file_id: id, part: 1, data: vec![5; 36] })),
        (
            128,
            TransportPacketData::AcknowledgementPacket(ConfirmPart {
                file_id: id,
                part_range: FilePartIdRangeInclusive::new(FilePartId::Header, FilePartId::Part(1)),
            }),
        ),
        (129, TransportPacketData::DeleteFile(DeleteFile { file_id: id })),
        (130, TransportPacketData::SetFilePriority(SetFilePriority { file_id: id, priority: -9 })),
    ];
    for (tag, message) in messages {
        assert!(message.is_valid());
        assert_eq!(message.tag(), tag);
        let packet = TransportPacket::new(message.clone());
        let mut bytes = Vec::new();
        packet.serialize_to_stream(&mut bytes);
        assert_eq!(bytes[4], tag);
        assert_eq!(bytes.len(), packet.length_when_serialized() as usize);
        let mut reader = SubstreamReader::new(&bytes, bytes.len());
        let back = TransportPacket::deserialize_from_stream(&mut reader).unwrap();
        assert!(reader.reached_end());
        assert_eq!(back.data(), message);

        let inner = TransportPacketInner::new(message.clone());
        let mut inner_bytes = Vec::new();
        inner.serialize_to_stream(&mut inner_bytes);
        assert_eq!(inner_bytes, bytes[4..].to_vec());
        assert_eq!(inner.length_when_serialized() as usize, inner_bytes.len());
        let mut reader = SubstreamReader::new(&inner_bytes, inner_bytes.len());
        assert_eq!(
            TransportPacketInner::deserialize_from_stream(&mut reader).unwrap().data(),
            message
        );

        let mut tagged = Vec::new();
        message.serialize_to_stream(&mut tagged);
        assert_eq!(tagged[0], tag);
        assert_eq!(tagged.len(), message.length_when_serialized() as usize);
        let mut reader = SubstreamReader::new(&tagged, tagged.len());
        assert_eq!(TransportPacketData::deserialize_from_stream(&mut reader), Ok(message));
    }
}

#[test]
fn chunks_and_control_messages_are_told_apart() {
    let id = FileId::random();
    let data = DataChunk { file_id: id, part: 1, data: vec![1] };
    let packet = TransportPacketData::from_chunk(Chunk::Data(data.clone()));
    assert_eq!(packet.clone().as_chunk(), Some(Chunk::Data(data.clone())));
    assert_eq!(packet.as_control_message(), None);
    assert_eq!(
        TransportPacket::new(TransportPacketData::DataChunk(data.clone())).data_as_chunk(),
        Some(Chunk::Data(data.clone()))
    );
    assert_eq!(
        TransportPacket::new(TransportPacketData::DataChunk(data)).data_as_control_message(),
        None
    );

    let control = ControlMessage::SetFilePriority(SetFilePriority { file_id: id, priority: 3 });
    let packet = TransportPacketData::from_control_message(control);
    assert_eq!(packet.clone().as_control_message(), Some(control));
    assert_eq!(packet.clone().as_chunk(), None);
    assert_eq!(TransportPacket::new(packet.clone()).data_as_control_message(), Some(control));
    assert_eq!(TransportPacket::new(packet).data_as_chunk(), None);
    let delete = ControlMessage::DeleteFile(DeleteFile { file_id: id });
    assert_eq!(
        TransportPacketData::from_control_message(delete).as_control_message(),
        Some(delete)
    );
}

#[test]
fn a_flipped_byte_anywhere_spoils_the_packet() {
    let packet = TransportPacket::new(TransportPacketData::DataChunk(DataChunk {
        file_id: FileId::random(),
        part: 5,
        data: vec![1, 2, 3, 4, 5, 6, 7, 8],
    }));
    let mut bytes = Vec::new();
    packet.serialize_to_stream(&mut bytes);
    for at in 0..bytes.len() {
        let mut spoiled = bytes.clone();
        spoiled[at] ^= 0x40;
        let mut reader = SubstreamReader::new(&spoiled, spoiled.len());
        assert!(
            TransportPacket::deserialize_from_stream(&mut reader).is_err(),
            "a flip at {} went through",
            at
        );
    }
}

#[test]
fn wrong_signature_length_and_checksum_are_refused() {
    let packet = TransportPacket::new(TransportPacketData::DeleteFile(DeleteFile {
        file_id: FileId::nil(),
    }));
    let mut bytes = Vec::new();
    packet.serialize_to_stream(&mut bytes);

    let mut wrong = bytes.clone();
    wrong[0] = b'X';
    let mut reader = SubstreamReader::new(&wrong, wrong.len());
    assert_eq!(
        TransportPacket::deserialize_from_stream(&mut reader),
        Err(DecodeError::InvalidData)
    );

    // A length of more than 8 MiB is refused before anything else is read.
    let mut huge = b"LFTP".to_vec();
    huge.push(1);
    huge.extend_from_slice(&8388609u32.to_le_bytes());
    let mut reader = SubstreamReader::new(&huge, huge.len());
    assert_eq!(
        TransportPacket::deserialize_from_stream(&mut reader),
        Err(DecodeError::InvalidData)
    );
    let mut at_limit = b"LFTP".to_vec();
    at_limit.push(1);
    at_limit.extend_from_slice(&8388608u32.to_le_bytes());
    let mut reader = SubstreamReader::new(&at_limit, at_limit.len());
    assert_eq!(
        TransportPacket::deserialize_from_stream(&mut reader),
        Err(DecodeError::UnexpectedEof)
    );

    for len in 0..bytes.len() {
        let mut reader = SubstreamReader::new(&bytes, len);
        assert_eq!(
            TransportPacket::deserialize_from_stream(&mut reader),
            Err(DecodeError::UnexpectedEof)
        );
    }

    // A payload that is longer than its message.
    let payload = vec![0u8; 17];
    let sum = reference_hash(&payload);
    assert_eq!(open_transport_frame(129, &payload, sum), Err(DecodeError::InvalidData));
    let payload = vec![0u8; 16];
    let sum = reference_hash(&payload);
    assert_eq!(
        open_transport_frame(129, &payload, sum),
        Ok(TransportPacketData::DeleteFile(DeleteFile { file_id: FileId::nil() }))
    );
    assert_eq!(open_transport_frame(129, &payload, sum + 1), Err(DecodeError::InvalidData));
    assert_eq!(open_transport_frame(2, &payload, sum), Err(DecodeError::InvalidData));
    assert!(is_signature(b"LFTP"));
    assert!(!is_signature(b"LFTQ"));
}

#[test]
fn scrambling_adds_the_byte_before() {
    let mut writer = ScramblingWriter::new(vec![0xAA]);
    writer.write(&[1, 2, 3]);
    writer.write(&[250, 10]);
    writer.write(&[]);
    writer.write(&[0]);
    assert_eq!(writer.into_inner(), vec![0xAA, 1, 3, 6, 0, 10, 10]);

    let wire = [1u8, 3, 6, 0, 10, 10];
    let mut reader = UnscramblingReader::new(&wire);
    assert_eq!(reader.read(2), vec![1, 2]);
    assert_eq!(reader.read(0), Vec::<u8>::new());
    assert_eq!(reader.read(10), vec![3, 250, 10, 0]);
    assert_eq!(reader.read(10), Vec::<u8>::new());
}

#[test]
fn unscrambling_undoes_scrambling() {
    let mut plain = Vec::new();
    let mut seed: u32 = 12345;
    for _ in 0..1000 {
        seed = seed.wrapping_mul(1664525).wrapping_add(1013904223);
        plain.push((seed >> 24) as u8);
    }
    let mut writer = ScramblingWriter::new(Vec::new());
    writer.write(&plain[..300]);
    writer.write(&plain[300..]);
    let wire = writer.into_inner();
    assert_ne!(wire, plain);
    let mut reader = UnscramblingReader::new(&wire);
    let mut back = reader.read(7);
    back.extend(reader.read(993));
    assert_eq!(back, plain);
}

#[test]
fn checksum_is_xxh64_with_seed_zero_whatever_the_blocks() {
    assert_eq!(checksum_of(&[]), 0xEF46DB3751D8E999);
    let data: Vec<u8> = (0..200u32).map(|i| (i * 7 + 3) as u8).collect();
    for len in [0usize, 1, 15, 16, 17, 31, 32, 33, 48, 100, 200] {
        assert_eq!(checksum_of(&data[..len]), reference_hash(&data[..len]), "length {}", len);
        assert_eq!(
            checksum_of(&data[..len]),
            twox_hash::XxHash64::oneshot(0, &data[..len])
        );
    }
    let mut hasher = ChunkedHasher::new();
    hasher.write(&data[..5]);
    hasher.write(&data[5..40]);
    hasher.write(&[]);
    hasher.write(&data[40..]);
    assert_eq!(hasher.result(), reference_hash(&data));
    assert_ne!(checksum_of(&[1]), checksum_of(&[2]));
}
