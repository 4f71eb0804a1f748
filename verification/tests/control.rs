use file_downlink::validity::ValidityCheck;
use file_downlink::binary_serialize::BinarySerialize;
use file_downlink::control::{ConfirmPart, ControlMessage, DeleteFile, SetFilePriority};
use file_downlink::file_id::FileId;
use file_downlink::file_part_id::{FilePartId, FilePartIdRangeInclusive};
use file_downlink::substream::{DecodeError, SubstreamReader};

#[test]
fn test_confirm_part_serialization() {
    let msg = ConfirmPart {
        file_id: FileId::random(),
        part_range: FilePartIdRangeInclusive {
            from: FilePartId::from_index(0),
            to: FilePartId::from_index(10),
        },
    };

    let mut buf = Vec::new();
    msg.serialize_to_stream(&mut buf);

    let mut cursor = SubstreamReader::new(&buf, buf.len());
    let deserialized_msg = ConfirmPart::deserialize_from_stream(&mut cursor).unwrap();

    assert_eq!(msg, deserialized_msg);
}

#[test]
fn test_delete_file_serialization() {
    let msg = DeleteFile {
        file_id: FileId::random(),
    };

    let mut buf = Vec::new();
    msg.serialize_to_stream(&mut buf);

    let mut cursor = SubstreamReader::new(&buf, buf.len());
    let deserialized_msg = DeleteFile::deserialize_from_stream(&mut cursor).unwrap();

    assert_eq!(msg, deserialized_msg);
}

#[test]
fn set_file_priority_bytes_are_id_and_little_endian_priority() {
    for (priority, low, high) in [
        (0i16, 0u8, 0u8),
        (1, 1, 0),
        (-1, 0xFF, 0xFF),
        (i16::MAX, 0xFF, 0x7F),
        (i16::MIN, 0x00, 0x80),
        (-300, 0xD4, 0xFE),
    ] {
        let msg = SetFilePriority { file_id: FileId { raw: 0xFF }, priority };
        let mut buf = Vec::new();
        msg.serialize_to_stream(&mut buf);
        let mut expected = vec![0u8; 15];
        expected.push(0xFF);
        expected.push(low);
        expected.push(high);
        assert_eq!(buf, expected);
        assert_eq!(msg.length_when_serialized(), 18);
        let mut cursor = SubstreamReader::new(&buf, buf.len());
        assert_eq!(SetFilePriority::deserialize_from_stream(&mut cursor), Ok(msg));
    }
}

#[test]
fn confirm_part_bytes_are_id_and_range() {
    let msg = ConfirmPart {
        file_id: FileId { raw: 0x0102 },
        part_range: FilePartIdRangeInclusive::new(FilePartId::Header, FilePartId::Part(9)),
    };
    let mut buf = Vec::new();
    msg.serialize_to_stream(&mut buf);
    let mut expected = vec![0u8; 14];
    expected.extend_from_slice(&[1, 2]);
    expected.extend_from_slice(&[0, 0, 0, 0, 0, 0, 0, 10]);
    assert_eq!(buf, expected);
    assert_eq!(msg.length_when_serialized(), 24);
}

#[test]
fn confirm_part_with_backward_range_is_refused() {
    let mut buf = vec![0u8; 16];
    buf.extend_from_slice(&[0, 0, 0, 3, 0, 0, 0, 2]);
    let mut cursor = SubstreamReader::new(&buf, buf.len());
    assert_eq!(
        ConfirmPart::deserialize_from_stream(&mut cursor),
        Err(DecodeError::InvalidData)
    );
    let mut cursor = SubstreamReader::new(&buf, 23);
    assert_eq!(
        ConfirmPart::deserialize_from_stream(&mut cursor),
        Err(DecodeError::UnexpectedEof)
    );
}

#[test]
fn validity_of_control_messages() {
    let id = FileId::nil();
    let good = ConfirmPart {
        file_id: id,
        part_range: FilePartIdRangeInclusive::new_single(FilePartId::Part(3)),
    };
    assert!(good.is_valid());
    let backwards = ConfirmPart {
        file_id: id,
        part_range: FilePartIdRangeInclusive { from: FilePartId::Part(3), to: FilePartId::Part(2) },
    };
    assert!(!backwards.is_valid());
    let reserved = ConfirmPart {
        file_id: id,
        part_range: FilePartIdRangeInclusive {
            from: FilePartId::Part(3),
            to: FilePartId::Part(u32::MAX),
        },
    };
    assert!(!reserved.is_valid());
    assert!(DeleteFile { file_id: id }.is_valid());
    assert!(SetFilePriority { file_id: id, priority: -5 }.is_valid());
    assert!(ControlMessage::ConfirmPart(good).is_valid());
    assert!(!ControlMessage::ConfirmPart(backwards).is_valid());
    assert_eq!(ControlMessage::DeleteFile(DeleteFile { file_id: id }).file_id(), id);
}
