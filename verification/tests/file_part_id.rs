use file_downlink::validity::ValidityCheck;
use file_downlink::binary_serialize::BinarySerialize;
use file_downlink::file_part_id::{FilePartId, FilePartIdRangeInclusive};
use file_downlink::substream::{DecodeError, SubstreamReader};

#[test]
fn test_file_part_id_range_inclusive_iter_parts() {
    let range = FilePartIdRangeInclusive::new(FilePartId::Header, FilePartId::Part(3));
    let parts: Vec<_> = range.iter_parts();
    assert_eq!(
        parts,
        vec![
            FilePartId::Header,
            FilePartId::Part(0),
            FilePartId::Part(1),
            FilePartId::Part(2),
            FilePartId::Part(3)
        ]
    );

    let range = FilePartIdRangeInclusive::new(FilePartId::Part(3), FilePartId::Part(3));
    let parts: Vec<_> = range.iter_parts();
    assert_eq!(parts, vec![FilePartId::Part(3)]);

    let range = FilePartIdRangeInclusive::new(FilePartId::Part(3), FilePartId::Part(5));
    let parts: Vec<_> = range.iter_parts();
    assert_eq!(
        parts,
        vec![
            FilePartId::Part(3),
            FilePartId::Part(4),
            FilePartId::Part(5)
        ]
    );

    let range = FilePartIdRangeInclusive::new_single(FilePartId::Part(3));
    let parts: Vec<_> = range.iter_parts();
    assert_eq!(parts, vec![FilePartId::Part(3)]);

    let range = FilePartIdRangeInclusive::new_single(FilePartId::Header);
    let parts: Vec<_> = range.iter_parts();
    assert_eq!(parts, vec![FilePartId::Header]);
}

#[test]
fn index_of_header_is_zero_and_parts_follow() {
    assert_eq!(FilePartId::Header.to_index(), 0);
    assert_eq!(FilePartId::Part(0).to_index(), 1);
    assert_eq!(FilePartId::Part(41).to_index(), 42);
    assert_eq!(FilePartId::from_index(0), FilePartId::Header);
    assert_eq!(FilePartId::from_index(1), FilePartId::Part(0));
    assert_eq!(FilePartId::from_index(u32::MAX), FilePartId::Part(u32::MAX - 1));
}

#[test]
fn reserved_part_number_is_not_valid() {
    assert!(FilePartId::Header.is_valid());
    assert!(FilePartId::Part(u32::MAX - 1).is_valid());
    assert!(!FilePartId::Part(u32::MAX).is_valid());
}

#[test]
fn header_sorts_before_every_part() {
    assert!(FilePartId::Header < FilePartId::Part(0));
    assert!(FilePartId::Part(0) < FilePartId::Part(1));
    assert!(FilePartId::Header.le(&FilePartId::Header));
    assert!(!FilePartId::Part(0).le(&FilePartId::Header));
}

#[test]
fn range_contains_its_ends_and_what_lies_between() {
    let range = FilePartIdRangeInclusive::new(FilePartId::Part(2), FilePartId::Part(4));
    assert!(!range.contains(FilePartId::Header));
    assert!(!range.contains(FilePartId::Part(1)));
    assert!(range.contains(FilePartId::Part(2)));
    assert!(range.contains(FilePartId::Part(3)));
    assert!(range.contains(FilePartId::Part(4)));
    assert!(!range.contains(FilePartId::Part(5)));
}

#[test]
fn range_is_written_as_two_big_endian_indices() {
    let range = FilePartIdRangeInclusive::new(FilePartId::Header, FilePartId::Part(0x01020303));
    let mut bytes = Vec::new();
    range.serialize_to_stream(&mut bytes);
    assert_eq!(bytes, vec![0, 0, 0, 0, 1, 2, 3, 4]);
    assert_eq!(range.length_when_serialized(), 8);
    let mut reader = SubstreamReader::new(&bytes, bytes.len());
    assert_eq!(
        FilePartIdRangeInclusive::deserialize_from_stream(&mut reader),
        Ok(range)
    );
    assert!(reader.reached_end());
}

#[test]
fn range_with_end_before_start_is_refused() {
    let bytes = vec![0, 0, 0, 5, 0, 0, 0, 4];
    let mut reader = SubstreamReader::new(&bytes, bytes.len());
    assert_eq!(
        FilePartIdRangeInclusive::deserialize_from_stream(&mut reader),
        Err(DecodeError::InvalidData)
    );
    let short = vec![0, 0, 0, 5, 0, 0, 0];
    let mut reader = SubstreamReader::new(&short, short.len());
    assert_eq!(
        FilePartIdRangeInclusive::deserialize_from_stream(&mut reader),
        Err(DecodeError::UnexpectedEof)
    );
}

#[test]
fn parts_have_names() {
    assert_eq!(FilePartId::Header.as_string(), "header");
    assert_eq!(FilePartId::Part(0).as_string(), "0");
    assert_eq!(FilePartId::Part(10).as_string(), "10");
    assert_eq!(FilePartId::Part(4294967294).as_string(), "4294967294");
    assert_eq!(FilePartId::from_string("header"), Some(FilePartId::Header));
    assert_eq!(FilePartId::from_string("0"), Some(FilePartId::Part(0)));
    assert_eq!(FilePartId::from_string("123"), Some(FilePartId::Part(123)));
    assert_eq!(FilePartId::from_string("4294967295"), Some(FilePartId::Part(u32::MAX)));
    assert_eq!(FilePartId::from_string("4294967296"), None);
    assert_eq!(FilePartId::from_string("007"), None);
    assert_eq!(FilePartId::from_string("+7"), None);
    assert_eq!(FilePartId::from_string(""), None);
    assert_eq!(FilePartId::from_string("Header"), None);
    assert_eq!(FilePartId::from_string("12a"), None);
    for i in [0u32, 9, 10, 99, 100, 65535, 1000000] {
        assert_eq!(FilePartId::from_string(&FilePartId::Part(i).as_string()), Some(FilePartId::Part(i)));
    }
}
