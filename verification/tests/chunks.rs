use file_downlink::validity::ValidityCheck;
use file_downlink::binary_serialize::BinarySerialize;
use file_downlink::chunks::{generate_file_header, Chunk, DataChunk, HeaderChunk};
use file_downlink::file_id::FileId;
use file_downlink::file_part_id::FilePartId;
use file_downlink::substream::{DecodeError, SubstreamReader};

fn test_header() -> HeaderChunk {
    HeaderChunk {
        id: FileId::random(),
        name: "test".to_string(),
        date: 123456789,
        part_count: 42,
        size: 123456789,
        file_part_size: 2939448,
    }
}

#[test]
fn test_chunk_serialization() {
    let chunk = DataChunk {
        file_id: FileId::random(),
        part: 1,
        data: vec![0, 1, 2, 3, 4, 5],
    };

    let mut buffer = Vec::new();
    chunk.serialize_to_stream(&mut buffer);

    let mut reader = SubstreamReader::new(&buffer, buffer.len());
    let deserialized_chunk = DataChunk::deserialize_from_stream(&mut reader).unwrap();

    assert_eq!(chunk, deserialized_chunk);
}

#[test]
fn test_header_serialization() {
    let header = test_header();

    let mut buffer = Vec::new();
    header.serialize_to_stream(&mut buffer);

    let mut reader = SubstreamReader::new(&buffer, buffer.len());
    let deserialized_header = HeaderChunk::deserialize_from_stream(&mut reader).unwrap();

    assert_eq!(header, deserialized_header);
}

#[test]
fn data_chunk_bytes_are_id_part_length_data() {
    let chunk = DataChunk {
        file_id: FileId { raw: 0x000102030405060708090a0b0c0d0e0f },
        part: 0x01020304,
        data: vec![0xAA, 0xBB, 0xCC],
    };
    assert!(chunk.is_valid());
    let mut bytes = Vec::new();
    chunk.serialize_to_stream(&mut bytes);
    let mut expected: Vec<u8> = (0u8..16).collect();
    expected.extend_from_slice(&[0x04, 0x03, 0x02, 0x01]);
    expected.extend_from_slice(&[3, 0, 0, 0]);
    expected.extend_from_slice(&[0xAA, 0xBB, 0xCC]);
    assert_eq!(bytes, expected);
    assert_eq!(chunk.length_when_serialized() as usize, bytes.len());
}

#[test]
fn header_chunk_bytes_are_fields_in_order() {
    let header = HeaderChunk {
        id: FileId { raw: 1 },
        name: "ab".to_string(),
        date: -2,
        part_count: 2,
        size: 100,
        file_part_size: 64,
    };
    assert!(header.is_valid());
    let mut bytes = Vec::new();
    header.serialize_to_stream(&mut bytes);
    let mut expected = vec![0u8; 15];
    expected.push(1);
    expected.extend_from_slice(&[2, 0]);
    expected.extend_from_slice(b"ab");
    expected.extend_from_slice(&[0xFE, 0xFF, 0xFF, 0xFF, 0xFF, 0xFF, 0xFF, 0xFF]);
    expected.extend_from_slice(&[2, 0, 0, 0]);
    expected.extend_from_slice(&[100, 0, 0, 0, 0, 0, 0, 0]);
    expected.extend_from_slice(&[64, 0, 0, 0]);
    assert_eq!(bytes, expected);
    assert_eq!(header.length_when_serialized() as usize, bytes.len());
    assert_eq!(bytes.len(), 42 + 2);
}

#[test]
fn serialized_length_is_what_is_announced() {
    for len in [0usize, 1, 15, 16, 17, 1000] {
        let chunk = DataChunk { file_id: FileId::nil(), part: 7, data: vec![9; len] };
        let mut bytes = Vec::new();
        chunk.serialize_to_stream(&mut bytes);
        assert_eq!(bytes.len(), chunk.length_when_serialized() as usize);
        assert_eq!(bytes.len(), 24 + len);
    }
    let header = test_header();
    let mut bytes = Vec::new();
    header.serialize_to_stream(&mut bytes);
    assert_eq!(bytes.len(), header.length_when_serialized() as usize);
}

#[test]
fn reading_takes_only_the_bytes_of_the_value() {
    let chunk = DataChunk { file_id: FileId::nil(), part: 3, data: vec![1, 2, 3] };
    let mut bytes = Vec::new();
    chunk.serialize_to_stream(&mut bytes);
    bytes.extend_from_slice(&[0xEE; 5]);
    let mut reader = SubstreamReader::new(&bytes, bytes.len());
    assert_eq!(DataChunk::deserialize_from_stream(&mut reader), Ok(chunk));
    assert_eq!(reader.remaining(), 5);
    assert!(!reader.reached_end());
}

#[test]
fn data_chunk_of_more_than_one_mebibyte_is_refused() {
    let mut bytes = vec![0u8; 20];
    bytes.extend_from_slice(&(1048577u32).to_le_bytes());
    bytes.extend_from_slice(&vec![0u8; 1048577]);
    let mut reader = SubstreamReader::new(&bytes, bytes.len());
    assert_eq!(
        DataChunk::deserialize_from_stream(&mut reader),
        Err(DecodeError::InvalidData)
    );
    let too_big = DataChunk { file_id: FileId::nil(), part: 0, data: vec![0u8; 1048577] };
    assert!(!too_big.is_valid());
    let just_right = DataChunk { file_id: FileId::nil(), part: 0, data: vec![0u8; 1048576] };
    assert!(just_right.is_valid());
    let reserved = DataChunk { file_id: FileId::nil(), part: u32::MAX, data: vec![] };
    assert!(!reserved.is_valid());
}

#[test]
fn truncated_values_are_cut_short() {
    let chunk = DataChunk { file_id: FileId::nil(), part: 3, data: vec![1, 2, 3] };
    let mut bytes = Vec::new();
    chunk.serialize_to_stream(&mut bytes);
    for len in 0..bytes.len() {
        let mut reader = SubstreamReader::new(&bytes, len);
        assert_eq!(
            DataChunk::deserialize_from_stream(&mut reader),
            Err(DecodeError::UnexpectedEof)
        );
    }
    let header = test_header();
    let mut bytes = Vec::new();
    header.serialize_to_stream(&mut bytes);
    for len in 0..bytes.len() {
        let mut reader = SubstreamReader::new(&bytes[..len], len);
        assert_eq!(
            HeaderChunk::deserialize_from_stream(&mut reader),
            Err(DecodeError::UnexpectedEof)
        );
    }
}

#[test]
fn header_name_must_be_utf8_and_short() {
    let mut bytes = vec![0u8; 16];
    bytes.extend_from_slice(&[2, 0, 0xFF, 0xFE]);
    bytes.extend_from_slice(&[0u8; 24]);
    let mut reader = SubstreamReader::new(&bytes, bytes.len());
    assert_eq!(
        HeaderChunk::deserialize_from_stream(&mut reader),
        Err(DecodeError::InvalidData)
    );

    let mut long = vec![0u8; 16];
    long.extend_from_slice(&(1025u16).to_le_bytes());
    long.extend_from_slice(&vec![b'a'; 1025]);
    long.extend_from_slice(&[0u8; 24]);
    let mut reader = SubstreamReader::new(&long, long.len());
    assert_eq!(
        HeaderChunk::deserialize_from_stream(&mut reader),
        Err(DecodeError::InvalidData)
    );

    let mut header = test_header();
    header.name = "a".repeat(1024);
    assert!(header.is_valid());
    header.name = "a".repeat(1025);
    assert!(!header.is_valid());
}

#[test]
fn header_with_non_ascii_name_reads_back() {
    let header = HeaderChunk {
        id: FileId::random(),
        name: "données-été-日本.bin".to_string(),
        date: i64::MIN,
        part_count: 1,
        size: 1,
        file_part_size: 1,
    };
    assert!(header.is_valid());
    let mut bytes = Vec::new();
    header.serialize_to_stream(&mut bytes);
    let mut reader = SubstreamReader::new(&bytes, bytes.len());
    assert_eq!(HeaderChunk::deserialize_from_stream(&mut reader), Ok(header));
}

#[test]
fn header_is_valid_when_part_count_is_the_rounded_up_quotient() {
    let mut header = test_header();
    assert!(header.is_valid());
    header.part_count = 41;
    assert!(!header.is_valid());
    header.part_count = 43;
    assert!(!header.is_valid());
    header.part_count = 0;
    header.size = 0;
    assert!(header.is_valid());
    header.file_part_size = 0;
    assert!(!header.is_valid());
}

#[test]
fn generated_header_counts_parts() {
    for (size, part_size, count) in [
        (0u64, 64u32, 0u32),
        (1, 64, 1),
        (63, 64, 1),
        (64, 64, 1),
        (65, 64, 2),
        (100, 10, 10),
        (1048576, 64, 16384),
        (u64::MAX, 1 << 20, 0),
    ] {
        let header = generate_file_header(FileId::nil(), "f".to_string(), size, 5, part_size);
        if size == u64::MAX {
            assert_eq!(header, None);
        } else {
            let header = header.unwrap();
            assert_eq!(header.part_count, count);
            assert_eq!(header.size, size);
            assert_eq!(header.file_part_size, part_size);
            assert_eq!(header.date, 5);
            assert!(header.is_valid());
        }
    }
    assert_eq!(generate_file_header(FileId::nil(), "f".to_string(), 10, 0, 0), None);
    assert_eq!(
        generate_file_header(FileId::nil(), "n".repeat(1025), 10, 0, 1),
        None
    );
}

#[test]
fn chunk_knows_its_file_and_part() {
    let id = FileId::random();
    let data = Chunk::Data(DataChunk { file_id: id, part: 4, data: vec![] });
    assert_eq!(data.file_id(), id);
    assert_eq!(data.part_index(), FilePartId::Part(4));
    let mut header = test_header();
    header.id = id;
    let header = Chunk::Header(header);
    assert_eq!(header.file_id(), id);
    assert_eq!(header.part_index(), FilePartId::Header);
    assert_eq!(header.clone(), header);
}
