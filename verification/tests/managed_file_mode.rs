use file_downlink::binary_serialize::BinarySerialize;
use file_downlink::managed_file::mode::ManagedFileMode;
use file_downlink::substream::{DecodeError, SubstreamReader};

#[test]
fn test_mode_serialization() {
    let modes = [ManagedFileMode::Contiguous, ManagedFileMode::Split];

    for mode in modes {
        let mut buf = Vec::new();
        mode.serialize_to_stream(&mut buf);

        let mut cursor = SubstreamReader::new(&buf, buf.len());
        let deserialized_mode = ManagedFileMode::deserialize_from_stream(&mut cursor).unwrap();

        assert_eq!(mode, deserialized_mode);
    }
}

#[test]
fn mode_byte_is_zero_or_one() {
    let mut buf = Vec::new();
    ManagedFileMode::Contiguous.serialize_to_stream(&mut buf);
    ManagedFileMode::Split.serialize_to_stream(&mut buf);
    assert_eq!(buf, vec![0, 1]);
    assert_eq!(ManagedFileMode::from_u8(2), None);
    let bad = vec![7u8];
    let mut reader = SubstreamReader::new(&bad, 1);
    assert_eq!(
        ManagedFileMode::deserialize_from_stream(&mut reader),
        Err(DecodeError::InvalidData)
    );
    let empty: Vec<u8> = Vec::new();
    let mut reader = SubstreamReader::new(&empty, 0);
    assert_eq!(
        ManagedFileMode::deserialize_from_stream(&mut reader),
        Err(DecodeError::UnexpectedEof)
    );
}
