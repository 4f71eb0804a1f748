use file_downlink::binary_serialize::BinarySerialize;
use file_downlink::chunks::DataChunk;
use file_downlink::control::{DeleteFile, SetFilePriority};
use file_downlink::file_id::FileId;
use file_downlink::substream::DecodeError;
use file_downlink::transport_packet::checkpoint_stream::StreamWithCheckpoints;
use file_downlink::transport_packet::tolerant_parser::{drain_packets, index_of_signature, next_packet, parse_next_packet, parse_transport_packet_stream, parse_until_signature, SearchSignatureStatus};
use file_downlink::transport_packet::{TransportPacket, TransportPacketData};

fn make_dummy_packets_list(count: usize) -> Vec<TransportPacket> {
    let mut packets = Vec::new();

    for i in 0..count {
        let mut data = Vec::new();
        for _ in 0..i {
            data.push(i as u8);
        }

        let packet = TransportPacket::new(TransportPacketData::DataChunk(DataChunk {
            file_id: FileId::nil(),
            part: i as u32,
            data,
        }));

        packets.push(packet);
    }

    packets
}

#[test]
fn test_stream_uncorrupt() {
    let packets = make_dummy_packets_list(10);

    let mut stream = Vec::new();
    for packet in &packets {
        packet.serialize_to_stream(&mut stream);
    }

    let mut parsed_packets = parse_transport_packet_stream(stream).into_iter();

    for packet in packets {
        let parsed_packet = parsed_packets.next().unwrap();
        assert_eq!(parsed_packet, packet.data());
    }
}

#[test]
fn test_stream_corrupt_padded() {
    let packets = make_dummy_packets_list(10);

    let mut stream = Vec::new();
    for packet in &packets {
        packet.serialize_to_stream(&mut stream);

        // append some corruption
        stream.extend_from_slice(&[1, 2, 3, 4]);
    }

    let mut parsed_packets = parse_transport_packet_stream(stream).into_iter();

    for packet in packets {
        let parsed_packet = parsed_packets.next().unwrap();
        assert_eq!(parsed_packet, packet.data());
    }
}

#[test]
fn test_stream_corrupt_packets() {
    let packets = make_dummy_packets_list(10);

    let mut stream = Vec::new();
    for (i, packet) in packets.iter().enumerate() {
        let mut vec = Vec::new();
        packet.serialize_to_stream(&mut vec);

        if i % 2 == 0 {
            // Corrupt one byte
            let arbitrary_byte = (((vec.len() - i) * 1000) % 256) % vec.len();
            vec[arbitrary_byte] += 1;
        }

        stream.extend_from_slice(&vec);
    }

    let mut parsed_packets = parse_transport_packet_stream(stream).into_iter();

    for (i, packet) in packets.into_iter().enumerate() {
        if i % 2 == 0 {
            // Corrupt packet, skip
            continue;
        }

        let parsed_packet = parsed_packets.next().unwrap();
        assert_eq!(parsed_packet, packet.data());
    }
}

fn frame(message: TransportPacketData) -> Vec<u8> {
    let mut bytes = Vec::new();
    TransportPacket::new(message).serialize_to_stream(&mut bytes);
    bytes
}

fn delete(raw: u128) -> TransportPacketData {
    TransportPacketData::DeleteFile(DeleteFile { file_id: FileId { raw } })
}

#[test]
fn one_packet_alone_is_parsed() {
    let message = TransportPacketData::SetFilePriority(SetFilePriority {
        file_id: FileId::random(),
        priority: 12,
    });
    assert_eq!(parse_transport_packet_stream(frame(message.clone())), vec![message]);
    assert_eq!(parse_transport_packet_stream(Vec::new()), vec![]);
    assert_eq!(parse_transport_packet_stream(b"LFT".to_vec()), vec![]);
    assert_eq!(parse_transport_packet_stream(b"LFTP".to_vec()), vec![]);
}

#[test]
fn parser_finds_its_way_after_an_injected_signature() {
    let first = delete(1);
    let second = delete(2);
    let mut stream = frame(first.clone());
    stream.extend_from_slice(b"LFTP");
    let mut seed: u32 = 99;
    for _ in 0..100 {
        seed = seed.wrapping_mul(1103515245).wrapping_add(12345);
        stream.push((seed >> 16) as u8);
    }
    stream.extend_from_slice(&frame(second.clone()));
    assert_eq!(parse_transport_packet_stream(stream), vec![first, second]);
}

#[test]
fn a_false_signature_right_before_a_packet_costs_nothing() {
    let message = delete(7);
    for junk in [&b"LFTP"[..], &b"LLFTP"[..], &b"LFTPLFTPLFT"[..], &b"LFTP\x81\x10\x00\x00\x00"[..]] {
        let mut stream = junk.to_vec();
        stream.extend_from_slice(&frame(message.clone()));
        assert_eq!(parse_transport_packet_stream(stream), vec![message.clone()]);
    }
}

#[test]
fn a_packet_cut_short_is_passed_over() {
    let first = frame(delete(1));
    let second = frame(delete(2));
    for cut in 1..first.len() {
        let mut stream = first[..cut].to_vec();
        stream.extend_from_slice(&second);
        assert_eq!(parse_transport_packet_stream(stream), vec![delete(2)], "cut at {}", cut);
    }
    for cut in 0..second.len() {
        let mut stream = first.clone();
        stream.extend_from_slice(&second[..cut]);
        assert_eq!(parse_transport_packet_stream(stream), vec![delete(1)], "cut at {}", cut);
    }
}

#[test]
fn a_packet_with_one_byte_lost_or_gained_is_passed_over() {
    let packets: Vec<Vec<u8>> = (0..3).map(|i| frame(delete(i))).collect();
    let middle = &packets[1];
    for at in 0..middle.len() {
        let mut lost = packets[0].clone();
        lost.extend_from_slice(&middle[..at]);
        lost.extend_from_slice(&middle[at + 1..]);
        lost.extend_from_slice(&packets[2]);
        assert_eq!(parse_transport_packet_stream(lost), vec![delete(0), delete(2)]);

        let mut gained = packets[0].clone();
        gained.extend_from_slice(&middle[..at]);
        gained.push(0x5A);
        gained.extend_from_slice(&middle[at..]);
        gained.extend_from_slice(&packets[2]);
        let parsed = parse_transport_packet_stream(gained);
        if at == 0 {
            // The byte came in front of the packet, which is whole.
            assert_eq!(parsed, vec![delete(0), delete(1), delete(2)]);
        } else {
            assert_eq!(parsed, vec![delete(0), delete(2)]);
        }
    }
}

#[test]
fn packets_across_scan_buffers_are_found() {
    // Junk of every length up to three scan buffers, so that the signature
    // falls on every place relative to the buffer's end.
    let message = delete(3);
    for junk in 0..800 {
        let mut stream = vec![b'L'; junk];
        stream.extend_from_slice(&frame(message.clone()));
        stream.extend_from_slice(&[b'F'; 5]);
        assert_eq!(parse_transport_packet_stream(stream), vec![message.clone()], "junk {}", junk);
    }
}

#[test]
fn signature_search_finds_the_first() {
    assert_eq!(index_of_signature(b""), None);
    assert_eq!(index_of_signature(b"LFT"), None);
    assert_eq!(index_of_signature(b"LFTP"), Some(0));
    assert_eq!(index_of_signature(b"xxLFTPxxLFTP"), Some(2));
    assert_eq!(index_of_signature(b"LFTLFTLFTP"), Some(6));
    assert_eq!(index_of_signature(b"LFTQLFTQ"), None);

    let mut stream = StreamWithCheckpoints::new(b"junkLFTPrest".to_vec());
    assert_eq!(parse_until_signature(&mut stream), SearchSignatureStatus::Found);
    assert_eq!(stream.read(4), b"LFTP".to_vec());
    assert_eq!(parse_until_signature(&mut stream), SearchSignatureStatus::Eof);
}

#[test]
fn next_packet_goes_through_the_stream() {
    let mut bytes = frame(delete(1));
    let first_len = bytes.len();
    bytes.extend_from_slice(b"garbage");
    bytes.extend_from_slice(&frame(delete(2)));
    let total = bytes.len();
    let mut stream = StreamWithCheckpoints::new(bytes);
    assert_eq!(
        parse_next_packet(&mut stream),
        Ok(delete(1))
    );
    assert_eq!(stream.remaining(), total - first_len);
    assert_eq!(stream.rollback_len(), 0);
    // What follows is no packet: the stream is left where it stood.
    assert_eq!(parse_next_packet(&mut stream), Err(DecodeError::InvalidData));
    assert_eq!(stream.remaining(), total - first_len);
    assert_eq!(next_packet(&mut stream), Some(delete(2)));
    assert_eq!(next_packet(&mut stream), None);
}

#[test]
fn packets_that_arrive_piece_by_piece_are_taken_when_whole() {
    let messages: Vec<TransportPacketData> = (0..5).map(delete).collect();
    let mut stream = b"noise".to_vec();
    for message in &messages {
        stream.extend_from_slice(&frame(message.clone()));
        stream.extend_from_slice(b"LFTP\x01");
    }
    for piece in [1usize, 2, 3, 7, 33, 64, 1000] {
        let mut buffer = Vec::new();
        let mut got = Vec::new();
        for chunk in stream.chunks(piece) {
            buffer.extend_from_slice(chunk);
            got.extend(drain_packets(&mut buffer));
            assert!(buffer.len() <= 33 + piece, "the buffer holds {} bytes", buffer.len());
        }
        assert_eq!(got, messages, "pieces of {}", piece);
    }

    // What is left is what may still become a packet.
    let mut buffer = frame(delete(9));
    let whole = buffer.clone();
    buffer.truncate(20);
    assert_eq!(drain_packets(&mut buffer), vec![]);
    assert_eq!(buffer, whole[..20].to_vec());
    let mut buffer = b"garbage without end LF".to_vec();
    assert_eq!(drain_packets(&mut buffer), vec![]);
    assert_eq!(buffer, b" LF".to_vec());
    let mut buffer = b"ab".to_vec();
    assert_eq!(drain_packets(&mut buffer), vec![]);
    assert_eq!(buffer, b"ab".to_vec());
    // A frame that is all there and wrong is given up at once.
    let mut spoiled = whole.clone();
    spoiled[10] ^= 1;
    spoiled.extend_from_slice(&whole);
    assert_eq!(drain_packets(&mut spoiled), vec![delete(9)]);
    assert_eq!(spoiled, Vec::<u8>::new());
}
