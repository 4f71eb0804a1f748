use file_downlink::chunks::{Chunk, DataChunk, HeaderChunk};
use file_downlink::control::{ConfirmPart, ControlMessage};
use file_downlink::file_id::FileId;
use file_downlink::file_part_id::{FilePartId, FilePartIdRangeInclusive};
use file_downlink::receiver::assembly::{output_file_name, ManagedReceivingFile, OutputPlan};
use file_downlink::receiver::ledger::{follows, ConfirmedFile};
use file_downlink::receiver::{ReceiveAction, Reciever};

fn data(raw: u128, part: u32) -> Chunk {
    Chunk::Data(DataChunk { file_id: FileId { raw }, part, data: vec![part as u8; 3] })
}

fn header(raw: u128, part_count: u32) -> HeaderChunk {
    HeaderChunk {
        id: FileId { raw },
        name: "out.bin".to_string(),
        date: 1,
        part_count,
        size: part_count as u64 * 3,
        file_part_size: 3,
    }
}

fn confirm(raw: u128, from: FilePartId, to: FilePartId) -> ControlMessage {
    ControlMessage::ConfirmPart(ConfirmPart {
        file_id: FileId { raw },
        part_range: FilePartIdRangeInclusive::new(from, to),
    })
}

#[test]
fn chunks_are_stored_and_noted() {
    let mut receiver = Reciever::new();
    assert_eq!(
        receiver.receive_chunk(data(1, 4), false),
        ReceiveAction::StorePart(DataChunk { file_id: FileId { raw: 1 }, part: 4, data: vec![4; 3] })
    );
    assert_eq!(
        receiver.receive_chunk(Chunk::Header(header(1, 5)), false),
        ReceiveAction::StoreHeader(header(1, 5))
    );
    // A late copy for a file that is finished is confirmed and dropped.
    assert_eq!(receiver.receive_chunk(data(2, 0), true), ReceiveAction::Absorbed);
    // The reserved part number is no part.
    assert_eq!(receiver.receive_chunk(data(3, u32::MAX), false), ReceiveAction::Rejected);
    assert_eq!(
        receiver.iter_control_messages(),
        vec![
            confirm(1, FilePartId::Header, FilePartId::Header),
            confirm(1, FilePartId::Part(4), FilePartId::Part(4)),
            confirm(2, FilePartId::Part(0), FilePartId::Part(0)),
        ]
    );
    assert_eq!(receiver.iter_control_messages(), vec![]);
}

#[test]
fn confirmations_are_the_longest_runs() {
    let mut receiver = Reciever::new();
    for part in [5u32, 1, 0, 9, 2, 6, 4, 11, 12, 1, 5, 9] {
        receiver.receive_chunk(data(7, part), false);
    }
    receiver.receive_chunk(Chunk::Header(header(7, 13)), false);
    receiver.receive_chunk(Chunk::Header(header(7, 13)), false);
    for part in [3u32, 2, 1] {
        receiver.receive_chunk(data(8, part), false);
    }
    assert_eq!(
        receiver.iter_control_messages(),
        vec![
            confirm(7, FilePartId::Header, FilePartId::Part(2)),
            confirm(7, FilePartId::Part(4), FilePartId::Part(6)),
            confirm(7, FilePartId::Part(9), FilePartId::Part(9)),
            confirm(7, FilePartId::Part(11), FilePartId::Part(12)),
            confirm(8, FilePartId::Part(1), FilePartId::Part(3)),
        ]
    );
}

#[test]
fn confirmations_cover_exactly_what_arrived() {
    let mut receiver = Reciever::new();
    let mut arrived = Vec::new();
    let mut seed: u32 = 4242;
    for _ in 0..300 {
        seed = seed.wrapping_mul(1664525).wrapping_add(1013904223);
        let raw = ((seed >> 30) % 3) as u128;
        let index = (seed >> 8) % 60;
        let part = FilePartId::from_index(index);
        let chunk = match part {
            FilePartId::Header => Chunk::Header(header(raw, 70)),
            FilePartId::Part(n) => data(raw, n),
        };
        receiver.receive_chunk(chunk, seed % 7 == 0);
        if !arrived.contains(&(raw, part)) {
            arrived.push((raw, part));
        }
    }
    let messages = receiver.iter_control_messages();
    let mut covered = Vec::new();
    let mut ranges: Vec<(u128, u32, u32)> = Vec::new();
    for message in &messages {
        match message {
            ControlMessage::ConfirmPart(confirm) => {
                for part in confirm.part_range.iter_parts() {
                    assert!(!covered.contains(&(confirm.file_id.raw, part)), "{:?} twice", part);
                    covered.push((confirm.file_id.raw, part));
                }
                ranges.push((
                    confirm.file_id.raw,
                    confirm.part_range.from.to_index(),
                    confirm.part_range.to.to_index(),
                ));
            }
            other => panic!("{:?}", other),
        }
    }
    assert_eq!(covered.len(), arrived.len());
    for item in &arrived {
        assert!(covered.contains(item));
    }
    // No two ranges of a file touch: a part that did not arrive lies between.
    for a in &ranges {
        for b in &ranges {
            if a.0 == b.0 && a != b {
                assert!(a.2 + 1 < b.1 || b.2 + 1 < a.1);
            }
        }
    }
}

#[test]
fn ledger_entry_keeps_its_parts_in_order() {
    let mut entry = ConfirmedFile::single(FileId { raw: 1 }, FilePartId::Part(5));
    for part in [FilePartId::Part(2), FilePartId::Part(5), FilePartId::Header, FilePartId::Part(9), FilePartId::Part(3)] {
        entry.insert(part);
    }
    assert_eq!(entry.file_id(), FileId { raw: 1 });
    assert_eq!(
        entry.parts(),
        &vec![
            FilePartId::Header,
            FilePartId::Part(2),
            FilePartId::Part(3),
            FilePartId::Part(5),
            FilePartId::Part(9)
        ]
    );
    assert_eq!(
        entry.coalesce(),
        vec![
            FilePartIdRangeInclusive::new_single(FilePartId::Header),
            FilePartIdRangeInclusive::new(FilePartId::Part(2), FilePartId::Part(3)),
            FilePartIdRangeInclusive::new_single(FilePartId::Part(5)),
            FilePartIdRangeInclusive::new_single(FilePartId::Part(9)),
        ]
    );
    assert!(follows(&FilePartId::Header, &FilePartId::Part(0)));
    assert!(follows(&FilePartId::Part(0), &FilePartId::Part(1)));
    assert!(!follows(&FilePartId::Part(1), &FilePartId::Part(1)));
    assert!(!follows(&FilePartId::Part(1), &FilePartId::Header));
    assert!(!follows(&FilePartId::Part(u32::MAX), &FilePartId::Part(0)));
}

fn names(parts: &[&str]) -> Vec<Vec<u8>> {
    parts.iter().map(|n| n.as_bytes().to_vec()).collect()
}

#[test]
fn file_is_whole_when_header_and_all_parts_are_there() {
    let whole = ManagedReceivingFile::new(false, Some(header(1, 3)), names(&["2.bin", "0.bin", "1.bin"]));
    assert!(whole.is_file_data_finished());
    assert!(!whole.is_finished());
    let more = ManagedReceivingFile::new(false, Some(header(1, 3)), names(&["2.bin", "0.bin", "1.bin", "7.bin", "x"]));
    assert!(more.is_file_data_finished());
    let gap = ManagedReceivingFile::new(false, Some(header(1, 3)), names(&["2.bin", "0.bin", "01.bin"]));
    assert!(!gap.is_file_data_finished());
    let no_header = ManagedReceivingFile::new(false, None, names(&["2.bin", "0.bin", "1.bin"]));
    assert!(!no_header.is_file_data_finished());
    let empty = ManagedReceivingFile::new(false, Some(header(1, 0)), names(&[]));
    assert!(empty.is_file_data_finished());
    let done = ManagedReceivingFile::new(true, None, names(&[]));
    assert!(done.is_finished());
    assert_eq!(done.get_data_folder_path(), b"data".to_vec());
    assert_eq!(done.get_header_json_path(), b"data/header.json".to_vec());
    assert_eq!(done.get_marker_file_path(), b"finished".to_vec());
    assert_eq!(done.get_bin_path(0), b"data/0.bin".to_vec());
    assert_eq!(done.get_bin_path(1234), b"data/1234.bin".to_vec());
}

#[test]
fn output_name_is_the_first_that_is_free() {
    assert_eq!(output_file_name(b"a.txt", &names(&[])), Some(b"a.txt".to_vec()));
    assert_eq!(output_file_name(b"a.txt", &names(&["b.txt"])), Some(b"a.txt".to_vec()));
    assert_eq!(output_file_name(b"a.txt", &names(&["a.txt"])), Some(b"a.txt (1)".to_vec()));
    assert_eq!(
        output_file_name(b"a.txt", &names(&["a.txt (2)", "a.txt", "a.txt (1)", "a.txt (4)"])),
        Some(b"a.txt (3)".to_vec())
    );
    let mut taken = names(&["a"]);
    for n in 1..12 {
        taken.push(format!("a ({})", n).into_bytes());
    }
    assert_eq!(output_file_name(b"a", &taken), Some(b"a (12)".to_vec()));
    assert_eq!(output_file_name(b"", &names(&[""])), Some(b" (1)".to_vec()));
}

fn named(id: u128, name: &str, part_count: u32) -> HeaderChunk {
    let mut h = header(id, part_count);
    h.name = name.to_string();
    h
}

#[test]
fn whole_files_are_handed_out_under_names_of_their_own() {
    let workdirs = vec![
        ManagedReceivingFile::new(false, Some(named(1, "a.txt", 2)), names(&["0.bin", "1.bin"])),
        ManagedReceivingFile::new(false, Some(named(2, "a.txt", 2)), names(&["0.bin"])),
        ManagedReceivingFile::new(true, Some(named(3, "a.txt", 0)), names(&[])),
        ManagedReceivingFile::new(false, None, names(&["0.bin"])),
        ManagedReceivingFile::new(false, Some(named(5, "a.txt", 1)), names(&["0.bin"])),
        ManagedReceivingFile::new(false, Some(named(6, "b.txt", 0)), names(&[])),
    ];
    let plans = Reciever::output_finished_files(&workdirs, names(&["a.txt", "a.txt (2)"]));
    assert_eq!(
        plans,
        vec![
            OutputPlan { workdir: 0, name: b"a.txt (1)".to_vec(), part_count: 2 },
            OutputPlan { workdir: 4, name: b"a.txt (3)".to_vec(), part_count: 1 },
            OutputPlan { workdir: 5, name: b"b.txt".to_vec(), part_count: 0 },
        ]
    );
    assert!(Reciever::output_finished_files(&Vec::new(), names(&["a.txt"])).is_empty());
}
