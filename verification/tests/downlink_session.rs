use file_downlink::control::{ConfirmPart, ControlMessage, DeleteFile, SetFilePriority};
use file_downlink::downlink_session::{DownlinkSession, NextChunk};
use file_downlink::file_id::FileId;
use file_downlink::file_part_id::{FilePartId, FilePartIdRangeInclusive};
use file_downlink::managed_file::PartSource;
use file_downlink::storage_manager::{ControlOutcome, StorageManager, StorageManagerConfig};

fn storage_with(files: &[(u128, u64)], chunk: u32) -> StorageManager {
    let mut storage = StorageManager::new(
        Vec::new(),
        StorageManagerConfig {
            new_file_chunk_size: chunk,
            max_folder_size: None,
            split_file_if_n_chunks_saved: None,
        },
    )
    .unwrap();
    for (raw, size) in files {
        storage
            .add_file_with_id(FileId { raw: *raw }, "f".to_string(), *size, 0)
            .unwrap();
    }
    storage
}

fn next(session: &mut DownlinkSession) -> Option<(u128, FilePartId)> {
    session.next_chunk().map(|chunk| (chunk.file_id.raw, chunk.part_id))
}

const H: FilePartId = FilePartId::Header;

fn p(n: u32) -> FilePartId {
    FilePartId::Part(n)
}

#[test]
fn session_sends_headers_first_and_goes_round() {
    let mut session = DownlinkSession::new(storage_with(&[(2, 20), (1, 10)], 10));
    let round = vec![(1, H), (2, H), (1, p(0)), (2, p(0)), (2, p(1))];
    for _ in 0..3 {
        for expected in &round {
            assert_eq!(next(&mut session), Some(*expected));
        }
    }
}

#[test]
fn session_of_one_part_sends_it_every_time() {
    let mut session = DownlinkSession::new(storage_with(&[(1, 0)], 10));
    for _ in 0..3 {
        assert_eq!(next(&mut session), Some((1, H)));
    }
}

#[test]
fn empty_session_sends_nothing() {
    let mut session = DownlinkSession::new(storage_with(&[], 10));
    assert_eq!(session.next_chunk(), None);
    assert_eq!(session.next_chunk(), None);
    assert!(session.into_storage_manager().iter_files().is_empty());
}

#[test]
fn session_says_where_the_chunk_is_to_be_had() {
    let mut session = DownlinkSession::new(storage_with(&[(1, 25)], 10));
    match session.next_chunk() {
        Some(NextChunk { source: PartSource::Header(header), part_id, .. }) => {
            assert_eq!(part_id, H);
            assert_eq!(header.size, 25);
            assert_eq!(header.part_count, 3);
        }
        other => panic!("{:?}", other),
    }
    assert_eq!(
        session.next_chunk().unwrap().source,
        PartSource::DataRange { part: 0, offset: 0, len: 10 }
    );
    session.next_chunk();
    assert_eq!(
        session.next_chunk().unwrap().source,
        PartSource::DataRange { part: 2, offset: 20, len: 5 }
    );
}

#[test]
fn session_passes_over_what_was_acknowledged_meanwhile() {
    let mut session = DownlinkSession::new(storage_with(&[(1, 30), (2, 10)], 10));
    assert_eq!(next(&mut session), Some((1, H)));
    let outcome = session.process_control(ControlMessage::ConfirmPart(ConfirmPart {
        file_id: FileId { raw: 1 },
        part_range: FilePartIdRangeInclusive::new(H, p(1)),
    }));
    assert!(matches!(outcome, ControlOutcome::Acknowledged { finished: false, .. }));
    assert_eq!(next(&mut session), Some((2, H)));
    assert_eq!(next(&mut session), Some((2, p(0))));
    assert_eq!(next(&mut session), Some((1, p(2))));
    // Round again: the acknowledged header of file 1 does not go out again.
    assert_eq!(next(&mut session), Some((2, H)));

    assert_eq!(
        session.process_control(ControlMessage::DeleteFile(DeleteFile { file_id: FileId { raw: 2 } })),
        ControlOutcome::Deleted
    );
    assert_eq!(next(&mut session), Some((1, p(2))));
    assert_eq!(next(&mut session), Some((1, p(2))));
    session.process_control(ControlMessage::ConfirmPart(ConfirmPart {
        file_id: FileId { raw: 1 },
        part_range: FilePartIdRangeInclusive::new_single(p(2)),
    }));
    assert_eq!(session.next_chunk(), None);
    assert_eq!(session.next_chunk(), None);
    assert!(session.storage().iter_files().is_empty());
}

#[test]
fn session_keeps_its_order_when_priorities_change() {
    let mut storage = storage_with(&[(1, 10), (2, 10)], 10);
    storage.process_control(ControlMessage::SetFilePriority(SetFilePriority {
        file_id: FileId { raw: 2 },
        priority: 4,
    }));
    let mut session = DownlinkSession::new(storage);
    assert_eq!(next(&mut session), Some((2, H)));
    // Neither a sending that is noted nor a new priority moves the queue.
    assert!(session.confirm_file_sent(FileId { raw: 2 }, H).is_some());
    assert!(session.confirm_file_sent(FileId { raw: 9 }, H).is_none());
    session.process_control(ControlMessage::SetFilePriority(SetFilePriority {
        file_id: FileId { raw: 1 },
        priority: 100,
    }));
    assert_eq!(next(&mut session), Some((2, p(0))));
    assert_eq!(next(&mut session), Some((1, H)));
    assert_eq!(next(&mut session), Some((1, p(0))));
    // The next session starts from the priorities as they are now.
    let storage = session.into_storage_manager();
    assert_eq!(storage.iter_files()[1].remaining_parts()[0].priority, 3);
    let mut session = DownlinkSession::new(storage);
    assert_eq!(next(&mut session), Some((1, H)));
    assert_eq!(next(&mut session), Some((1, p(0))));
    assert_eq!(next(&mut session), Some((2, p(0))));
    assert_eq!(next(&mut session), Some((2, H)));
}
