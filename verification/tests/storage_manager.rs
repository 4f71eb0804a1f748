use std::cmp::Ordering;

use file_downlink::chunks::HeaderChunk;
use file_downlink::control::{ConfirmPart, ControlMessage, DeleteFile, SetFilePriority};
use file_downlink::file_id::FileId;
use file_downlink::file_part_id::{FilePartId, FilePartIdRangeInclusive};
use file_downlink::managed_file::mode::ManagedFileMode;
use file_downlink::managed_file::{ManagedFile, StatePatch};
use file_downlink::storage_manager::eviction::Aftermath;
use file_downlink::storage_manager::precedence::{cmp_file_storage_part_for_deletion, cmp_file_storage_part_normal, goes_before, less_valuable, StorageFilePart};
use file_downlink::storage_manager::sending_order::{sends_no_later, sort_for_sending};
use file_downlink::storage_manager::{ControlOutcome, StorageError, StorageManager, StorageManagerConfig};

fn get_remaining_data_part_count(storage_manager: &StorageManager) -> usize {
    storage_manager
        .iter_remaining_storage_file_parts()
        .into_iter()
        .filter(|part| part.part_id != FilePartId::Header)
        .count()
}

fn add_dummy_file(storage_manager: &mut StorageManager, size: u64) -> FileId {
    storage_manager
        .add_file_from_path("data.bin".to_string(), size, 0)
        .unwrap()
        .header
        .id
}

#[test]
fn test_shrinking_storage_data() {
    let mut storage_manager = StorageManager::new(
        Vec::new(),
        StorageManagerConfig {
            split_file_if_n_chunks_saved: Some(5),
            max_folder_size: Some(15),
            new_file_chunk_size: 1,
        },
    )
    .unwrap();

    add_dummy_file(&mut storage_manager, 10);

    assert_eq!(get_remaining_data_part_count(&storage_manager), 10);

    add_dummy_file(&mut storage_manager, 10);

    assert_eq!(
        get_remaining_data_part_count(&storage_manager),
        15 // Would be 20, but we expect it to shrink to 15 as that's the max
    );
}

#[test]
fn test_shrinking_data_lowest_priority() {
    let mut storage_manager = StorageManager::new(
        Vec::new(),
        StorageManagerConfig {
            split_file_if_n_chunks_saved: None,
            max_folder_size: Some(15),
            new_file_chunk_size: 1,
        },
    )
    .unwrap();

    add_dummy_file(&mut storage_manager, 5);

    let file_id = storage_manager.iter_files()[0].header().id;

    // Decrease priority of all file parts in this file
    let parts = storage_manager.iter_remaining_storage_file_parts();
    for part in parts {
        if part.file_id == file_id {
            storage_manager
                .confirm_file_sent(file_id, part.part_id)
                .unwrap();
        }
    }

    // Add 2 more files, expecting the first file to still be present with 6 total parts
    add_dummy_file(&mut storage_manager, 5);
    add_dummy_file(&mut storage_manager, 5);

    let old_file = storage_manager
        .iter_files()
        .iter()
        .find(|file| file.header().id == file_id)
        .unwrap();

    assert_eq!(old_file.remaining_parts().len(), 6);
    assert_eq!(get_remaining_data_part_count(&storage_manager), 15);

    // Add another file, expect the first file should only have the header left
    add_dummy_file(&mut storage_manager, 5);

    assert_eq!(get_remaining_data_part_count(&storage_manager), 15);

    let old_file = storage_manager
        .iter_files()
        .iter()
        .find(|file| file.header().id == file_id)
        .unwrap();

    assert_eq!(old_file.remaining_parts().len(), 1);
    assert_eq!(old_file.remaining_parts()[0].part, FilePartId::Header);
}

fn part(priority: i16, part_id: FilePartId) -> StorageFilePart {
    StorageFilePart { file_id: FileId::nil(), part_id, priority }
}

#[test]
fn parts_go_out_by_priority_then_header_then_rising_number() {
    let header = FilePartId::Header;
    let cases = [
        (part(1, FilePartId::Part(9)), part(0, header)),
        (part(0, header), part(0, FilePartId::Part(0))),
        (part(0, FilePartId::Part(0)), part(0, FilePartId::Part(1))),
        (part(-5, header), part(-6, header)),
        (part(i16::MAX, FilePartId::Part(u32::MAX - 1)), part(i16::MIN, header)),
    ];
    for (first, second) in cases {
        assert!(goes_before(&first, &second));
        assert!(!goes_before(&second, &first));
        assert_eq!(cmp_file_storage_part_normal(&first, &second), Ordering::Greater);
        assert_eq!(cmp_file_storage_part_normal(&second, &first), Ordering::Less);
        assert!(sends_no_later(&first, &second));
        assert!(!sends_no_later(&second, &first));
    }
    let same = part(3, FilePartId::Part(3));
    assert!(!goes_before(&same, &same));
    assert_eq!(cmp_file_storage_part_normal(&same, &same), Ordering::Equal);
    assert!(sends_no_later(&same, &same));
}

#[test]
fn parts_are_given_up_by_priority_then_body_then_falling_number() {
    let header = FilePartId::Header;
    let cases = [
        (part(0, header), part(1, FilePartId::Part(9))),
        (part(0, FilePartId::Part(0)), part(0, header)),
        (part(0, FilePartId::Part(1)), part(0, FilePartId::Part(0))),
        (part(-6, header), part(-5, header)),
        (part(i16::MIN, header), part(i16::MAX, FilePartId::Part(0))),
    ];
    for (first, second) in cases {
        assert!(less_valuable(&first, &second));
        assert!(!less_valuable(&second, &first));
        assert_eq!(cmp_file_storage_part_for_deletion(&first, &second), Ordering::Less);
        assert_eq!(cmp_file_storage_part_for_deletion(&second, &first), Ordering::Greater);
    }
    let same = part(3, header);
    assert!(!less_valuable(&same, &same));
    assert_eq!(cmp_file_storage_part_for_deletion(&same, &same), Ordering::Equal);
}

#[test]
fn sorting_for_sending_puts_every_part_in_its_place() {
    let a = FileId { raw: 1 };
    let b = FileId { raw: 2 };
    let items = vec![
        StorageFilePart { file_id: b, part_id: FilePartId::Part(1), priority: 0 },
        StorageFilePart { file_id: a, part_id: FilePartId::Part(1), priority: 0 },
        StorageFilePart { file_id: b, part_id: FilePartId::Header, priority: 0 },
        StorageFilePart { file_id: a, part_id: FilePartId::Part(0), priority: -1 },
        StorageFilePart { file_id: a, part_id: FilePartId::Header, priority: 0 },
        StorageFilePart { file_id: b, part_id: FilePartId::Part(0), priority: 5 },
        StorageFilePart { file_id: a, part_id: FilePartId::Part(2), priority: 0 },
    ];
    let sorted = sort_for_sending(items.clone());
    assert_eq!(
        sorted,
        vec![
            StorageFilePart { file_id: b, part_id: FilePartId::Part(0), priority: 5 },
            StorageFilePart { file_id: a, part_id: FilePartId::Header, priority: 0 },
            StorageFilePart { file_id: b, part_id: FilePartId::Header, priority: 0 },
            StorageFilePart { file_id: a, part_id: FilePartId::Part(1), priority: 0 },
            StorageFilePart { file_id: b, part_id: FilePartId::Part(1), priority: 0 },
            StorageFilePart { file_id: a, part_id: FilePartId::Part(2), priority: 0 },
            StorageFilePart { file_id: a, part_id: FilePartId::Part(0), priority: -1 },
        ]
    );
    assert_eq!(sort_for_sending(Vec::new()), Vec::new());
    assert_eq!(sort_for_sending(vec![items[0]]), vec![items[0]]);

    // Many parts: the result is in order and holds the same parts.
    let mut many = Vec::new();
    let mut seed: u32 = 7;
    for i in 0..500u32 {
        seed = seed.wrapping_mul(1664525).wrapping_add(1013904223);
        many.push(StorageFilePart {
            file_id: FileId { raw: (seed >> 28) as u128 },
            part_id: FilePartId::from_index(i % 40),
            priority: ((seed >> 8) % 5) as i16 - 2,
        });
    }
    let sorted = sort_for_sending(many.clone());
    assert_eq!(sorted.len(), many.len());
    for pair in sorted.windows(2) {
        assert!(sends_no_later(&pair[0], &pair[1]));
    }
    for item in &many {
        let before = many.iter().filter(|x| *x == item).count();
        let after = sorted.iter().filter(|x| *x == item).count();
        assert_eq!(before, after);
    }
}

fn storage_of(sizes: &[u64], config: StorageManagerConfig) -> (StorageManager, Vec<FileId>) {
    let mut storage = StorageManager::new(Vec::new(), config).unwrap();
    let ids = sizes.iter().map(|size| add_dummy_file(&mut storage, *size)).collect();
    (storage, ids)
}

fn plain_config(chunk: u32) -> StorageManagerConfig {
    StorageManagerConfig {
        new_file_chunk_size: chunk,
        max_folder_size: None,
        split_file_if_n_chunks_saved: None,
    }
}

#[test]
fn configuration_and_duplicates_are_checked() {
    for chunk in [0u32, 1048577, u32::MAX] {
        assert_eq!(
            StorageManager::new(Vec::new(), plain_config(chunk)),
            Err(StorageError::InvalidConfig)
        );
        assert!(!plain_config(chunk).is_valid());
    }
    assert!(plain_config(1).is_valid());
    assert!(plain_config(1048576).is_valid());

    let header = HeaderChunk {
        id: FileId { raw: 9 },
        name: "x".to_string(),
        date: 0,
        part_count: 1,
        size: 1,
        file_part_size: 1,
    };
    let (one, _) = ManagedFile::create_new_from_header(header.clone()).unwrap();
    let (two, _) = ManagedFile::create_new_from_header(header.clone()).unwrap();
    assert_eq!(
        StorageManager::new(vec![one, two], plain_config(1)),
        Err(StorageError::DuplicateFile)
    );
    let (one, _) = ManagedFile::create_new_from_header(header).unwrap();
    let storage = StorageManager::new(vec![one], plain_config(1)).unwrap();
    assert_eq!(storage.config(), plain_config(1));
    assert_eq!(storage.position(FileId { raw: 9 }), Some(0));
    assert_eq!(storage.position(FileId { raw: 8 }), None);
    assert!(storage.get_file(FileId { raw: 9 }).is_some());
    assert!(storage.get_file(FileId { raw: 8 }).is_none());
}

#[test]
fn admission_gives_the_file_a_header_and_a_record() {
    let mut storage = StorageManager::new(Vec::new(), plain_config(64)).unwrap();
    let id = FileId { raw: 77 };
    let admission = storage.add_file_with_id(id, "photo.raw".to_string(), 130, 99).unwrap();
    assert_eq!(
        admission.header,
        HeaderChunk {
            id,
            name: "photo.raw".to_string(),
            date: 99,
            part_count: 3,
            size: 130,
            file_part_size: 64,
        }
    );
    assert!(admission.evictions.is_empty());
    assert_eq!(admission.create.mode_bin, vec![0]);
    assert_eq!(admission.create.state_bin.len(), 4 * 6);
    assert_eq!(storage.iter_files().len(), 1);
    assert_eq!(storage.total_data_size(), 130);

    assert_eq!(
        storage.add_file_with_id(id, "again".to_string(), 1, 0),
        Err(StorageError::DuplicateFile)
    );
    assert_eq!(
        storage.add_file_with_id(FileId { raw: 78 }, "n".repeat(2000), 1, 0),
        Err(StorageError::InvalidHeader)
    );
    assert_eq!(storage.iter_files().len(), 1);

    let mut capped = StorageManager::new(
        Vec::new(),
        StorageManagerConfig {
            new_file_chunk_size: 1,
            max_folder_size: Some(15),
            split_file_if_n_chunks_saved: None,
        },
    )
    .unwrap();
    assert_eq!(
        capped.add_file_from_path("big".to_string(), 16, 0),
        Err(StorageError::FileTooLarge)
    );
    assert!(capped.add_file_from_path("fits".to_string(), 15, 0).is_ok());
}

#[test]
fn eviction_gives_up_tail_parts_of_the_least_valuable_first() {
    let (mut storage, ids) = storage_of(
        &[10, 10],
        StorageManagerConfig {
            new_file_chunk_size: 1,
            max_folder_size: None,
            split_file_if_n_chunks_saved: None,
        },
    );
    // The second file is worth more.
    storage.process_control(ControlMessage::SetFilePriority(SetFilePriority {
        file_id: ids[1],
        priority: 1,
    }));
    assert_eq!(storage.find_least_valuable(), Some((0, 10)));
    let steps = storage.delete_parts_until_max_size_reached(17);
    let given_up: Vec<(FileId, FilePartId)> =
        steps.iter().map(|s| (s.file_id, s.part_id)).collect();
    assert_eq!(
        given_up,
        vec![
            (ids[0], FilePartId::Part(9)),
            (ids[0], FilePartId::Part(8)),
            (ids[0], FilePartId::Part(7)),
        ]
    );
    assert_eq!(steps[0].ack.truncate_data_to, Some(9));
    assert_eq!(steps[2].ack.truncate_data_to, Some(7));
    assert!(steps.iter().all(|s| s.aftermath == Aftermath::Kept));
    assert_eq!(storage.total_data_size(), 17);
    // Within the budget: nothing more goes.
    assert!(storage.delete_parts_until_max_size_reached(17).is_empty());

    // Down to nothing: of the file that is worth less the bodies go first
    // and the header last, and with it the file; of the other file the
    // header is left when no data are.
    let steps = storage.delete_parts_until_max_size_reached(0);
    assert_eq!(storage.total_data_size(), 0);
    assert_eq!(steps.len(), 18);
    assert_eq!((steps[6].file_id, steps[6].part_id), (ids[0], FilePartId::Part(0)));
    assert_eq!(steps[6].aftermath, Aftermath::Kept);
    assert_eq!((steps[7].file_id, steps[7].part_id), (ids[0], FilePartId::Header));
    assert_eq!(steps[7].aftermath, Aftermath::Removed);
    assert_eq!((steps[8].file_id, steps[8].part_id), (ids[1], FilePartId::Part(9)));
    assert_eq!((steps[17].file_id, steps[17].part_id), (ids[1], FilePartId::Part(0)));
    assert_eq!(get_remaining_data_part_count(&storage), 0);
    assert_eq!(storage.iter_files().len(), 1);
    assert_eq!(storage.iter_files()[0].header().id, ids[1]);
    assert_eq!(storage.find_least_valuable(), Some((0, 0)));
}

#[test]
fn eviction_among_equals_starts_with_the_first_file() {
    let (mut storage, ids) = storage_of(&[3, 3], plain_config(1));
    let steps = storage.delete_parts_until_max_size_reached(4);
    let given_up: Vec<(FileId, FilePartId)> =
        steps.iter().map(|s| (s.file_id, s.part_id)).collect();
    assert_eq!(
        given_up,
        vec![(ids[0], FilePartId::Part(2)), (ids[1], FilePartId::Part(2))]
    );
}

#[test]
fn eviction_splits_a_file_that_has_enough_holes() {
    let (mut storage, ids) = storage_of(
        &[10],
        StorageManagerConfig {
            new_file_chunk_size: 1,
            max_folder_size: None,
            split_file_if_n_chunks_saved: Some(3),
        },
    );
    // Parts 2 to 4 arrive: three holes, but only eviction looks at holes.
    let outcome = storage.process_control(ControlMessage::ConfirmPart(ConfirmPart {
        file_id: ids[0],
        part_range: FilePartIdRangeInclusive::new(FilePartId::Part(2), FilePartId::Part(4)),
    }));
    assert!(matches!(outcome, ControlOutcome::Acknowledged { finished: false, .. }));
    assert_eq!(storage.iter_files()[0].mode(), ManagedFileMode::Contiguous);
    assert_eq!(storage.total_data_size(), 10);

    let steps = storage.delete_parts_until_max_size_reached(8);
    assert_eq!(steps.len(), 1);
    assert_eq!(steps[0].part_id, FilePartId::Part(9));
    match &steps[0].aftermath {
        Aftermath::Split(effect) => {
            let parts: Vec<u32> = effect.copies.iter().map(|c| c.part).collect();
            assert_eq!(parts, vec![8, 7, 6, 5, 1, 0]);
        }
        other => panic!("no split: {:?}", other),
    }
    assert_eq!(storage.iter_files()[0].mode(), ManagedFileMode::Split);
    assert_eq!(storage.total_data_size(), 6);
}

#[test]
fn control_messages_reach_their_file() {
    let (mut storage, ids) = storage_of(&[4, 4], plain_config(2));
    let stranger = FileId { raw: 12345 };

    for message in [
        ControlMessage::ConfirmPart(ConfirmPart {
            file_id: stranger,
            part_range: FilePartIdRangeInclusive::new_single(FilePartId::Header),
        }),
        ControlMessage::DeleteFile(DeleteFile { file_id: stranger }),
        ControlMessage::SetFilePriority(SetFilePriority { file_id: stranger, priority: 5 }),
    ] {
        assert_eq!(storage.process_control(message), ControlOutcome::Ignored);
    }
    assert_eq!(storage.confirm_file_sent(stranger, FilePartId::Header), None);
    assert_eq!(storage.iter_remaining_storage_file_parts().len(), 6);

    let outcome = storage.process_control(ControlMessage::SetFilePriority(SetFilePriority {
        file_id: ids[1],
        priority: -3,
    }));
    match outcome {
        ControlOutcome::PrioritySet { state_bin } => {
            assert_eq!(state_bin, storage.iter_files()[1].state_bytes());
        }
        other => panic!("{:?}", other),
    }
    let priorities: Vec<i16> =
        storage.iter_remaining_storage_file_parts().iter().map(|p| p.priority).collect();
    assert_eq!(priorities, vec![0, 0, 0, -3, -3, -3]);

    assert_eq!(
        storage.confirm_file_sent(ids[0], FilePartId::Part(0)),
        Some(StatePatch { offset: 6, record: vec![1, 0, 0, 0, 0xFF, 0xFF] })
    );
    assert_eq!(storage.confirm_file_sent(ids[0], FilePartId::Part(7)), None);

    let outcome = storage.process_control(ControlMessage::ConfirmPart(ConfirmPart {
        file_id: ids[0],
        part_range: FilePartIdRangeInclusive::new(FilePartId::Header, FilePartId::Part(0)),
    }));
    match outcome {
        ControlOutcome::Acknowledged { effect, finished } => {
            assert!(!finished);
            assert_eq!(effect.truncate_data_to, None);
            assert_eq!(effect.state_bin, vec![2, 0, 0, 0, 0, 0]);
        }
        other => panic!("{:?}", other),
    }
    // The same again: the file is there, nothing changes.
    let outcome = storage.process_control(ControlMessage::ConfirmPart(ConfirmPart {
        file_id: ids[0],
        part_range: FilePartIdRangeInclusive::new(FilePartId::Header, FilePartId::Part(0)),
    }));
    assert!(matches!(outcome, ControlOutcome::Acknowledged { finished: false, .. }));
    assert_eq!(storage.iter_files()[0].remaining_parts().len(), 1);

    let outcome = storage.process_control(ControlMessage::ConfirmPart(ConfirmPart {
        file_id: ids[0],
        part_range: FilePartIdRangeInclusive::new_single(FilePartId::Part(1)),
    }));
    match outcome {
        ControlOutcome::Acknowledged { effect, finished } => {
            assert!(finished);
            assert_eq!(effect.truncate_data_to, Some(0));
        }
        other => panic!("{:?}", other),
    }
    assert_eq!(storage.iter_files().len(), 1);
    assert!(storage.get_file(ids[0]).is_none());

    assert_eq!(
        storage.process_control(ControlMessage::DeleteFile(DeleteFile { file_id: ids[1] })),
        ControlOutcome::Deleted
    );
    assert!(storage.iter_files().is_empty());
    assert_eq!(storage.total_data_size(), 0);
    assert_eq!(storage.find_least_valuable(), None);
}
