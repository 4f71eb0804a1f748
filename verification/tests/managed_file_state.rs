use file_downlink::file_part_id::{FilePartId, FilePartIdRangeInclusive};
use file_downlink::managed_file::state::{serialize_part_to_stream, serialize_parts_to_stream, ManagedFileState, ManagedFileStatePart};
use file_downlink::substream::DecodeError;

fn test_changes(part_count: u32, execute: impl FnOnce(&mut ManagedFileState)) {
    let mut state = ManagedFileState::new_from_part_count(part_count);

    execute(&mut state);

    // What is written is what is read back.
    let bytes = state.serialize();
    let new_state = ManagedFileState::load_from_file(&bytes).unwrap();

    // Check that the new state is the same as the old one
    assert_eq!(state.remaining_parts(), new_state.remaining_parts());
}

#[test]
fn test_serialize_deserialize() {
    test_changes(100, |_| {});
}

#[test]
fn test_update_priority() {
    test_changes(100, |state| {
        // 51 because the first part is a header
        assert_eq!(state.remaining_parts()[51].priority, 0);
        state.modify_part_priority(FilePartId::Part(50), |_priority| 100);
        assert_eq!(state.remaining_parts()[51].priority, 100);
    });
}

#[test]
fn test_filter() {
    test_changes(100, |state| {
        assert_eq!(state.remaining_parts().len(), 101);
        state.filter_remaining_parts(|part| part.part != FilePartId::Part(50));
        assert_eq!(state.remaining_parts().len(), 100);
    });
}

#[test]
fn test_update_all_priorities() {
    test_changes(100, |state| {
        assert_eq!(state.remaining_parts()[51].priority, 0);
        state.modify_all_part_priorities(FilePartId::Part(50), |_priority| 100);
        assert_eq!(state.remaining_parts()[51].priority, 100);
    });
}

#[test]
fn new_state_holds_header_and_all_parts_at_priority_zero() {
    let state = ManagedFileState::new_from_part_count(3);
    assert_eq!(
        state.remaining_parts(),
        &vec![
            ManagedFileStatePart { part: FilePartId::Header, priority: 0 },
            ManagedFileStatePart { part: FilePartId::Part(0), priority: 0 },
            ManagedFileStatePart { part: FilePartId::Part(1), priority: 0 },
            ManagedFileStatePart { part: FilePartId::Part(2), priority: 0 },
        ]
    );
    assert_eq!(state.remaining_non_header_parts_len(), 3);
    assert!(!state.is_empty());
    let empty_file = ManagedFileState::new_from_part_count(0);
    assert_eq!(empty_file.remaining_parts().len(), 1);
    assert_eq!(empty_file.remaining_non_header_parts_len(), 0);
}

#[test]
fn state_file_is_records_of_six_bytes() {
    let mut state = ManagedFileState::new_from_part_count(2);
    state.modify_part_priority(FilePartId::Part(1), |_| -2);
    state.modify_part_priority(FilePartId::Header, |p| p + 258);
    let bytes = state.serialize();
    assert_eq!(
        bytes,
        vec![
            0, 0, 0, 0, 2, 1, // the header, priority 258
            1, 0, 0, 0, 0, 0, // part 0
            2, 0, 0, 0, 0xFE, 0xFF, // part 1, priority -2
        ]
    );
    assert_eq!(bytes.len() % 6, 0);

    let mut one = Vec::new();
    serialize_part_to_stream(
        &ManagedFileStatePart { part: FilePartId::Part(0x01020304), priority: 0x0607 },
        &mut one,
    );
    assert_eq!(one, vec![0x05, 0x03, 0x02, 0x01, 0x07, 0x06]);
    let mut all = vec![9u8];
    serialize_parts_to_stream(state.remaining_parts(), &mut all);
    assert_eq!(&all[1..], &bytes[..]);
}

#[test]
fn state_file_of_broken_records_is_refused() {
    assert_eq!(
        ManagedFileState::load_from_file(&[0, 0, 0, 0, 0]),
        Err(DecodeError::InvalidData)
    );
    assert_eq!(
        ManagedFileState::load_from_file(&[0, 0, 0, 0, 0, 0, 1]),
        Err(DecodeError::InvalidData)
    );
    // Parts out of order, and a part twice.
    assert_eq!(
        ManagedFileState::load_from_file(&[2, 0, 0, 0, 0, 0, 1, 0, 0, 0, 0, 0]),
        Err(DecodeError::InvalidData)
    );
    assert_eq!(
        ManagedFileState::load_from_file(&[1, 0, 0, 0, 0, 0, 1, 0, 0, 0, 5, 0]),
        Err(DecodeError::InvalidData)
    );
    let empty = ManagedFileState::load_from_file(&[]).unwrap();
    assert!(empty.is_empty());
    let some = ManagedFileState::load_from_file(&[1, 0, 0, 0, 0, 0, 9, 0, 0, 0, 5, 0]).unwrap();
    assert_eq!(
        some.remaining_parts(),
        &vec![
            ManagedFileStatePart { part: FilePartId::Part(0), priority: 0 },
            ManagedFileStatePart { part: FilePartId::Part(8), priority: 5 },
        ]
    );
    assert_eq!(some.remaining_non_header_parts_len(), 2);
}

#[test]
fn priorities_change_only_where_asked() {
    let mut state = ManagedFileState::new_from_part_count(3);
    assert_eq!(state.modify_part_priority(FilePartId::Part(1), |p| p - 1), Some(2));
    assert_eq!(state.modify_part_priority(FilePartId::Part(7), |p| p - 1), None);
    let priorities: Vec<i16> = state.remaining_parts().iter().map(|p| p.priority).collect();
    assert_eq!(priorities, vec![0, 0, -1, 0]);
    state.set_all_priorities(5);
    let priorities: Vec<i16> = state.remaining_parts().iter().map(|p| p.priority).collect();
    assert_eq!(priorities, vec![5, 5, 5, 5]);
    assert_eq!(state.position(FilePartId::Header), Some(0));
    assert_eq!(state.position(FilePartId::Part(2)), Some(3));
    assert_eq!(state.position(FilePartId::Part(3)), None);
    assert!(state.contains(FilePartId::Part(0)));
    assert!(!state.contains(FilePartId::Part(3)));
}

#[test]
fn removing_a_range_keeps_the_rest_in_order() {
    let mut state = ManagedFileState::new_from_part_count(6);
    state.remove_range(&FilePartIdRangeInclusive::new(FilePartId::Part(1), FilePartId::Part(3)));
    let parts: Vec<FilePartId> = state.remaining_parts().iter().map(|p| p.part).collect();
    assert_eq!(
        parts,
        vec![FilePartId::Header, FilePartId::Part(0), FilePartId::Part(4), FilePartId::Part(5)]
    );
    // Again: nothing changes.
    state.remove_range(&FilePartIdRangeInclusive::new(FilePartId::Part(1), FilePartId::Part(3)));
    assert_eq!(state.remaining_parts().len(), 4);
    state.remove_range(&FilePartIdRangeInclusive::new(FilePartId::Header, FilePartId::Part(100)));
    assert!(state.is_empty());
    assert_eq!(state.serialize(), Vec::<u8>::new());
}
