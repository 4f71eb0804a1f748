use file_downlink::binary_serialize::BinarySerialize;
use std::collections::BTreeMap;

use file_downlink::chunks::{Chunk, DataChunk, HeaderChunk};
use file_downlink::file_id::FileId;
use file_downlink::file_part_id::{FilePartId, FilePartIdRangeInclusive};
use file_downlink::managed_file::mode::ManagedFileMode;
use file_downlink::managed_file::names::{part_file_name_of, part_of_file_name};
use file_downlink::managed_file::recovery::{Cleanup, FolderListing, Recovery};
use file_downlink::managed_file::state::{ManagedFileState, ManagedFileStatePart};
use file_downlink::managed_file::{AckEffect, CreateEffect, ManagedFile, ManagedFileError, PartCopy, PartSource, SplitEffect, StatePatch};
use file_downlink::substream::{DecodeError, SubstreamReader};

/// A directory in memory, on which the effects are carried out as the
/// library says they are to be carried out on disk.
#[derive(Debug, Clone, PartialEq, Default)]
struct Folder {
    header_bin: Option<Vec<u8>>,
    mode_bin: Option<Vec<u8>>,
    state_bin: Option<Vec<u8>>,
    data_bin: Option<Vec<u8>>,
    data_dir: Option<BTreeMap<Vec<u8>, Vec<u8>>>,
}

impl Folder {
    fn create(effect: &CreateEffect, data: Vec<u8>) -> Folder {
        Folder {
            header_bin: Some(effect.header_bin.clone()),
            mode_bin: Some(effect.mode_bin.clone()),
            state_bin: Some(effect.state_bin.clone()),
            data_bin: Some(data),
            data_dir: None,
        }
    }

    fn acknowledge(&mut self, effect: &AckEffect) {
        self.state_bin = Some(effect.state_bin.clone());
        if let Some(len) = effect.truncate_data_to {
            let data = self.data_bin.as_mut().unwrap();
            assert!((len as usize) < data.len(), "a truncation that cuts nothing");
            data.truncate(len as usize);
        }
        for part in &effect.removed_parts {
            let removed = self.data_dir.as_mut().unwrap().remove(&part_file_name_of(*part));
            assert!(removed.is_some(), "part {} had no file", part);
        }
    }

    fn split_up_to(&mut self, effect: &SplitEffect, steps: usize) {
        if self.data_dir.is_none() {
            self.data_dir = Some(BTreeMap::new());
        }
        let data = self.data_bin.clone().unwrap();
        for copy in effect.copies.iter().take(steps) {
            let from = copy.offset as usize;
            let to = from + copy.len as usize;
            self.data_dir
                .as_mut()
                .unwrap()
                .insert(part_file_name_of(copy.part), data[from..to].to_vec());
        }
    }

    fn split(&mut self, effect: &SplitEffect) {
        self.split_up_to(effect, effect.copies.len());
        self.mode_bin = Some(effect.mode_bin.clone());
        self.data_bin = None;
    }

    fn patch(&mut self, patch: &StatePatch) {
        let state = self.state_bin.as_mut().unwrap();
        let at = patch.offset as usize;
        state[at..at + patch.record.len()].copy_from_slice(&patch.record);
    }

    fn clean(&mut self, listing: &FolderListing, cleanup: &Cleanup) {
        if cleanup.remove_data_bin {
            self.data_bin = None;
        }
        for index in &cleanup.remove_data_files {
            let name = &listing.data_dir.as_ref().unwrap()[*index];
            self.data_dir.as_mut().unwrap().remove(name);
        }
        if let Some(split) = &cleanup.split {
            self.split(split);
        }
    }

    fn listing(&self) -> FolderListing {
        FolderListing {
            header_bin: self.header_bin.clone(),
            state_bin: self.state_bin.clone(),
            mode_bin: self.mode_bin.clone(),
            data_bin_len: self.data_bin.as_ref().map(|d| d.len() as u64),
            data_dir: self.data_dir.as_ref().map(|d| d.keys().cloned().collect()),
        }
    }

    fn read(&self, source: &PartSource) -> Vec<u8> {
        match source {
            PartSource::Header(_) => panic!("the header is no data"),
            PartSource::DataRange { offset, len, .. } => {
                let data = self.data_bin.as_ref().unwrap();
                data[*offset as usize..(*offset + *len) as usize].to_vec()
            }
            PartSource::PartFile { part } => {
                self.data_dir.as_ref().unwrap()[&part_file_name_of(*part)].clone()
            }
        }
    }

    fn part_file_len(&self, part: u32) -> Option<usize> {
        self.data_dir.as_ref()?.get(&part_file_name_of(part)).map(|d| d.len())
    }
}

fn make_test_header(file_size: u64, part_size: u64) -> HeaderChunk {
    HeaderChunk {
        id: FileId::random(),
        date: 123456789,
        name: "test".to_string(),
        file_part_size: part_size as u32,
        size: file_size,
        part_count: if file_size % part_size == 0 {
            (file_size / part_size) as u32
        } else {
            (file_size / part_size + 1) as u32
        },
    }
}

fn file_bytes(size: u64) -> Vec<u8> {
    (0..size).map(|i| (i * 31 + 7) as u8).collect()
}

fn make_test_managed_file(file_size: u64, part_size: u64) -> (ManagedFile, Folder) {
    let header = make_test_header(file_size, part_size);
    let (file, effect) = ManagedFile::create_new_from_header(header).unwrap();
    let folder = Folder::create(&effect, file_bytes(file_size));
    (file, folder)
}

fn acknowledge(file: &mut ManagedFile, folder: &mut Folder, range: FilePartIdRangeInclusive) {
    let effect = file.acknowledge_file_parts(range);
    folder.acknowledge(&effect);
}

fn read_state(folder: &Folder) -> ManagedFileState {
    ManagedFileState::load_from_file(folder.state_bin.as_ref().unwrap()).unwrap()
}

fn read_mode(folder: &Folder) -> ManagedFileMode {
    let bytes = folder.mode_bin.as_ref().unwrap();
    let mut reader = SubstreamReader::new(bytes, bytes.len());
    ManagedFileMode::deserialize_from_stream(&mut reader).unwrap()
}

fn data_len(folder: &Folder) -> usize {
    folder.data_bin.as_ref().unwrap().len()
}

fn assert_equal_after_parsing(folder: &Folder, file: &ManagedFile) {
    match ManagedFile::try_read_from_path(&folder.listing()).unwrap() {
        Recovery::Valid(new_file, cleanup) => {
            assert_eq!(&new_file, file);
            assert_eq!(
                cleanup,
                Cleanup { remove_data_bin: false, remove_data_files: vec![], split: None }
            );
        }
        Recovery::Invalid => panic!("the folder holds no file"),
    }
}

#[test]
fn test_file_data() {
    let (mut file, mut folder) = make_test_managed_file(100, 10);

    assert!(folder.header_bin.is_some());
    assert!(folder.state_bin.is_some());
    assert_eq!(data_len(&folder), 100);

    let state = read_state(&folder);
    assert_eq!(state.remaining_parts().len(), 11); // 10 + header
    let mode = read_mode(&folder);
    assert_eq!(mode, ManagedFileMode::Contiguous);

    let effect = file.trigger_file_split().unwrap();
    folder.split(&effect);

    assert!(folder.header_bin.is_some());
    assert!(folder.state_bin.is_some());
    for i in 0..10 {
        assert_eq!(folder.part_file_len(i), Some(10));
    }
    assert_eq!(folder.part_file_len(10), None);
    assert!(folder.data_bin.is_none());

    assert_equal_after_parsing(&folder, &file);
}

#[test]
fn test_acknowledging_contiguous() {
    let (mut file, mut folder) = make_test_managed_file(100, 10);
    let state = read_state(&folder);
    assert_eq!(state.remaining_parts().len(), 11);

    acknowledge(&mut file, &mut folder, FilePartIdRangeInclusive::new_single(FilePartId::Part(9)));

    let state = read_state(&folder);
    assert_eq!(state.remaining_parts().len(), 10);
    assert_eq!(data_len(&folder), 90);

    acknowledge(&mut file, &mut folder, FilePartIdRangeInclusive::new_single(FilePartId::Part(7)));

    let state = read_state(&folder);
    assert_eq!(state.remaining_parts().len(), 9);
    assert_eq!(data_len(&folder), 90); // Still 90, because we haven't acknowledged part 8

    acknowledge(&mut file, &mut folder, FilePartIdRangeInclusive::new_single(FilePartId::Part(8)));

    let state = read_state(&folder);
    assert_eq!(state.remaining_parts().len(), 8);
    assert_eq!(data_len(&folder), 70);

    acknowledge(&mut file, &mut folder, FilePartIdRangeInclusive::new_single(FilePartId::Part(0)));

    let state = read_state(&folder);
    assert_eq!(state.remaining_parts().len(), 7);
    assert_eq!(data_len(&folder), 70); // Again, there's parts in front

    acknowledge(&mut file, &mut folder, FilePartIdRangeInclusive::new_single(FilePartId::Header));

    let state = read_state(&folder);
    assert_eq!(state.remaining_parts().len(), 6);
    assert_eq!(data_len(&folder), 70); // Header shouldn't affect this

    // Expect header to still exist
    assert!(folder.header_bin.is_some());

    // Check the remaining parts are still there
    let parts = [
        FilePartId::Part(1),
        FilePartId::Part(2),
        FilePartId::Part(3),
        FilePartId::Part(4),
        FilePartId::Part(5),
        FilePartId::Part(6),
    ];

    let state = read_state(&folder);
    for part in parts {
        let exists = state.remaining_parts().iter().any(|p| p.part == part);
        if !exists {
            panic!("Part {:?} was not found in the remaining parts", part);
        }
    }

    assert_equal_after_parsing(&folder, &file);
}

#[test]
fn test_acknowledging_split() {
    let (mut file, mut folder) = make_test_managed_file(100, 10);

    let effect = file.trigger_file_split().unwrap();
    folder.split(&effect);
    let state = read_state(&folder);
    assert_eq!(state.remaining_parts().len(), 11);

    acknowledge(&mut file, &mut folder, FilePartIdRangeInclusive::new_single(FilePartId::Part(9)));

    let state = read_state(&folder);
    assert_eq!(state.remaining_parts().len(), 10);
    assert_eq!(folder.part_file_len(9), None);

    acknowledge(&mut file, &mut folder, FilePartIdRangeInclusive::new_single(FilePartId::Part(7)));

    let state = read_state(&folder);
    assert_eq!(state.remaining_parts().len(), 9);
    assert_eq!(folder.part_file_len(7), None);

    acknowledge(&mut file, &mut folder, FilePartIdRangeInclusive::new_single(FilePartId::Part(8)));

    let state = read_state(&folder);
    assert_eq!(state.remaining_parts().len(), 8);
    assert_eq!(folder.part_file_len(8), None);

    acknowledge(
        &mut file,
        &mut folder,
        FilePartIdRangeInclusive::new(FilePartId::Part(0), FilePartId::Part(2)),
    );

    let state = read_state(&folder);
    assert_eq!(state.remaining_parts().len(), 5);
    assert_eq!(folder.part_file_len(0), None);

    acknowledge(&mut file, &mut folder, FilePartIdRangeInclusive::new_single(FilePartId::Header));

    let state = read_state(&folder);
    assert_eq!(state.remaining_parts().len(), 4);

    // Expect header to still exist
    assert!(folder.header_bin.is_some());

    // Check the remaining parts are still there
    let parts = [
        FilePartId::Part(3),
        FilePartId::Part(4),
        FilePartId::Part(5),
        FilePartId::Part(6),
    ];

    let state = read_state(&folder);

    for part_id in 0..10 {
        let part = FilePartId::Part(part_id);

        if !parts.contains(&part) {
            assert_eq!(folder.part_file_len(part_id), None);

            assert!(
                !state.remaining_parts().iter().any(|p| p.part == part),
                "Part {:?} was found in the remaining parts",
                part
            );
        } else {
            assert_eq!(folder.part_file_len(part_id), Some(10));

            assert!(
                state.remaining_parts().iter().any(|p| p.part == part),
                "Part {:?} was not found in the remaining parts",
                part
            );
        }
    }

    assert_equal_after_parsing(&folder, &file);
}

#[test]
fn test_splitting_after_acknowleding() {
    let (mut file, mut folder) = make_test_managed_file(100, 10);

    acknowledge(&mut file, &mut folder, FilePartIdRangeInclusive::new_single(FilePartId::Part(9)));
    acknowledge(&mut file, &mut folder, FilePartIdRangeInclusive::new_single(FilePartId::Part(7)));
    acknowledge(&mut file, &mut folder, FilePartIdRangeInclusive::new_single(FilePartId::Part(8)));
    acknowledge(&mut file, &mut folder, FilePartIdRangeInclusive::new_single(FilePartId::Part(0)));
    acknowledge(&mut file, &mut folder, FilePartIdRangeInclusive::new_single(FilePartId::Header));

    let state = read_state(&folder);
    assert_eq!(state.remaining_parts().len(), 6);

    let effect = file.trigger_file_split().unwrap();
    folder.split(&effect);

    let state = read_state(&folder);
    assert_eq!(state.remaining_parts().len(), 6);

    assert!(folder.header_bin.is_some());
    assert!(folder.state_bin.is_some());
    for i in 1..6 {
        assert_eq!(folder.part_file_len(i), Some(10));
    }
    for i in [0, 7, 8, 9].iter() {
        assert_eq!(folder.part_file_len(*i), None);
    }
    assert!(folder.data_bin.is_none());

    // Exactly the six parts that remain have a file, and nothing else.
    assert_eq!(folder.part_file_len(6), Some(10));
    assert_eq!(folder.data_dir.as_ref().unwrap().len(), 6);

    assert_equal_after_parsing(&folder, &file);
}

#[test]
fn test_continuous_all_acknowledged() {
    let (mut file, mut folder) = make_test_managed_file(100, 10);

    acknowledge(
        &mut file,
        &mut folder,
        FilePartIdRangeInclusive::new(FilePartId::Header, FilePartId::Part(9)),
    );

    let state = read_state(&folder);
    assert_eq!(state.remaining_parts().len(), 0);

    assert!(folder.header_bin.is_some());
    assert!(folder.state_bin.is_some());
    assert_eq!(data_len(&folder), 0);

    assert_equal_after_parsing(&folder, &file);

    assert!(file.is_finished());
}

#[test]
fn test_split_all_acknowledged() {
    let (mut file, mut folder) = make_test_managed_file(100, 10);
    let effect = file.trigger_file_split().unwrap();
    folder.split(&effect);

    acknowledge(
        &mut file,
        &mut folder,
        FilePartIdRangeInclusive::new(FilePartId::Header, FilePartId::Part(9)),
    );

    let state = read_state(&folder);
    assert_eq!(state.remaining_parts().len(), 0);

    assert!(folder.header_bin.is_some());
    assert!(folder.state_bin.is_some());
    // Assert the data folder is empty
    assert!(folder.data_dir.as_ref().unwrap().is_empty());

    assert_equal_after_parsing(&folder, &file);

    assert!(file.is_finished());
}

#[test]
fn creation_writes_header_mode_and_full_state() {
    let header = make_test_header(100, 10);
    let (file, effect) = ManagedFile::create_new_from_header(header.clone()).unwrap();
    let mut header_bytes = Vec::new();
    header.serialize_to_stream(&mut header_bytes);
    assert_eq!(effect.header_bin, header_bytes);
    assert_eq!(effect.mode_bin, vec![0]);
    assert_eq!(effect.state_bin.len(), 11 * 6);
    assert_eq!(effect.state_bin, file.state_bytes());
    assert_eq!(file.mode_bytes(), vec![0]);
    assert_eq!(file.header(), &header);
    assert_eq!(file.mode(), ManagedFileMode::Contiguous);
    assert_eq!(file.data_len(), 100);
    assert_eq!(file.remaining_parts().len(), 11);
    assert!(file.remaining_parts().iter().all(|p| p.priority == 0));
    assert!(!file.is_finished());
    assert_eq!(file.calc_remaining_data_size(), 100);
    assert_eq!(file.chunks_saved_by_splitting(), 0);
}

#[test]
fn headers_that_are_not_valid_are_refused() {
    let mut header = make_test_header(100, 10);
    header.part_count = 9;
    assert_eq!(
        ManagedFile::create_new_from_header(header),
        Err(ManagedFileError::InvalidHeader)
    );
    let big_parts = make_test_header(10_000_000, 1048577);
    assert_eq!(
        ManagedFile::create_new_from_header(big_parts),
        Err(ManagedFileError::InvalidHeader)
    );
    let largest_parts = make_test_header(10_000_000, 1048576);
    assert!(ManagedFile::create_new_from_header(largest_parts).is_ok());
}

#[test]
fn parts_are_read_from_where_they_lie() {
    let (mut file, mut folder) = make_test_managed_file(95, 10);
    let all = file_bytes(95);

    match file.get_file_part(FilePartId::Header) {
        Ok(Some(PartSource::Header(header))) => assert_eq!(&header, file.header()),
        other => panic!("no header: {:?}", other),
    }
    assert_eq!(
        file.get_file_part(FilePartId::Part(3)),
        Ok(Some(PartSource::DataRange { part: 3, offset: 30, len: 10 }))
    );
    // The last part is shorter.
    assert_eq!(
        file.get_file_part(FilePartId::Part(9)),
        Ok(Some(PartSource::DataRange { part: 9, offset: 90, len: 5 }))
    );
    assert_eq!(
        file.get_file_part(FilePartId::Part(10)),
        Err(ManagedFileError::PartOutOfBounds)
    );

    acknowledge(&mut file, &mut folder, FilePartIdRangeInclusive::new_single(FilePartId::Part(3)));
    assert_eq!(file.get_file_part(FilePartId::Part(3)), Ok(None));
    acknowledge(&mut file, &mut folder, FilePartIdRangeInclusive::new_single(FilePartId::Header));
    // The header is handed out whether it remains or not.
    assert!(matches!(
        file.get_file_part(FilePartId::Header),
        Ok(Some(PartSource::Header(_)))
    ));

    // Every part that remains reads the same before and after the split.
    let mut before = Vec::new();
    for part in 0..10 {
        let source = file.get_file_part(FilePartId::Part(part)).unwrap();
        before.push(source.map(|s| folder.read(&s)));
    }
    for part in 0..10usize {
        if part != 3 {
            let end = (part * 10 + 10).min(95);
            assert_eq!(before[part], Some(all[part * 10..end].to_vec()));
        }
    }
    let effect = file.trigger_file_split().unwrap();
    folder.split(&effect);
    for part in 0..10u32 {
        let source = file.get_file_part(FilePartId::Part(part)).unwrap();
        if part == 3 {
            assert_eq!(source, None);
        } else {
            assert_eq!(source, Some(PartSource::PartFile { part }));
        }
        assert_eq!(source.map(|s| folder.read(&s)), before[part as usize]);
    }
    assert_eq!(
        file.data_chunk(2, vec![1, 2]),
        Chunk::Data(DataChunk { file_id: file.header().id, part: 2, data: vec![1, 2] })
    );
}

#[test]
fn split_copies_go_from_the_last_part_down() {
    let (mut file, mut folder) = make_test_managed_file(95, 10);
    acknowledge(
        &mut file,
        &mut folder,
        FilePartIdRangeInclusive::new(FilePartId::Part(2), FilePartId::Part(7)),
    );
    assert_eq!(file.chunks_saved_by_splitting(), 6);
    let effect = file.trigger_file_split().unwrap();
    assert_eq!(
        effect.copies,
        vec![
            PartCopy { part: 9, offset: 90, len: 5 },
            PartCopy { part: 8, offset: 80, len: 10 },
            PartCopy { part: 1, offset: 10, len: 10 },
            PartCopy { part: 0, offset: 0, len: 10 },
        ]
    );
    assert_eq!(effect.mode_bin, vec![1]);
    assert_eq!(file.mode(), ManagedFileMode::Split);
    assert_eq!(file.mode_bytes(), vec![1]);
    assert_eq!(file.chunks_saved_by_splitting(), 0);
    assert_eq!(file.calc_remaining_data_size(), 35);
    assert_eq!(file.trigger_file_split(), Err(ManagedFileError::AlreadySplit));
    folder.split(&effect);
    assert_equal_after_parsing(&folder, &file);
}

#[test]
fn acknowledging_only_ever_takes_parts_away() {
    let (mut file, mut folder) = make_test_managed_file(100, 10);
    let ranges = [
        FilePartIdRangeInclusive::new(FilePartId::Part(4), FilePartId::Part(6)),
        FilePartIdRangeInclusive::new(FilePartId::Part(5), FilePartId::Part(8)),
        FilePartIdRangeInclusive::new(FilePartId::Part(4), FilePartId::Part(6)),
        FilePartIdRangeInclusive::new(FilePartId::Header, FilePartId::Header),
        FilePartIdRangeInclusive::new(FilePartId::Part(20), FilePartId::Part(30)),
        FilePartIdRangeInclusive::new(FilePartId::Part(9), FilePartId::Part(u32::MAX - 1)),
    ];
    let mut before: Vec<FilePartId> = file.remaining_parts().iter().map(|p| p.part).collect();
    for range in ranges {
        let effect = file.acknowledge_file_parts(range);
        folder.acknowledge(&effect);
        let after: Vec<FilePartId> = file.remaining_parts().iter().map(|p| p.part).collect();
        assert!(after.iter().all(|p| before.contains(p)));
        assert!(after.iter().all(|p| !range.contains(*p)));
        assert_eq!(
            after.len(),
            before.iter().filter(|p| !range.contains(**p)).count()
        );
        // The same again changes nothing on disk.
        let again = file.acknowledge_file_parts(range);
        assert_eq!(again.truncate_data_to, None);
        assert_eq!(again.removed_parts, Vec::<u32>::new());
        assert_eq!(again.state_bin, effect.state_bin);
        assert_equal_after_parsing(&folder, &file);
        before = after;
    }
    assert_eq!(before, vec![FilePartId::Part(0), FilePartId::Part(1), FilePartId::Part(2), FilePartId::Part(3)]);
    assert_eq!(data_len(&folder), 40);
}

#[test]
fn priority_goes_down_by_one_in_place() {
    let (mut file, mut folder) = make_test_managed_file(30, 10);
    let patch = file.decrease_part_priority(FilePartId::Part(1)).unwrap();
    assert_eq!(patch, StatePatch { offset: 12, record: vec![2, 0, 0, 0, 0xFF, 0xFF] });
    folder.patch(&patch);
    assert_eq!(folder.state_bin.as_ref().unwrap(), &file.state_bytes());
    let patch = file.decrease_part_priority(FilePartId::Part(1)).unwrap();
    folder.patch(&patch);
    assert_eq!(
        file.remaining_parts()[2],
        ManagedFileStatePart { part: FilePartId::Part(1), priority: -2 }
    );
    assert_eq!(file.decrease_part_priority(FilePartId::Part(3)), None);
    assert_equal_after_parsing(&folder, &file);

    let state_bin = file.set_all_parts_priorities(i16::MIN);
    folder.state_bin = Some(state_bin);
    assert!(file.remaining_parts().iter().all(|p| p.priority == i16::MIN));
    // At the lowest priority there is nothing to take off.
    let patch = file.decrease_part_priority(FilePartId::Header).unwrap();
    assert_eq!(patch, StatePatch { offset: 0, record: vec![0, 0, 0, 0, 0x00, 0x80] });
    assert_eq!(file.remaining_parts()[0].priority, i16::MIN);
    assert_equal_after_parsing(&folder, &file);
}

#[test]
fn recovery_removes_what_is_missing_its_small_files() {
    let (_, folder) = make_test_managed_file(100, 10);
    for missing in 0..3 {
        let mut broken = folder.clone();
        match missing {
            0 => broken.header_bin = None,
            1 => broken.state_bin = None,
            _ => broken.mode_bin = None,
        }
        assert_eq!(
            ManagedFile::try_read_from_path(&broken.listing()),
            Ok(Recovery::Invalid)
        );
    }
    let mut no_data = folder.clone();
    no_data.data_bin = None;
    assert_eq!(ManagedFile::try_read_from_path(&no_data.listing()), Ok(Recovery::Invalid));
    assert_eq!(
        ManagedFile::try_read_from_path(&Folder::default().listing()),
        Ok(Recovery::Invalid)
    );
}

#[test]
fn recovery_refuses_small_files_that_cannot_be_read() {
    let (_, folder) = make_test_managed_file(100, 10);
    let mut bad_header = folder.clone();
    bad_header.header_bin.as_mut().unwrap().truncate(20);
    let mut bad_state = folder.clone();
    bad_state.state_bin.as_mut().unwrap().pop();
    let mut bad_mode = folder.clone();
    bad_mode.mode_bin = Some(vec![2]);
    let mut foreign_part = folder.clone();
    foreign_part.state_bin.as_mut().unwrap().extend_from_slice(&[11, 0, 0, 0, 0, 0]);
    let mut short_data = folder.clone();
    short_data.data_bin.as_mut().unwrap().truncate(99);
    for broken in [bad_header, bad_state, bad_mode, foreign_part, short_data] {
        assert_eq!(
            ManagedFile::try_read_from_path(&broken.listing()),
            Err(DecodeError::InvalidData)
        );
    }
}

#[test]
fn recovery_runs_an_interrupted_split_again() {
    let (mut file, mut folder) = make_test_managed_file(100, 10);
    acknowledge(
        &mut file,
        &mut folder,
        FilePartIdRangeInclusive::new(FilePartId::Part(3), FilePartId::Part(5)),
    );
    let mut split_file = ManagedFile::try_read_from_path(&folder.listing()).unwrap();
    let mut done = folder.clone();
    let effect = file.trigger_file_split().unwrap();
    done.split(&effect);
    if let Recovery::Valid(same, _) = &mut split_file {
        assert_eq!(same.mode(), ManagedFileMode::Contiguous);
    }

    // The split stops after any number of copies, before the mode changes.
    for steps in 0..=effect.copies.len() {
        let mut interrupted = folder.clone();
        interrupted.split_up_to(&effect, steps);
        let listing = interrupted.listing();
        match ManagedFile::try_read_from_path(&listing).unwrap() {
            Recovery::Valid(recovered, cleanup) => {
                assert_eq!(recovered, file);
                assert_eq!(cleanup.split, Some(effect.clone_for_test()));
                interrupted.clean(&listing, &cleanup);
                assert_eq!(interrupted, done);
                assert_equal_after_parsing(&interrupted, &file);
            }
            Recovery::Invalid => panic!("the file was lost"),
        }
    }

    // The split stops after the mode changed, before `data.bin` went.
    let mut stale = done.clone();
    stale.data_bin = folder.data_bin.clone();
    let listing = stale.listing();
    match ManagedFile::try_read_from_path(&listing).unwrap() {
        Recovery::Valid(recovered, cleanup) => {
            assert_eq!(recovered, file);
            assert!(cleanup.remove_data_bin);
            assert_eq!(cleanup.split, None);
            stale.clean(&listing, &cleanup);
            assert_eq!(stale, done);
        }
        Recovery::Invalid => panic!("the file was lost"),
    }
}

trait CloneForTest {
    fn clone_for_test(&self) -> Self;
}

impl CloneForTest for SplitEffect {
    fn clone_for_test(&self) -> Self {
        SplitEffect { copies: self.copies.clone(), mode_bin: self.mode_bin.clone() }
    }
}

#[test]
fn recovery_of_a_split_file_cleans_the_data_folder() {
    let (mut file, mut folder) = make_test_managed_file(50, 10);
    let effect = file.trigger_file_split().unwrap();
    folder.split(&effect);
    acknowledge(&mut file, &mut folder, FilePartIdRangeInclusive::new_single(FilePartId::Part(2)));

    let mut littered = folder.clone();
    {
        let dir = littered.data_dir.as_mut().unwrap();
        dir.insert(b"2.bin".to_vec(), vec![1]);
        dir.insert(b"notes.txt".to_vec(), vec![2]);
        dir.insert(b"07.bin".to_vec(), vec![3]);
        dir.insert(b"header.bin".to_vec(), vec![4]);
        dir.insert(b"9.bin".to_vec(), vec![5]);
        dir.insert(b".bin".to_vec(), vec![6]);
    }
    let listing = littered.listing();
    match ManagedFile::try_read_from_path(&listing).unwrap() {
        Recovery::Valid(recovered, cleanup) => {
            assert_eq!(recovered, file);
            assert_eq!(cleanup.remove_data_files.len(), 6);
            assert!(!cleanup.remove_data_bin);
            littered.clean(&listing, &cleanup);
            assert_eq!(littered, folder);
        }
        Recovery::Invalid => panic!("the file was lost"),
    }

    // A part without its file: the data are gone.
    let mut lost = folder.clone();
    lost.data_dir.as_mut().unwrap().remove(&b"3.bin".to_vec());
    assert_eq!(ManagedFile::try_read_from_path(&lost.listing()), Ok(Recovery::Invalid));
    let mut no_dir = folder.clone();
    no_dir.data_dir = None;
    assert_eq!(ManagedFile::try_read_from_path(&no_dir.listing()), Ok(Recovery::Invalid));
}

#[test]
fn part_files_are_named_by_number() {
    assert_eq!(part_file_name_of(0), b"0.bin".to_vec());
    assert_eq!(part_file_name_of(10), b"10.bin".to_vec());
    assert_eq!(part_file_name_of(u32::MAX), b"4294967295.bin".to_vec());
    assert_eq!(part_of_file_name(b"0.bin"), Some(0));
    assert_eq!(part_of_file_name(b"123456.bin"), Some(123456));
    assert_eq!(part_of_file_name(b"4294967295.bin"), Some(u32::MAX));
    for bad in [
        &b"4294967296.bin"[..],
        b"01.bin",
        b".bin",
        b"bin",
        b"1.bim",
        b"1.binx",
        b"-1.bin",
        b"1 .bin",
        b"header.bin",
        b"",
        b"12",
    ] {
        assert_eq!(part_of_file_name(bad), None, "{:?}", bad);
    }
}

#[test]
fn files_of_uneven_size_are_cut_and_kept_whole() {
    for (size, part_size) in [(0u64, 64u64), (1, 64), (63, 64), (64, 64), (65, 64), (1024, 64), (1000, 7)] {
        let (mut file, mut folder) = make_test_managed_file(size, part_size);
        let all = file_bytes(size);
        let mut read_back = Vec::new();
        for part in 0..file.header().part_count {
            let source = file.get_file_part(FilePartId::Part(part)).unwrap().unwrap();
            read_back.extend(folder.read(&source));
        }
        assert_eq!(read_back, all);
        let effect = file.trigger_file_split().unwrap();
        folder.split(&effect);
        let mut read_back = Vec::new();
        for part in 0..file.header().part_count {
            let source = file.get_file_part(FilePartId::Part(part)).unwrap().unwrap();
            read_back.extend(folder.read(&source));
        }
        assert_eq!(read_back, all);
        assert_eq!(file.calc_remaining_data_size(), size);
        assert_equal_after_parsing(&folder, &file);
    }
}
