//! Admitting a file: room is made for it, and it is given a header and a
//! record of its own.

use crate::chunks::{generate_file_header, parts_needed, HeaderChunk, HeaderChunkView, MAX_NAME_LEN};
use crate::file_id::FileId;
use crate::managed_file::{create_effect, created, CreateEffect, ManagedFile, ManagedFileView};
use crate::storage_manager::eviction::{eviction_run, steps_of, EvictionStep};
use crate::storage_manager::{has_file, StorageError, StorageManager, StorageManagerConfig};
use vstd::prelude::*;
use vstd::utf8::encode_utf8;

verus! {

/// What admitting a file did: the header that the file was given, the parts
/// that were given up to make room, and what creating the file writes.
#[derive(Debug, PartialEq, Eq)]
pub struct Admission {
    pub header: HeaderChunk,
    pub evictions: Vec<EvictionStep>,
    pub create: CreateEffect,
}

/// The header of a file that is admitted.
pub open spec fn admitted_header(
    id: FileId,
    name: Seq<char>,
    size: u64,
    date: i64,
    part_size: u32,
) -> HeaderChunkView {
    HeaderChunkView {
        id,
        name,
        date,
        part_count: parts_needed(size as nat, part_size as nat) as u32,
        size,
        file_part_size: part_size,
    }
}

/// Why a file is not admitted, if it is not: no header can be made for it;
/// or it is larger than the storage may be; or its identifier is taken.
pub open spec fn admission_error(
    files: Seq<ManagedFileView>,
    config: StorageManagerConfig,
    id: FileId,
    name: Seq<char>,
    size: u64,
) -> Option<StorageError> {
    if encode_utf8(name).len() > MAX_NAME_LEN || parts_needed(
        size as nat,
        config.new_file_chunk_size as nat,
    ) > u32::MAX {
        Some(StorageError::InvalidHeader)
    } else if config.max_folder_size is Some && size > config.max_folder_size->Some_0 {
        Some(StorageError::FileTooLarge)
    } else if has_file(files, id) {
        Some(StorageError::DuplicateFile)
    } else {
        None
    }
}

/// The bytes that the files in storage may take beside a new file of `size`
/// bytes.
pub open spec fn room_beside(max: u64, size: u64) -> nat {
    (max - size) as nat
}

/// Whether `after` and `outcome` are what admitting a file to the files
/// `before` comes to.
pub open spec fn admission(
    before: Seq<ManagedFileView>,
    after: Seq<ManagedFileView>,
    config: StorageManagerConfig,
    id: FileId,
    name: Seq<char>,
    size: u64,
    date: i64,
    outcome: Result<Admission, StorageError>,
) -> bool {
    match outcome {
        Err(e) => after == before && admission_error(before, config, id, name, size) == Some(e),
        Ok(admitted) => {
            let header = admitted_header(id, name, size, date, config.new_file_chunk_size);
            &&& admission_error(before, config, id, name, size) is None
            &&& admitted.header@ == header
            &&& admitted.create@ == create_effect(header)
            &&& after.len() > 0
            &&& after.last() == created(header)
            &&& match config.max_folder_size {
                Some(max) => exists|trace: Seq<Seq<ManagedFileView>>|
                    eviction_run(
                        before,
                        after.drop_last(),
                        steps_of(admitted.evictions@),
                        config.split_file_if_n_chunks_saved,
                        room_beside(max, size),
                        trace,
                    ),
                None => after.drop_last() == before && admitted.evictions@.len() == 0,
            }
        },
    }
}

impl StorageManager {
    /// Admits a file under the identifier `id`. Where the storage has a
    /// limit, a file that is larger than the limit is refused, and for any
    /// other file parts are given up until the file fits in beside what is
    /// left.
    pub fn add_file_with_id(&mut self, id: FileId, name: String, size: u64, date: i64) -> (r: Result<
        Admission,
        StorageError,
    >)
        requires
            old(self).wf(),
        ensures
            final(self).wf(),
            final(self).settings() == old(self).settings(),
            admission(old(self)@, final(self)@, old(self).settings(), id, name@, size, date, r),
    {
        let config = self.config();
        let ghost before = self@;
        let header = match generate_file_header(id, name, size, date, config.new_file_chunk_size) {
            Some(header) => header,
            None => {
                return Err(StorageError::InvalidHeader);
            },
        };
        let mut evictions: Vec<EvictionStep> = Vec::new();
        if let Some(max_folder_size) = config.max_folder_size {
            if max_folder_size < header.size {
                return Err(StorageError::FileTooLarge);
            }
        }
        if self.position(id).is_some() {
            return Err(StorageError::DuplicateFile);
        }
        let ghost mut trace: Seq<Seq<ManagedFileView>> = Seq::empty();
        if let Some(max_folder_size) = config.max_folder_size {
            let remaining_size = max_folder_size - header.size;
            evictions = self.delete_parts_until_max_size_reached(remaining_size);
            proof {
                trace = choose|trace: Seq<Seq<ManagedFileView>>|
                    eviction_run(
                        before,
                        self@,
                        steps_of(evictions@),
                        config.split_file_if_n_chunks_saved,
                        remaining_size as nat,
                        trace,
                    );
                assert(eviction_run(
                    before,
                    self@,
                    steps_of(evictions@),
                    config.split_file_if_n_chunks_saved,
                    room_beside(max_folder_size, size),
                    trace,
                ));
            }
        }
        let ghost middle = self@;
        let ghost given_up = steps_of(evictions@);
        let (file, create) = match ManagedFile::create_new_from_header(header.clone()) {
            Ok(made) => made,
            Err(_) => {
                assert(false);
                return Err(StorageError::InvalidHeader);
            },
        };
        self.push_file(file);
        proof {
            assert(self@.drop_last() =~= middle);
            assert(self@.last() == created(header@));
        }
        let admitted = Admission { header, evictions, create };
        proof {
            if let Some(max) = config.max_folder_size {
                assert(steps_of(admitted.evictions@) == given_up);
                assert(eviction_run(
                    before,
                    self@.drop_last(),
                    steps_of(admitted.evictions@),
                    config.split_file_if_n_chunks_saved,
                    room_beside(max, size),
                    trace,
                ));
            }
        }
        Ok(admitted)
    }

    /// Admits a file under a fresh identifier, drawn at random.
    pub fn add_file_from_path(&mut self, name: String, size: u64, date: i64) -> (r: Result<
        Admission,
        StorageError,
    >)
        requires
            old(self).wf(),
        ensures
            final(self).wf(),
            final(self).settings() == old(self).settings(),
            exists|id: FileId|
                admission(old(self)@, final(self)@, old(self).settings(), id, name@, size, date, r),
    {
        let id = FileId::random();
        let r = self.add_file_with_id(id, name, size, date);
        assert(admission(old(self)@, self@, old(self).settings(), id, name@, size, date, r));
        r
    }
}

} // verus!
