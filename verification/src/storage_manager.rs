//! The sender's storage: the managed files, by their identifiers.
//!
//! The files are kept in the order in which they were admitted. No two have
//! the same identifier. Control messages from the receiver are routed to the
//! file they name; a message for a file that is not there changes nothing.

pub mod admission;
pub mod eviction;
pub mod precedence;
pub mod sending_order;

use crate::chunks::MAX_PART_LEN;
use crate::control::ControlMessage;
use crate::file_id::FileId;
use crate::file_part_id::FilePartId;
use crate::managed_file::state::{parts_wire, ManagedFileStatePart};
use crate::managed_file::{AckEffect, ManagedFile, ManagedFileView, StatePatch, StatePatchView};
use crate::storage_manager::precedence::StorageFilePart;
use vstd::prelude::*;

verus! {

/// How the storage is run.
#[derive(Debug, Clone, Copy, PartialEq, Eq, Structural)]
pub struct StorageManagerConfig {
    /// The size of the parts into which new files are cut: more than 0 and
    /// at most 1 MiB.
    pub new_file_chunk_size: u32,
    /// The most bytes of data that the storage may hold.
    pub max_folder_size: Option<u64>,
    /// Split a file when that gives back this many part slots or more.
    pub split_file_if_n_chunks_saved: Option<u32>,
}

impl StorageManagerConfig {
    pub open spec fn valid(self) -> bool {
        0 < self.new_file_chunk_size <= MAX_PART_LEN
    }

    pub fn is_valid(&self) -> (ok: bool)
        ensures
            ok == self.valid(),
    {
        0 < self.new_file_chunk_size && self.new_file_chunk_size <= MAX_PART_LEN
    }
}

/// Why the storage refuses a request.
#[derive(Debug, Clone, Copy, PartialEq, Eq, Structural)]
pub enum StorageError {
    /// The part size of the configuration is 0 or more than 1 MiB.
    InvalidConfig,
    /// Two files have the same identifier.
    DuplicateFile,
    /// No header can be made for the file.
    InvalidHeader,
    /// The file alone is larger than the storage may be.
    FileTooLarge,
}

/// Whether a file with the identifier `id` is among `files`.
pub open spec fn has_file(files: Seq<ManagedFileView>, id: FileId) -> bool {
    exists|i: int| 0 <= i < files.len() && (#[trigger] files[i]).header.id == id
}

/// Where among `files` the file with the identifier `id` stands.
pub open spec fn file_index(files: Seq<ManagedFileView>, id: FileId) -> int {
    choose|i: int| 0 <= i < files.len() && (#[trigger] files[i]).header.id == id
}

/// No two files have the same identifier.
pub open spec fn distinct_ids(files: Seq<ManagedFileView>) -> bool {
    forall|i: int, j: int|
        0 <= i < j < files.len() ==> (#[trigger] files[i]).header.id != (#[trigger] files[j]).header.id
}

/// Every file is well-formed.
pub open spec fn all_wf(files: Seq<ManagedFileView>) -> bool {
    forall|i: int| 0 <= i < files.len() ==> (#[trigger] files[i]).wf()
}

/// The parts of one file as parts in storage.
pub open spec fn file_snapshot(file: ManagedFileView) -> Seq<StorageFilePart> {
    Seq::new(
        file.parts.len(),
        |k: int|
            StorageFilePart {
                file_id: file.header.id,
                part_id: file.parts[k].part,
                priority: file.parts[k].priority,
            },
    )
}

/// All the parts in storage: file by file in the order of the files, and
/// within a file in rising order.
pub open spec fn snapshot(files: Seq<ManagedFileView>) -> Seq<StorageFilePart>
    decreases files.len(),
{
    if files.len() == 0 {
        Seq::empty()
    } else {
        snapshot(files.drop_last()) + file_snapshot(files.last())
    }
}

/// The file with every part that remains at the priority `priority`.
pub open spec fn prioritized(file: ManagedFileView, priority: i16) -> ManagedFileView {
    ManagedFileView {
        parts: Seq::new(
            file.parts.len(),
            |k: int| ManagedFileStatePart { part: file.parts[k].part, priority },
        ),
        ..file
    }
}

/// The files after a control message.
pub open spec fn after_control(files: Seq<ManagedFileView>, message: ControlMessage) -> Seq<
    ManagedFileView,
> {
    match message {
        ControlMessage::ConfirmPart(confirm) => if has_file(files, confirm.file_id) {
            let i = file_index(files, confirm.file_id);
            let file = files[i].acknowledged(confirm.part_range);
            if file.parts.len() == 0 {
                files.remove(i)
            } else {
                files.update(i, file)
            }
        } else {
            files
        },
        ControlMessage::DeleteFile(delete) => if has_file(files, delete.file_id) {
            files.remove(file_index(files, delete.file_id))
        } else {
            files
        },
        ControlMessage::SetFilePriority(set) => if has_file(files, set.file_id) {
            let i = file_index(files, set.file_id);
            files.update(i, prioritized(files[i], set.priority))
        } else {
            files
        },
    }
}

/// The files after a part of one of them went out once more.
pub open spec fn after_sending(files: Seq<ManagedFileView>, file_id: FileId, part_id: FilePartId) -> Seq<
    ManagedFileView,
> {
    if has_file(files, file_id) {
        let i = file_index(files, file_id);
        files.update(i, files[i].sent(part_id))
    } else {
        files
    }
}

/// The record of `state.bin` that changes when a part of a file goes out
/// once more; none where the file is not in storage or the part does not
/// remain.
pub open spec fn sending_patch(files: Seq<ManagedFileView>, file_id: FileId, part_id: FilePartId) -> Option<
    StatePatchView,
> {
    if has_file(files, file_id) {
        files[file_index(files, file_id)].sent_patch(part_id)
    } else {
        None
    }
}

/// Whether `outcome` is what applying `control` to `files` comes to on
/// disk.
pub open spec fn control_outcome(
    files: Seq<ManagedFileView>,
    control: ControlMessage,
    outcome: ControlOutcome,
) -> bool {
    if !has_file(files, control.about()) {
        outcome is Ignored
    } else {
        let file = files[file_index(files, control.about())];
        match control {
            ControlMessage::ConfirmPart(confirm) => {
                &&& outcome matches ControlOutcome::Acknowledged { effect, finished }
                &&& effect@ == file.ack_effect(confirm.part_range)
                &&& finished == (file.acknowledged(confirm.part_range).parts.len() == 0)
            },
            ControlMessage::DeleteFile(_) => outcome is Deleted,
            ControlMessage::SetFilePriority(set) => {
                &&& outcome matches ControlOutcome::PrioritySet { state_bin }
                &&& state_bin@ == parts_wire(prioritized(file, set.priority).parts)
            },
        }
    }
}

/// What a control message did, and what is to be done to the directory of
/// the file that it names.
#[derive(Debug, PartialEq, Eq)]
pub enum ControlOutcome {
    /// The message names no file in storage.
    Ignored,
    /// Parts were released. Where the file is finished, its directory goes
    /// once the effect is done.
    Acknowledged { effect: AckEffect, finished: bool },
    /// The file was dropped: its directory goes.
    Deleted,
    /// The priorities were set: `state.bin` is rewritten with these bytes.
    PrioritySet { state_bin: Vec<u8> },
}

/// Where the file with the identifier `id` stands, in a list without
/// duplicates.
pub proof fn lemma_file_index(files: Seq<ManagedFileView>, id: FileId, i: int)
    requires
        distinct_ids(files),
        0 <= i < files.len(),
        files[i].header.id == id,
    ensures
        has_file(files, id),
        file_index(files, id) == i,
{
    let j = file_index(files, id);
    assert(files[j].header.id == id);
    if j < i {
        assert(files[j].header.id != files[i].header.id);
    } else if i < j {
        assert(files[i].header.id != files[j].header.id);
    }
}

/// Taking a file out, or changing one without touching its header, keeps a
/// list of well-formed files with distinct identifiers what it is.
pub proof fn lemma_files_stay_wf(files: Seq<ManagedFileView>, i: int, file: ManagedFileView)
    requires
        all_wf(files),
        distinct_ids(files),
        0 <= i < files.len(),
        file.wf(),
        file.header == files[i].header,
    ensures
        all_wf(files.remove(i)),
        distinct_ids(files.remove(i)),
        all_wf(files.update(i, file)),
        distinct_ids(files.update(i, file)),
{
    let removed = files.remove(i);
    assert forall|a: int| 0 <= a < removed.len() implies (#[trigger] removed[a]).wf() by {
        if a < i {
            assert(removed[a] == files[a]);
        } else {
            assert(removed[a] == files[a + 1]);
        }
    }
    assert forall|a: int, b: int| 0 <= a < b < removed.len() implies (#[trigger] removed[a]).header.id
        != (#[trigger] removed[b]).header.id by {
        let a0 = if a < i {
            a
        } else {
            a + 1
        };
        let b0 = if b < i {
            b
        } else {
            b + 1
        };
        assert(removed[a] == files[a0]);
        assert(removed[b] == files[b0]);
        assert(files[a0].header.id != files[b0].header.id);
    }
    let updated = files.update(i, file);
    assert forall|a: int| 0 <= a < updated.len() implies (#[trigger] updated[a]).wf() by {
        if a != i {
            assert(updated[a] == files[a]);
        }
    }
    assert forall|a: int, b: int| 0 <= a < b < updated.len() implies (#[trigger] updated[a]).header.id
        != (#[trigger] updated[b]).header.id by {
        assert(updated[a].header.id == files[a].header.id);
        assert(updated[b].header.id == files[b].header.id);
        assert(files[a].header.id != files[b].header.id);
    }
}

/// The managed files of the sender.
#[derive(Debug, PartialEq, Eq)]
pub struct StorageManager {
    files: Vec<ManagedFile>,
    config: StorageManagerConfig,
}

impl View for StorageManager {
    type V = Seq<ManagedFileView>;

    closed spec fn view(&self) -> Seq<ManagedFileView> {
        Seq::new(self.files@.len(), |i: int| self.files@[i]@)
    }
}

impl StorageManager {
    /// The configuration is valid, the files are well-formed, and no two
    /// have the same identifier.
    pub open spec fn wf(&self) -> bool {
        &&& self.settings().valid()
        &&& all_wf(self@)
        &&& distinct_ids(self@)
    }

    /// The configuration that the storage was made with.
    pub closed spec fn settings(&self) -> StorageManagerConfig {
        self.config
    }

    /// The storage that holds the files that were found on disk. It is
    /// refused where the configuration is not valid or two files have the
    /// same identifier.
    pub fn new(files: Vec<ManagedFile>, config: StorageManagerConfig) -> (r: Result<
        Self,
        StorageError,
    >)
        requires
            forall|i: int| 0 <= i < files@.len() ==> (#[trigger] files@[i]).wf(),
        ensures
            match r {
                Ok(storage) => {
                    &&& storage.wf()
                    &&& storage.settings() == config
                    &&& storage@ == Seq::new(files@.len(), |i: int| files@[i]@)
                },
                Err(e) => if !config.valid() {
                    e == StorageError::InvalidConfig
                } else {
                    e == StorageError::DuplicateFile && !distinct_ids(
                        Seq::new(files@.len(), |i: int| files@[i]@),
                    )
                },
            },
    {
        if !config.is_valid() {
            return Err(StorageError::InvalidConfig);
        }
        let storage = StorageManager { files, config };
        let ghost all = Seq::new(files@.len(), |i: int| files@[i]@);
        assert(storage@ =~= all);
        let mut j: usize = 0;
        while j < storage.files.len()
            invariant
                j <= storage.files@.len(),
                config.valid(),
                storage.config == config,
                storage@ == all,
                all == Seq::new(files@.len(), |i: int| files@[i]@),
                forall|a: int, b: int|
                    0 <= a < b < j ==> (#[trigger] storage@[a]).header.id != (#[trigger] storage@[b]).header.id,
            decreases storage.files@.len() - j,
        {
            let id = storage.files[j].header().id;
            let mut i: usize = 0;
            while i < j
                invariant
                    i <= j < storage.files@.len(),
                    config.valid(),
                    storage@ == all,
                    all == Seq::new(files@.len(), |i: int| files@[i]@),
                    id == storage@[j as int].header.id,
                    forall|a: int| 0 <= a < i ==> (#[trigger] storage@[a]).header.id != id,
                decreases j - i,
            {
                if storage.files[i].header().id == id {
                    proof {
                        assert(all[i as int].header.id == all[j as int].header.id);
                    }
                    return Err(StorageError::DuplicateFile);
                }
                i += 1;
            }
            j += 1;
        }
        Ok(storage)
    }

    /// The configuration.
    pub fn config(&self) -> (config: StorageManagerConfig)
        ensures
            config == self.settings(),
    {
        self.config
    }

    /// The files, in the order in which they were admitted.
    pub fn iter_files(&self) -> (files: &Vec<ManagedFile>)
        ensures
            files@.len() == self@.len(),
            forall|i: int| 0 <= i < files@.len() ==> (#[trigger] files@[i])@ == self@[i],
    {
        &self.files
    }

    /// Where the file with the identifier `file_id` stands.
    pub fn position(&self, file_id: FileId) -> (index: Option<usize>)
        ensures
            match index {
                Some(i) => i < self@.len() && self@[i as int].header.id == file_id,
                None => !has_file(self@, file_id),
            },
    {
        let mut i: usize = 0;
        while i < self.files.len()
            invariant
                i <= self@.len(),
                forall|a: int| 0 <= a < i ==> (#[trigger] self@[a]).header.id != file_id,
            decreases self@.len() - i,
        {
            if self.files[i].header().id == file_id {
                return Some(i);
            }
            i += 1;
        }
        None
    }

    /// The file with the identifier `file_id`, if it is in storage.
    pub fn get_file(&self, file_id: FileId) -> (file: Option<&ManagedFile>)
        requires
            self.wf(),
        ensures
            file is Some <==> has_file(self@, file_id),
            file is Some ==> file->Some_0.wf() && file->Some_0@ == self@[file_index(self@, file_id)],
    {
        match self.position(file_id) {
            Some(i) => {
                proof {
                    lemma_file_index(self@, file_id, i as int);
                    assert(self@[i as int] == self.files@[i as int]@);
                    assert(self@[i as int].wf());
                }
                Some(&self.files[i])
            },
            None => None,
        }
    }

    /// All the parts in storage with their priorities: file by file, and
    /// within a file in rising order.
    pub fn iter_remaining_storage_file_parts(&self) -> (parts: Vec<StorageFilePart>)
        ensures
            parts@ == snapshot(self@),
    {
        let mut parts: Vec<StorageFilePart> = Vec::new();
        let mut i: usize = 0;
        assert(self@.take(0) =~= Seq::<ManagedFileView>::empty());
        while i < self.files.len()
            invariant
                i <= self@.len(),
                parts@ == snapshot(self@.take(i as int)),
            decreases self@.len() - i,
        {
            let file = &self.files[i];
            let file_id = file.header().id;
            let remaining = file.remaining_parts();
            let ghost before = parts@;
            let mut k: usize = 0;
            while k < remaining.len()
                invariant
                    k <= remaining@.len(),
                    remaining@ == self@[i as int].parts,
                    file_id == self@[i as int].header.id,
                    parts@ == before + file_snapshot(self@[i as int]).take(k as int),
                decreases remaining@.len() - k,
            {
                parts.push(
                    StorageFilePart {
                        file_id,
                        part_id: remaining[k].part,
                        priority: remaining[k].priority,
                    },
                );
                assert(parts@ =~= before + file_snapshot(self@[i as int]).take(k + 1));
                k += 1;
            }
            proof {
                let next = self@.take(i + 1);
                assert(next.drop_last() =~= self@.take(i as int));
                assert(next.last() == self@[i as int]);
                assert(file_snapshot(self@[i as int]).take(remaining@.len() as int)
                    =~= file_snapshot(self@[i as int]));
            }
            i += 1;
        }
        assert(self@.take(self@.len() as int) =~= self@);
        parts
    }

    /// Takes the file at `index` out of the list, to be worked on.
    fn take_file(&mut self, index: usize) -> (file: ManagedFile)
        requires
            index < old(self)@.len(),
        ensures
            file@ == old(self)@[index as int],
            final(self)@ == old(self)@.remove(index as int),
            final(self).settings() == old(self).settings(),
    {
        let file = self.files.remove(index);
        assert(self@ =~= old(self)@.remove(index as int));
        file
    }

    /// Puts a file into the list at `index`.
    fn put_file(&mut self, index: usize, file: ManagedFile)
        requires
            index <= old(self)@.len(),
        ensures
            final(self)@ == old(self)@.insert(index as int, file@),
            final(self).settings() == old(self).settings(),
    {
        self.files.insert(index, file);
        assert(self@ =~= old(self)@.insert(index as int, file@));
    }

    /// Puts a file at the end of the list. Its identifier must be new.
    pub(crate) fn push_file(&mut self, file: ManagedFile)
        requires
            old(self).wf(),
            file.wf(),
            !has_file(old(self)@, file@.header.id),
        ensures
            final(self).wf(),
            final(self)@ == old(self)@.push(file@),
            final(self).settings() == old(self).settings(),
    {
        self.files.push(file);
        assert(self@ =~= old(self)@.push(file@));
        proof {
            let before = old(self)@;
            let after = self@;
            assert forall|a: int, b: int| 0 <= a < b < after.len() implies (#[trigger] after[a]).header.id
                != (#[trigger] after[b]).header.id by {
                if b < before.len() {
                    assert(before[a].header.id != before[b].header.id);
                } else {
                    assert(before[a].header.id != file@.header.id);
                }
            }
            assert forall|a: int| 0 <= a < after.len() implies (#[trigger] after[a]).wf() by {
                if a < before.len() {
                    assert(before[a].wf());
                }
            }
        }
    }

    /// Applies a control message from the receiver: parts that arrived are
    /// released, and a file of which nothing remains is dropped; a file that
    /// the receiver gave up is dropped; a file's priorities are set anew. A
    /// message for a file that is not in storage is ignored.
    pub fn process_control(&mut self, control: ControlMessage) -> (outcome: ControlOutcome)
        requires
            old(self).wf(),
        ensures
            final(self).wf(),
            final(self).settings() == old(self).settings(),
            final(self)@ == after_control(old(self)@, control),
            control_outcome(old(self)@, control, outcome),
    {
        let index = match self.position(control.file_id()) {
            Some(index) => index,
            None => {
                return ControlOutcome::Ignored;
            },
        };
        proof {
            lemma_file_index(self@, control.about(), index as int);
        }
        let ghost before = self@;
        let mut file = self.take_file(index);
        match control {
            ControlMessage::ConfirmPart(confirm) => {
                let effect = file.acknowledge_file_parts(confirm.part_range);
                let finished = file.is_finished();
                proof {
                    lemma_files_stay_wf(before, index as int, file@);
                }
                if !finished {
                    self.put_file(index, file);
                    assert(self@ =~= before.update(index as int, file@));
                }
                ControlOutcome::Acknowledged { effect, finished }
            },
            ControlMessage::DeleteFile(_) => {
                proof {
                    lemma_files_stay_wf(before, index as int, file@);
                }
                ControlOutcome::Deleted
            },
            ControlMessage::SetFilePriority(set) => {
                let state_bin = file.set_all_parts_priorities(set.priority);
                proof {
                    assert(file@.parts =~= prioritized(before[index as int], set.priority).parts);
                    lemma_files_stay_wf(before, index as int, file@);
                }
                self.put_file(index, file);
                assert(self@ =~= before.update(index as int, file@));
                ControlOutcome::PrioritySet { state_bin }
            },
        }
    }

    /// Notes that a part went out: its priority goes down by one, so that
    /// parts of equal priority take turns. Hands back the record of
    /// `state.bin` that changes; nothing where the file or the part is not
    /// in storage.
    pub fn confirm_file_sent(&mut self, file_id: FileId, part_id: FilePartId) -> (patch: Option<
        StatePatch,
    >)
        requires
            old(self).wf(),
        ensures
            final(self).wf(),
            final(self).settings() == old(self).settings(),
            final(self)@ == after_sending(old(self)@, file_id, part_id),
            match patch {
                Some(p) => sending_patch(old(self)@, file_id, part_id) == Some(p@),
                None => sending_patch(old(self)@, file_id, part_id) is None,
            },
    {
        let index = match self.position(file_id) {
            Some(index) => index,
            None => {
                return None;
            },
        };
        proof {
            lemma_file_index(self@, file_id, index as int);
        }
        let ghost before = self@;
        let mut file = self.take_file(index);
        let patch = file.decrease_part_priority(part_id);
        proof {
            lemma_files_stay_wf(before, index as int, file@);
        }
        self.put_file(index, file);
        assert(self@ =~= before.update(index as int, file@));
        patch
    }
}

} // verus!
