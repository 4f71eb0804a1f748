//! One downlink session: the parts that were in storage when the session
//! began go out in order, round after round, until nothing of them remains.
//!
//! The order is fixed when the session begins. What the receiver
//! acknowledges meanwhile is passed over when its turn comes; files that
//! arrive meanwhile wait for the next session.

use crate::control::ControlMessage;
use crate::file_id::FileId;
use crate::file_part_id::FilePartId;
use crate::managed_file::{ManagedFileError, ManagedFileView, PartSource, PartSourceView, StatePatch};
use crate::storage_manager::precedence::StorageFilePart;
use crate::storage_manager::sending_order::{sending_order, sort_for_sending};
use crate::storage_manager::{after_control, after_sending, control_outcome, file_index, has_file, sending_patch, snapshot, ControlOutcome, StorageManager};
use vstd::prelude::*;

verus! {

/// Whether a part that was queued can still go out: its file is in storage
/// and the part remains.
pub open spec fn sendable(files: Seq<ManagedFileView>, item: StorageFilePart) -> bool {
    has_file(files, item.file_id) && files[file_index(files, item.file_id)].has(item.part_id)
}

/// The place in a round of `len` places that lies `steps` places behind
/// `start`.
pub open spec fn turn(start: int, steps: int, len: int) -> int {
    if start + steps < len {
        start + steps
    } else {
        start + steps - len
    }
}

/// A part that goes out next, and where its chunk is to be had.
#[derive(Debug, PartialEq, Eq)]
pub struct NextChunk {
    pub file_id: FileId,
    pub part_id: FilePartId,
    pub source: PartSource,
}

pub struct NextChunkView {
    pub file_id: FileId,
    pub part_id: FilePartId,
    pub source: PartSourceView,
}

impl View for NextChunk {
    type V = NextChunkView;

    open spec fn view(&self) -> NextChunkView {
        NextChunkView { file_id: self.file_id, part_id: self.part_id, source: self.source@ }
    }
}

/// Whether `chunk` is the part that goes out next when the queue stands at
/// `position`: the part that lies `steps` places on, the first from there
/// that can still go out; and after it the queue stands at `new_position`,
/// one place further on.
pub open spec fn goes_next(
    files: Seq<ManagedFileView>,
    queue: Seq<StorageFilePart>,
    position: int,
    steps: int,
    chunk: NextChunkView,
    new_position: int,
) -> bool {
    let len = queue.len() as int;
    let item = queue[turn(position, steps, len)];
    &&& 0 <= steps < len
    &&& forall|k: int| 0 <= k < steps ==> !sendable(files, #[trigger] queue[turn(position, k, len)])
    &&& sendable(files, item)
    &&& chunk.file_id == item.file_id
    &&& chunk.part_id == item.part_id
    &&& files[file_index(files, item.file_id)].source_of(item.part_id) == Ok::<
        Option<PartSourceView>,
        ManagedFileError,
    >(Some(chunk.source))
    &&& new_position == turn(position, steps + 1, len)
}

/// A session in progress.
#[derive(Debug, PartialEq, Eq)]
pub struct DownlinkSession {
    storage: StorageManager,
    parts_queue: Vec<StorageFilePart>,
    parts_queue_index: usize,
}

impl DownlinkSession {
    /// The files in storage as they stand.
    pub closed spec fn files(&self) -> Seq<ManagedFileView> {
        self.storage@
    }

    /// The storage that the session works on.
    pub closed spec fn held(&self) -> StorageManager {
        self.storage
    }

    /// The parts that were queued when the session began, in the order in
    /// which they go out.
    pub closed spec fn queue(&self) -> Seq<StorageFilePart> {
        self.parts_queue@
    }

    /// The place in the queue of the part whose turn is next.
    pub closed spec fn position(&self) -> int {
        self.parts_queue_index as int
    }

    pub open spec fn wf(&self) -> bool {
        &&& self.held().wf()
        &&& self.files() == self.held()@
        &&& 0 <= self.position()
        &&& self.position() < self.queue().len() || (self.queue().len() == 0 && self.position()
            == 0)
    }

    /// Begins a session on the storage: every part in it is queued, in the
    /// order in which parts go out.
    pub fn new(storage: StorageManager) -> (session: Self)
        requires
            storage.wf(),
        ensures
            session.wf(),
            session.held() == storage,
            session.queue() == sending_order(snapshot(storage@)),
            session.position() == 0,
    {
        let parts_queue = sort_for_sending(storage.iter_remaining_storage_file_parts());
        Self { storage, parts_queue, parts_queue_index: 0 }
    }

    /// The storage that the session works on.
    pub fn storage(&self) -> (storage: &StorageManager)
        ensures
            *storage == self.held(),
    {
        &self.storage
    }

    /// Applies a control message to the storage. The queue stays as it is.
    pub fn process_control(&mut self, control: ControlMessage) -> (outcome: ControlOutcome)
        requires
            old(self).wf(),
        ensures
            final(self).wf(),
            final(self).queue() == old(self).queue(),
            final(self).position() == old(self).position(),
            final(self).held().settings() == old(self).held().settings(),
            final(self).files() == after_control(old(self).files(), control),
            control_outcome(old(self).files(), control, outcome),
    {
        self.storage.process_control(control)
    }

    /// Notes that a part went out. The queue stays as it is.
    pub fn confirm_file_sent(&mut self, file_id: FileId, part_id: FilePartId) -> (patch: Option<
        StatePatch,
    >)
        requires
            old(self).wf(),
        ensures
            final(self).wf(),
            final(self).queue() == old(self).queue(),
            final(self).position() == old(self).position(),
            final(self).held().settings() == old(self).held().settings(),
            final(self).files() == after_sending(old(self).files(), file_id, part_id),
            match patch {
                Some(p) => sending_patch(old(self).files(), file_id, part_id) == Some(p@),
                None => sending_patch(old(self).files(), file_id, part_id) is None,
            },
    {
        self.storage.confirm_file_sent(file_id, part_id)
    }

    /// The next part that goes out. The queue is gone through from where it
    /// stands, and round again from its start; parts that cannot go out any
    /// more are passed over. There is none if the round comes back to where
    /// it began.
    pub fn next_chunk(&mut self) -> (next: Option<NextChunk>)
        requires
            old(self).wf(),
        ensures
            final(self).wf(),
            final(self).held() == old(self).held(),
            final(self).queue() == old(self).queue(),
            match next {
                Some(chunk) => exists|steps: int| #[trigger]
                    goes_next(
                        old(self).files(),
                        old(self).queue(),
                        old(self).position(),
                        steps,
                        chunk@,
                        final(self).position(),
                    ),
                None => final(self).position() == old(self).position() && forall|k: int|
                    0 <= k < old(self).queue().len() ==> !sendable(
                        old(self).files(),
                        #[trigger] old(self).queue()[k],
                    ),
            },
    {
        let len = self.parts_queue.len();
        let start = self.parts_queue_index;
        let mut tried: usize = 0;
        while tried < len
            invariant
                self.wf(),
                self.held() == old(self).held(),
                self.queue() == old(self).queue(),
                len == self.queue().len(),
                start == old(self).position(),
                start < len || len == 0,
                tried <= len,
                self.position() == turn(start as int, tried as int, len as int),
                forall|k: int|
                    0 <= k < tried ==> !sendable(
                        self.files(),
                        #[trigger] self.queue()[turn(start as int, k, len as int)],
                    ),
            decreases len - tried,
        {
            let at = self.parts_queue_index;
            let item = self.parts_queue[at];
            self.parts_queue_index = if at + 1 >= len {
                0
            } else {
                at + 1
            };
            tried += 1;
            let found = match self.storage.get_file(item.file_id) {
                Some(file) => {
                    // A part that was acknowledged meanwhile is passed over.
                    if file.has_part(item.part_id) {
                        match file.get_file_part(item.part_id) {
                            Ok(Some(source)) => Some(source),
                            _ => None,
                        }
                    } else {
                        None
                    }
                },
                // The file is gone.
                None => None,
            };
            if let Some(source) = found {
                let chunk = NextChunk { file_id: item.file_id, part_id: item.part_id, source };
                proof {
                    let steps = tried as int - 1;
                    assert(old(self).queue()[turn(start as int, steps, len as int)] == item);
                    assert(goes_next(
                        old(self).files(),
                        old(self).queue(),
                        old(self).position(),
                        steps,
                        chunk@,
                        self.position(),
                    ));
                }
                return Some(chunk);
            }
            proof {
                let file = self.files()[file_index(self.files(), item.file_id)];
                if sendable(self.files(), item) {
                    assert(file.wf());
                    lemma_source_of_remaining(file, item.part_id);
                }
            }
        }
        proof {
            assert forall|k: int| 0 <= k < len implies !sendable(
                old(self).files(),
                #[trigger] old(self).queue()[k],
            ) by {
                let steps = if k >= start {
                    k - start
                } else {
                    k + len - start
                };
                assert(turn(start as int, steps, len as int) == k);
            }
        }
        None
    }

    /// Ends the session and gives the storage back.
    pub fn into_storage_manager(self) -> (storage: StorageManager)
        ensures
            storage == self.held(),
    {
        self.storage
    }
}

/// A part that remains has a source.
pub proof fn lemma_source_of_remaining(file: ManagedFileView, part: FilePartId)
    requires
        file.wf(),
        file.has(part),
    ensures
        file.source_of(part) is Ok,
        file.source_of(part)->Ok_0 is Some,
{
    if part is Part {
        let i = choose|i: int| 0 <= i < file.parts.len() && (#[trigger] file.parts[i]).part == part;
        assert(file.parts[i].part is Part);
    }
}

} // verus!
