//! The receiver: it keeps what arrives, knows when a file is whole, and
//! tells the sender what it has.
//!
//! Each file has a work directory of its own:
//!
//! ```plaintext
//! finished          the file is whole and was handed out
//! data/header.json  the header, once it arrived
//! data/<N>.bin      body part N, once it arrived
//! ```
//!
//! The functions here decide; they touch no disk. `receive_chunk` says what
//! is to be stored, `ManagedReceivingFile` says whether a work directory
//! holds a whole file, and the ledger of what arrived is turned into as few
//! confirmations as cover it.

pub mod assembly;
pub mod ledger;

use crate::validity::ValidityCheck;
use crate::chunks::{Chunk, ChunkView, DataChunk, HeaderChunk};
use crate::control::{ConfirmPart, ControlMessage};
use crate::file_id::FileId;
use crate::file_part_id::FilePartId;
use crate::receiver::ledger::{confirmations, ledger_wf, recorded, runs, ConfirmedFile, LedgerEntry};
use vstd::prelude::*;

verus! {

/// What is to be done with a chunk that arrived.
#[derive(Debug, PartialEq, Eq)]
pub enum ReceiveAction {
    /// The chunk names a part that cannot be: nothing is stored or noted.
    Rejected,
    /// The file is finished already: the chunk is a late copy, which is
    /// confirmed and dropped.
    Absorbed,
    /// The header is to be written as `data/header.json`, under another
    /// name first.
    StoreHeader(HeaderChunk),
    /// The data are to be written as `data/<N>.bin`, over what is there.
    StorePart(DataChunk),
}

pub enum ReceiveActionView {
    Rejected,
    Absorbed,
    StoreHeader(crate::chunks::HeaderChunkView),
    StorePart(crate::chunks::DataChunkView),
}

impl View for ReceiveAction {
    type V = ReceiveActionView;

    open spec fn view(&self) -> ReceiveActionView {
        match self {
            ReceiveAction::Rejected => ReceiveActionView::Rejected,
            ReceiveAction::Absorbed => ReceiveActionView::Absorbed,
            ReceiveAction::StoreHeader(header) => ReceiveActionView::StoreHeader(header@),
            ReceiveAction::StorePart(part) => ReceiveActionView::StorePart(part@),
        }
    }
}

/// What is to be done with `chunk`, given whether its file is finished.
pub open spec fn action_for(chunk: ChunkView, finished: bool) -> ReceiveActionView {
    if !chunk.part_index().valid() {
        ReceiveActionView::Rejected
    } else if finished {
        ReceiveActionView::Absorbed
    } else {
        match chunk {
            ChunkView::Header(header) => ReceiveActionView::StoreHeader(header),
            ChunkView::Data(part) => ReceiveActionView::StorePart(part),
        }
    }
}

/// The receiver's memory: which parts of which files arrived since the
/// sender was last told.
#[derive(Debug, PartialEq, Eq)]
pub struct Reciever {
    confirmed_parts: Vec<ConfirmedFile>,
}

impl View for Reciever {
    type V = Seq<LedgerEntry>;

    closed spec fn view(&self) -> Seq<LedgerEntry> {
        Seq::new(self.confirmed_parts@.len(), |i: int| self.confirmed_parts@[i]@)
    }
}

impl Reciever {
    /// No file is entered twice, and the parts of each file are valid parts
    /// in rising order.
    pub open spec fn wf(&self) -> bool {
        ledger_wf(self@)
    }

    /// A receiver that has nothing to confirm.
    pub fn new() -> (receiver: Self)
        ensures
            receiver.wf(),
            receiver@.len() == 0,
    {
        Reciever { confirmed_parts: Vec::new() }
    }

    /// Notes that `part` of file `file_id` arrived.
    fn add_confirmation_for_file_part(&mut self, file_id: FileId, part: FilePartId)
        requires
            old(self).wf(),
            part.valid(),
        ensures
            final(self).wf(),
            forall|id: FileId, p: FilePartId|
                recorded(final(self)@, id, p) <==> recorded(old(self)@, id, p) || (id == file_id
                    && p == part),
    {
        let ghost before = self@;
        let mut i: usize = 0;
        while i < self.confirmed_parts.len()
            invariant
                i <= self.confirmed_parts@.len(),
                self@ == before,
                before == old(self)@,
                ledger_wf(before),
                part.valid(),
                forall|k: int| 0 <= k < i ==> (#[trigger] before[k]).file_id != file_id,
            decreases self.confirmed_parts@.len() - i,
        {
            if self.confirmed_parts[i].file_id() == file_id {
                let mut entry = self.confirmed_parts.remove(i);
                entry.insert(part);
                self.confirmed_parts.insert(i, entry);
                proof {
                    assert(self@ =~= before.update(i as int, entry@));
                    crate::receiver::ledger::lemma_entry_updated(before, i as int, entry@, part);
                }
                return ;
            }
            i += 1;
        }
        let entry = ConfirmedFile::single(file_id, part);
        self.confirmed_parts.push(entry);
        proof {
            let added = entry@;
            assert(self@ =~= before.push(added));
            assert(added.file_id == file_id);
            crate::receiver::ledger::lemma_entry_added(before, added, part);
            assert forall|id: FileId, p: FilePartId|
                recorded(self@, id, p) <==> recorded(old(self)@, id, p) || (id == file_id && p
                    == part) by {
                assert(recorded(before.push(added), id, p) <==> recorded(before, id, p) || (id
                    == added.file_id && p == part));
            }
        }
    }

    /// Takes in a chunk. `finished` says whether the file that the chunk
    /// belongs to is finished already. The part is noted for confirmation,
    /// and what is to be stored is handed back; a chunk with the reserved
    /// part number is refused.
    pub fn receive_chunk(&mut self, chunk: Chunk, finished: bool) -> (action: ReceiveAction)
        requires
            old(self).wf(),
        ensures
            final(self).wf(),
            action@ == action_for(chunk@, finished),
            forall|id: FileId, p: FilePartId|
                recorded(final(self)@, id, p) <==> recorded(old(self)@, id, p) || (
                chunk@.part_index().valid() && id == chunk@.file_id() && p
                    == chunk@.part_index()),
    {
        let file_id = chunk.file_id();
        let part_index = chunk.part_index();
        if !part_index.is_valid() {
            return ReceiveAction::Rejected;
        }
        self.add_confirmation_for_file_part(file_id, part_index);
        if finished {
            // Already finished: confirm and ignore.
            return ReceiveAction::Absorbed;
        }
        match chunk {
            Chunk::Header(header_chunk) => ReceiveAction::StoreHeader(header_chunk),
            Chunk::Data(data_chunk) => ReceiveAction::StorePart(data_chunk),
        }
    }

    /// The confirmations that cover what arrived since the last call, and
    /// nothing else: for each file, in the order in which the files first
    /// came up, one message for each run of parts without a gap. The
    /// ledger is empty afterwards.
    pub fn iter_control_messages(&mut self) -> (messages: Vec<ControlMessage>)
        requires
            old(self).wf(),
        ensures
            final(self).wf(),
            final(self)@.len() == 0,
            messages@ == confirmations(old(self)@),
    {
        let mut messages: Vec<ControlMessage> = Vec::new();
        let ghost before = self@;
        let mut i: usize = 0;
        proof {
            assert(before.take(0) =~= Seq::<LedgerEntry>::empty());
        }
        while i < self.confirmed_parts.len()
            invariant
                i <= self.confirmed_parts@.len(),
                self@ == before,
                ledger_wf(before),
                messages@ == confirmations(before.take(i as int)),
            decreases self.confirmed_parts@.len() - i,
        {
            let entry = &self.confirmed_parts[i];
            let ranges = entry.coalesce();
            let ghost so_far = messages@;
            let mut k: usize = 0;
            while k < ranges.len()
                invariant
                    k <= ranges@.len(),
                    i < self.confirmed_parts@.len(),
                    self@ == before,
                    entry@ == before[i as int],
                    ranges@ == runs(before[i as int].parts),
                    messages@ == so_far + crate::receiver::ledger::confirmations_of(
                        before[i as int],
                    ).take(k as int),
                decreases ranges@.len() - k,
            {
                messages.push(
                    ControlMessage::ConfirmPart(
                        ConfirmPart { file_id: entry.file_id(), part_range: ranges[k] },
                    ),
                );
                assert(messages@ =~= so_far + crate::receiver::ledger::confirmations_of(
                    before[i as int],
                ).take(k + 1));
                k += 1;
            }
            proof {
                let next = before.take(i + 1);
                assert(next.drop_last() =~= before.take(i as int));
                assert(next.last() == before[i as int]);
                let all = crate::receiver::ledger::confirmations_of(before[i as int]);
                assert(all.take(all.len() as int) =~= all);
            }
            i += 1;
        }
        assert(before.take(before.len() as int) =~= before);
        self.confirmed_parts = Vec::new();
        messages
    }
}

} // verus!
