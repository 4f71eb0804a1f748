//! The sender's runner: it waits, or it is in a downlink session.
//!
//! While it waits it owns the storage: control messages are applied and new
//! files are admitted as they come. In a session the storage belongs to the
//! session: control messages are applied still, so that what the receiver
//! has got is let go at once, but new files are held back until the session
//! ends, so that no admission gets between two chunks.
//!
//! The runner is a function of its state and the message that came in. What
//! has to be done on disk, and what the other side is owed, is in the reply.

use crate::control::ControlMessage;
use crate::downlink_session::{goes_next, sendable, DownlinkSession, NextChunk};
use crate::file_id::FileId;
use crate::file_part_id::FilePartId;
use crate::managed_file::{ManagedFileView, StatePatch};
use crate::storage_manager::admission::{admission, Admission};
use crate::storage_manager::sending_order::sending_order;
use crate::storage_manager::{after_control, after_sending, control_outcome, sending_patch, snapshot, ControlOutcome, StorageError, StorageManager, StorageManagerConfig};
use vstd::prelude::*;
use vstd::slice::slice_to_vec;

verus! {

/// A file that is to be admitted: where it lies, and what is known of it.
#[derive(Debug, PartialEq, Eq)]
pub struct NewFile {
    /// Where the file lies now. The runner hands this back with the
    /// admission and makes nothing of it.
    pub source: Vec<u8>,
    pub name: String,
    pub size: u64,
    /// Nanoseconds since the Unix epoch; 0 where the date is not known.
    pub date: i64,
}

pub struct NewFileView {
    pub source: Seq<u8>,
    pub name: Seq<char>,
    pub size: u64,
    pub date: i64,
}

impl View for NewFile {
    type V = NewFileView;

    open spec fn view(&self) -> NewFileView {
        NewFileView { source: self.source@, name: self.name@, size: self.size, date: self.date }
    }
}

/// What comes in to the runner.
#[derive(Debug, PartialEq, Eq)]
pub enum DownlinkServerMessage {
    /// A control message from the receiver.
    Control(ControlMessage),
    /// A part went out: its priority goes down by one.
    ConfirmChunkSent { file_id: FileId, part_id: FilePartId },
    /// A new file lies ready.
    AddFile(NewFile),
    /// A downlink session is to begin.
    BeginDownlinkSession,
    /// The one who took the chunks is gone: the session is over.
    EndDownlinkSession,
    /// The runner is to stop for good.
    StopAndQuit,
}

/// A file that was admitted or refused.
#[derive(Debug, PartialEq, Eq)]
pub struct FileAdded {
    pub source: Vec<u8>,
    pub result: Result<Admission, StorageError>,
}

/// What the runner made of a message.
#[derive(Debug, PartialEq, Eq)]
pub enum RunnerReply {
    /// The message asks for nothing in this state.
    Ignored,
    /// A control message was applied.
    Control(ControlOutcome),
    /// A sending was noted.
    ChunkSentNoted(Option<StatePatch>),
    /// A file was admitted or refused.
    FileAdded(FileAdded),
    /// A file is held back until the session ends.
    FileDeferred,
    /// A session began.
    SessionBegun,
    /// A session is in progress: no other can begin.
    SessionRefused,
    /// The session ended, and the files that were held back were admitted
    /// or refused, in the order in which they came.
    SessionEnded(Vec<FileAdded>),
    /// The runner stopped.
    Stopped,
}

/// The views of files that are held back.
pub open spec fn views_of(files: Seq<NewFile>) -> Seq<NewFileView> {
    files.map_values(|f: NewFile| f@)
}

/// Whether `results` and `after` are what admitting the files `pending`, one
/// after the other, to the files `before` comes to, with `ids` the
/// identifiers that were drawn and `trace` the files after each admission.
#[verifier::opaque]
pub open spec fn admissions(
    before: Seq<ManagedFileView>,
    after: Seq<ManagedFileView>,
    config: StorageManagerConfig,
    pending: Seq<NewFileView>,
    results: Seq<FileAdded>,
    ids: Seq<FileId>,
    trace: Seq<Seq<ManagedFileView>>,
) -> bool {
    &&& results.len() == pending.len()
    &&& ids.len() == pending.len()
    &&& trace.len() == pending.len() + 1
    &&& trace[0] == before
    &&& trace[trace.len() - 1] == after
    &&& forall|j: int|
        0 <= j < pending.len() ==> (#[trigger] results[j]).source@ == pending[j].source
            && admission(
            trace[j],
            trace[j + 1],
            config,
            ids[j],
            pending[j].name,
            pending[j].size,
            pending[j].date,
            results[j].result,
        )
}

/// Whether `results` and `after` are what admitting the files `pending`, one
/// after the other and each under an identifier of its own, to the files
/// `before` comes to.
pub open spec fn admitted_all(
    before: Seq<ManagedFileView>,
    after: Seq<ManagedFileView>,
    config: StorageManagerConfig,
    pending: Seq<NewFileView>,
    results: Seq<FileAdded>,
) -> bool {
    exists|ids: Seq<FileId>, trace: Seq<Seq<ManagedFileView>>| #[trigger]
        admissions(before, after, config, pending, results, ids, trace)
}

/// No file has been admitted yet.
pub proof fn lemma_admissions_begin(files: Seq<ManagedFileView>, config: StorageManagerConfig)
    ensures
        admissions(files, files, config, Seq::empty(), Seq::empty(), Seq::empty(), seq![files]),
{
    reveal(admissions);
}

/// One more file was admitted or refused.
pub proof fn lemma_admissions_go_on(
    before: Seq<ManagedFileView>,
    middle: Seq<ManagedFileView>,
    after: Seq<ManagedFileView>,
    config: StorageManagerConfig,
    pending: Seq<NewFileView>,
    results: Seq<FileAdded>,
    ids: Seq<FileId>,
    trace: Seq<Seq<ManagedFileView>>,
    file: NewFileView,
    added: FileAdded,
    id: FileId,
)
    requires
        admissions(before, middle, config, pending, results, ids, trace),
        added.source@ == file.source,
        admission(middle, after, config, id, file.name, file.size, file.date, added.result),
    ensures
        admissions(
            before,
            after,
            config,
            pending.push(file),
            results.push(added),
            ids.push(id),
            trace.push(after),
        ),
{
    reveal(admissions);
    let pending2 = pending.push(file);
    let results2 = results.push(added);
    let ids2 = ids.push(id);
    let trace2 = trace.push(after);
    assert forall|j: int| 0 <= j < pending2.len() implies (#[trigger] results2[j]).source@
        == pending2[j].source && admission(
        trace2[j],
        trace2[j + 1],
        config,
        ids2[j],
        pending2[j].name,
        pending2[j].size,
        pending2[j].date,
        results2[j].result,
    ) by {
        if j < pending.len() {
            assert(results2[j] == results[j]);
            assert(trace2[j] == trace[j]);
            assert(trace2[j + 1] == trace[j + 1]);
        }
    }
}

/// The state of the runner.
#[derive(Debug, PartialEq, Eq)]
pub enum BackgroundRunner {
    /// No session is in progress.
    Waiting(StorageManager),
    /// A session is in progress; the files that came meanwhile are held
    /// back.
    Session(DownlinkSession, Vec<NewFile>),
    /// The runner has stopped.
    Stopped,
}

impl BackgroundRunner {
    pub open spec fn wf(&self) -> bool {
        match self {
            BackgroundRunner::Waiting(storage) => storage.wf(),
            BackgroundRunner::Session(session, _) => session.wf(),
            BackgroundRunner::Stopped => true,
        }
    }

    /// The files in storage; none once the runner has stopped.
    pub open spec fn files(&self) -> Seq<ManagedFileView> {
        match self {
            BackgroundRunner::Waiting(storage) => storage@,
            BackgroundRunner::Session(session, _) => session.files(),
            BackgroundRunner::Stopped => Seq::empty(),
        }
    }

    /// The configuration of the storage.
    pub open spec fn settings(&self) -> StorageManagerConfig {
        match self {
            BackgroundRunner::Waiting(storage) => storage.settings(),
            BackgroundRunner::Session(session, _) => session.held().settings(),
            BackgroundRunner::Stopped => arbitrary(),
        }
    }

    /// The files that are held back.
    pub open spec fn pending(&self) -> Seq<NewFileView> {
        match self {
            BackgroundRunner::Session(_, pending) => views_of(pending@),
            _ => Seq::empty(),
        }
    }

    /// A runner that waits, with the storage as it was found.
    pub fn new(storage: StorageManager) -> (runner: Self)
        requires
            storage.wf(),
        ensures
            runner.wf(),
            runner == BackgroundRunner::Waiting(storage),
    {
        BackgroundRunner::Waiting(storage)
    }

    /// Whether a session is in progress.
    pub fn in_session(&self) -> (b: bool)
        ensures
            b == (self is Session),
    {
        match self {
            BackgroundRunner::Session(_, _) => true,
            _ => false,
        }
    }

    /// Whether the runner has stopped.
    pub fn is_stopped(&self) -> (b: bool)
        ensures
            b == (self is Stopped),
    {
        match self {
            BackgroundRunner::Stopped => true,
            _ => false,
        }
    }

    /// The next chunk of the session; none where no session is in progress
    /// or the session has nothing to send.
    pub fn next_chunk(self) -> (r: (Self, Option<NextChunk>))
        requires
            self.wf(),
        ensures
            r.0.wf(),
            match self {
                BackgroundRunner::Session(session, pending) => {
                    &&& r.0 matches BackgroundRunner::Session(after, still)
                    &&& still == pending
                    &&& after.held() == session.held()
                    &&& after.queue() == session.queue()
                    &&& match r.1 {
                        Some(chunk) => exists|steps: int| #[trigger]
                            goes_next(
                                session.files(),
                                session.queue(),
                                session.position(),
                                steps,
                                chunk@,
                                after.position(),
                            ),
                        None => after.position() == session.position() && forall|k: int|
                            0 <= k < session.queue().len() ==> !sendable(
                                session.files(),
                                #[trigger] session.queue()[k],
                            ),
                    }
                },
                _ => r.0 == self && r.1 is None,
            },
    {
        match self {
            BackgroundRunner::Session(mut session, pending) => {
                let next = session.next_chunk();
                (BackgroundRunner::Session(session, pending), next)
            },
            other => (other, None),
        }
    }

    /// Takes in a message.
    pub fn handle(self, message: DownlinkServerMessage) -> (r: (Self, RunnerReply))
        requires
            self.wf(),
        ensures
            r.0.wf(),
            match (self, message) {
                (BackgroundRunner::Stopped, _) => r.0 is Stopped && r.1 is Ignored,
                (_, DownlinkServerMessage::StopAndQuit) => r.0 is Stopped && r.1 is Stopped,
                (BackgroundRunner::Waiting(_), DownlinkServerMessage::Control(control)) => {
                    &&& r.0 is Waiting
                    &&& r.0.settings() == self.settings()
                    &&& r.0.files() == after_control(self.files(), control)
                    &&& r.1 is Control
                    &&& control_outcome(self.files(), control, r.1->Control_0)
                },
                (BackgroundRunner::Session(session, pending), DownlinkServerMessage::Control(control)) => {
                    &&& r.0 matches BackgroundRunner::Session(after, still)
                    &&& still == pending
                    &&& after.queue() == session.queue()
                    &&& after.position() == session.position()
                    &&& r.0.settings() == self.settings()
                    &&& r.0.files() == after_control(self.files(), control)
                    &&& r.1 is Control
                    &&& control_outcome(self.files(), control, r.1->Control_0)
                },
                (
                    BackgroundRunner::Waiting(_),
                    DownlinkServerMessage::ConfirmChunkSent { file_id, part_id },
                ) => {
                    &&& r.0 is Waiting
                    &&& r.0.settings() == self.settings()
                    &&& r.0.files() == after_sending(self.files(), file_id, part_id)
                    &&& r.1 is ChunkSentNoted
                    &&& match r.1->ChunkSentNoted_0 {
                        Some(p) => sending_patch(self.files(), file_id, part_id) == Some(p@),
                        None => sending_patch(self.files(), file_id, part_id) is None,
                    }
                },
                (
                    BackgroundRunner::Session(session, pending),
                    DownlinkServerMessage::ConfirmChunkSent { file_id, part_id },
                ) => {
                    &&& r.0 matches BackgroundRunner::Session(after, still)
                    &&& still == pending
                    &&& after.queue() == session.queue()
                    &&& after.position() == session.position()
                    &&& r.0.settings() == self.settings()
                    &&& r.0.files() == after_sending(self.files(), file_id, part_id)
                    &&& r.1 is ChunkSentNoted
                    &&& match r.1->ChunkSentNoted_0 {
                        Some(p) => sending_patch(self.files(), file_id, part_id) == Some(p@),
                        None => sending_patch(self.files(), file_id, part_id) is None,
                    }
                },
                (BackgroundRunner::Waiting(_), DownlinkServerMessage::AddFile(file)) => {
                    &&& r.0 is Waiting
                    &&& r.0.settings() == self.settings()
                    &&& r.1 is FileAdded
                    &&& r.1->FileAdded_0.source@ == file.source@
                    &&& exists|id: FileId|
                        admission(
                            self.files(),
                            r.0.files(),
                            self.settings(),
                            id,
                            file.name@,
                            file.size,
                            file.date,
                            r.1->FileAdded_0.result,
                        )
                },
                (BackgroundRunner::Session(session, pending), DownlinkServerMessage::AddFile(file)) => {
                    &&& r.0 matches BackgroundRunner::Session(after, still)
                    &&& after == session
                    &&& still@ == pending@.push(file)
                    &&& r.1 is FileDeferred
                },
                (BackgroundRunner::Waiting(storage), DownlinkServerMessage::BeginDownlinkSession) => {
                    &&& r.0 matches BackgroundRunner::Session(session, pending)
                    &&& session.held() == storage
                    &&& session.queue() == sending_order(snapshot(storage@))
                    &&& session.position() == 0
                    &&& pending@.len() == 0
                    &&& r.1 is SessionBegun
                },
                (BackgroundRunner::Session(_, _), DownlinkServerMessage::BeginDownlinkSession) => r.0
                    == self && r.1 is SessionRefused,
                (BackgroundRunner::Waiting(_), DownlinkServerMessage::EndDownlinkSession) => r.0
                    == self && r.1 is Ignored,
                (
                    BackgroundRunner::Session(session, pending),
                    DownlinkServerMessage::EndDownlinkSession,
                ) => {
                    &&& r.0 is Waiting
                    &&& r.0.settings() == self.settings()
                    &&& r.1 is SessionEnded
                    &&& admitted_all(
                        self.files(),
                        r.0.files(),
                        self.settings(),
                        views_of(pending@),
                        r.1->SessionEnded_0@,
                    )
                },
            },
    {
        match self {
            BackgroundRunner::Stopped => (BackgroundRunner::Stopped, RunnerReply::Ignored),
            BackgroundRunner::Waiting(mut storage) => match message {
                DownlinkServerMessage::StopAndQuit => (
                    BackgroundRunner::Stopped,
                    RunnerReply::Stopped,
                ),
                DownlinkServerMessage::Control(control) => {
                    let outcome = storage.process_control(control);
                    (BackgroundRunner::Waiting(storage), RunnerReply::Control(outcome))
                },
                DownlinkServerMessage::ConfirmChunkSent { file_id, part_id } => {
                    let patch = storage.confirm_file_sent(file_id, part_id);
                    (BackgroundRunner::Waiting(storage), RunnerReply::ChunkSentNoted(patch))
                },
                DownlinkServerMessage::AddFile(file) => {
                    let ghost before = storage@;
                    let ghost config = storage.settings();
                    let added = take_in(&mut storage, &file);
                    let ghost id = choose|id: FileId|
                        admission(
                            before,
                            storage@,
                            config,
                            id,
                            file.name@,
                            file.size,
                            file.date,
                            added.result,
                        );
                    let r = (BackgroundRunner::Waiting(storage), RunnerReply::FileAdded(added));
                    assert(admission(
                        self.files(),
                        r.0.files(),
                        self.settings(),
                        id,
                        file.name@,
                        file.size,
                        file.date,
                        r.1->FileAdded_0.result,
                    ));
                    r
                },
                DownlinkServerMessage::BeginDownlinkSession => {
                    let session = DownlinkSession::new(storage);
                    (BackgroundRunner::Session(session, Vec::new()), RunnerReply::SessionBegun)
                },
                DownlinkServerMessage::EndDownlinkSession => (
                    BackgroundRunner::Waiting(storage),
                    RunnerReply::Ignored,
                ),
            },
            BackgroundRunner::Session(mut session, mut pending) => match message {
                DownlinkServerMessage::StopAndQuit => (
                    BackgroundRunner::Stopped,
                    RunnerReply::Stopped,
                ),
                DownlinkServerMessage::Control(control) => {
                    let outcome = session.process_control(control);
                    (BackgroundRunner::Session(session, pending), RunnerReply::Control(outcome))
                },
                DownlinkServerMessage::ConfirmChunkSent { file_id, part_id } => {
                    let patch = session.confirm_file_sent(file_id, part_id);
                    (
                        BackgroundRunner::Session(session, pending),
                        RunnerReply::ChunkSentNoted(patch),
                    )
                },
                DownlinkServerMessage::AddFile(file) => {
                    // No file is admitted while a session is in progress.
                    pending.push(file);
                    (BackgroundRunner::Session(session, pending), RunnerReply::FileDeferred)
                },
                DownlinkServerMessage::BeginDownlinkSession => (
                    BackgroundRunner::Session(session, pending),
                    RunnerReply::SessionRefused,
                ),
                DownlinkServerMessage::EndDownlinkSession => {
                    let mut storage = session.into_storage_manager();
                    let ghost before = storage@;
                    let ghost config = storage.settings();
                    let ghost mut ids: Seq<FileId> = Seq::empty();
                    let ghost mut trace: Seq<Seq<ManagedFileView>> = seq![storage@];
                    let mut results: Vec<FileAdded> = Vec::new();
                    let mut i: usize = 0;
                    proof {
                        assert(views_of(pending@).take(0) =~= Seq::<NewFileView>::empty());
                        assert(results@ =~= Seq::<FileAdded>::empty());
                        lemma_admissions_begin(before, config);
                    }
                    while i < pending.len()
                        invariant
                            i <= pending@.len(),
                            storage.wf(),
                            storage.settings() == config,
                            admissions(
                                before,
                                storage@,
                                config,
                                views_of(pending@).take(i as int),
                                results@,
                                ids,
                                trace,
                            ),
                        decreases pending@.len() - i,
                    {
                        let ghost middle = storage@;
                        let ghost so_far = results@;
                        let added = take_in(&mut storage, &pending[i]);
                        proof {
                            let file = pending@[i as int]@;
                            let id = choose|id: FileId|
                                admission(
                                    middle,
                                    storage@,
                                    config,
                                    id,
                                    pending@[i as int].name@,
                                    pending@[i as int].size,
                                    pending@[i as int].date,
                                    added.result,
                                );
                            lemma_admissions_go_on(
                                before,
                                middle,
                                storage@,
                                config,
                                views_of(pending@).take(i as int),
                                so_far,
                                ids,
                                trace,
                                file,
                                added,
                                id,
                            );
                            assert(views_of(pending@).take(i + 1) =~= views_of(pending@).take(
                                i as int,
                            ).push(file));
                            ids = ids.push(id);
                            trace = trace.push(storage@);
                        }
                        results.push(added);
                        i += 1;
                    }
                    proof {
                        assert(views_of(pending@).take(pending@.len() as int) =~= views_of(
                            pending@,
                        ));
                    }
                    (BackgroundRunner::Waiting(storage), RunnerReply::SessionEnded(results))
                },
            },
        }
    }
}

/// Admits one file to the storage.
fn take_in(storage: &mut StorageManager, file: &NewFile) -> (added: FileAdded)
    requires
        old(storage).wf(),
    ensures
        final(storage).wf(),
        final(storage).settings() == old(storage).settings(),
        added.source@ == file.source@,
        exists|id: FileId|
            admission(
                old(storage)@,
                final(storage)@,
                old(storage).settings(),
                id,
                file.name@,
                file.size,
                file.date,
                added.result,
            ),
{
    let result = storage.add_file_from_path(file.name.clone(), file.size, file.date);
    FileAdded { source: slice_to_vec(file.source.as_slice()), result }
}

} // verus!
