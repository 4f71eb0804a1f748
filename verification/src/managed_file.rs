//! The sender's record of one file in flight.
//!
//! A managed file lives in a directory of its own:
//!
//! ```plaintext
//! header.json   for people; never read back
//! header.bin    the header
//! mode.bin      one byte: contiguous or split
//! state.bin     the parts that remain, with their priorities
//! data.bin      contiguous mode: the body, each part at its offset
//! data/<N>.bin  split mode: one file for each body part that remains
//! ```
//!
//! The functions here decide; they touch no disk. Each one changes the
//! record and hands back what has to be done to the directory, in the order
//! in which it has to be done so that an interruption leaves a directory
//! that `try_read_from_path` can mend.

pub mod mode;
pub mod folder;
pub mod names;
pub mod recovery;
pub mod state;

use crate::validity::ValidityCheck;
use crate::binary_serialize::BinarySerialize;
use crate::chunks::{Chunk, DataChunk, HeaderChunk, HeaderChunkView, MAX_PART_LEN};
use crate::file_part_id::{FilePartId, FilePartIdRangeInclusive};
use crate::managed_file::mode::ManagedFileMode;
use crate::managed_file::state::{all_valid, body_parts_len, full_parts, has_part, lemma_without_range, parts_wire, record_wire, rising, without_range};
use crate::managed_file::state::{ManagedFileState, ManagedFileStatePart, serialize_part_to_stream};
use vstd::prelude::*;

verus! {

/// Why a managed file refuses a request.
#[derive(Debug, Clone, Copy, PartialEq, Eq, Structural)]
pub enum ManagedFileError {
    /// The header is not valid, or its parts are larger than a chunk may be.
    InvalidHeader,
    /// The file is in split mode already.
    AlreadySplit,
    /// The file has no body part of that number.
    PartOutOfBounds,
}

/// What a managed file is: its header, its mode, the parts that remain, and
/// in contiguous mode the length of `data.bin`.
pub struct ManagedFileView {
    pub header: HeaderChunkView,
    pub mode: ManagedFileMode,
    pub parts: Seq<ManagedFileStatePart>,
    pub data_len: u64,
}

/// The length that `data.bin` needs for the parts in `parts`: up to the end
/// of the slot of the highest body part, nothing where no body part remains.
pub open spec fn needed_len(header: HeaderChunkView, parts: Seq<ManagedFileStatePart>) -> nat {
    if parts.len() > 0 {
        match parts.last().part {
            FilePartId::Part(n) => ((n + 1) * header.file_part_size) as nat,
            FilePartId::Header => 0,
        }
    } else {
        0
    }
}

/// The smaller of two lengths.
pub open spec fn at_most(len: nat, limit: nat) -> nat {
    if len <= limit {
        len
    } else {
        limit
    }
}

/// The numbers of the body parts in `parts` that `range` covers, in order.
pub open spec fn removed_bodies(parts: Seq<ManagedFileStatePart>, range: FilePartIdRangeInclusive) -> Seq<u32>
    decreases parts.len(),
{
    if parts.len() == 0 {
        Seq::empty()
    } else {
        match parts.last().part {
            FilePartId::Part(n) => if range.covers(parts.last().part) {
                removed_bodies(parts.drop_last(), range).push(n)
            } else {
                removed_bodies(parts.drop_last(), range)
            },
            FilePartId::Header => removed_bodies(parts.drop_last(), range),
        }
    }
}

/// One step of a split: the bytes of `data.bin` from `offset` on, `len` of
/// them, become the file of body part `part`.
#[derive(Debug, Clone, Copy, PartialEq, Eq, Structural)]
pub struct PartCopy {
    pub part: u32,
    pub offset: u64,
    pub len: u64,
}

/// The step of a split that moves body part `part`.
pub open spec fn copy_of(header: HeaderChunkView, part: u32) -> PartCopy {
    PartCopy {
        part,
        offset: header.part_start(part) as u64,
        len: header.part_len(part) as u64,
    }
}

/// The steps of a split, from the highest body part that remains down to the
/// lowest.
pub open spec fn split_copies(header: HeaderChunkView, parts: Seq<ManagedFileStatePart>) -> Seq<PartCopy>
    decreases parts.len(),
{
    if parts.len() == 0 {
        Seq::empty()
    } else {
        match parts.last().part {
            FilePartId::Part(n) => seq![copy_of(header, n)] + split_copies(
                header,
                parts.drop_last(),
            ),
            FilePartId::Header => split_copies(header, parts.drop_last()),
        }
    }
}

/// The number of part slots that `data.bin` holds for parts that no longer
/// remain: the slots below the highest body part that remains which are not
/// themselves remaining.
pub open spec fn holes(parts: Seq<ManagedFileStatePart>) -> nat {
    if parts.len() > 0 {
        match parts.last().part {
            FilePartId::Part(n) => (n + 1 - body_parts_len(parts)) as nat,
            FilePartId::Header => 0,
        }
    } else {
        0
    }
}

/// The bytes that the parts in `parts` hold together.
pub open spec fn parts_size(header: HeaderChunkView, parts: Seq<ManagedFileStatePart>) -> nat
    decreases parts.len(),
{
    if parts.len() == 0 {
        0
    } else {
        parts_size(header, parts.drop_last()) + match parts.last().part {
            FilePartId::Part(n) => header.part_len(n),
            FilePartId::Header => 0,
        }
    }
}

impl ManagedFileView {
    /// The header is valid and its parts fit a chunk; the parts that remain
    /// are in rising order and are parts of this file; in contiguous mode
    /// `data.bin` reaches as far as the last part that remains.
    pub open spec fn wf(self) -> bool {
        &&& self.header.valid()
        &&& self.header.file_part_size <= MAX_PART_LEN
        &&& rising(self.parts)
        &&& all_valid(self.parts)
        &&& forall|i: int|
            0 <= i < self.parts.len() && (#[trigger] self.parts[i]).part is Part
                ==> self.parts[i].part->Part_0 < self.header.part_count
        &&& self.mode == ManagedFileMode::Contiguous ==> {
            &&& self.data_len <= self.header.size
            &&& forall|i: int|
                0 <= i < self.parts.len() && (#[trigger] self.parts[i]).part is Part
                    ==> self.header.part_end(self.parts[i].part->Part_0) <= self.data_len
        }
        &&& self.mode == ManagedFileMode::Split ==> self.data_len == 0
    }

    /// Whether `part` remains.
    pub open spec fn has(self, part: FilePartId) -> bool {
        has_part(self.parts, part)
    }

    /// The bytes of data that the file still takes on disk.
    pub open spec fn remaining_data_size(self) -> nat {
        match self.mode {
            ManagedFileMode::Contiguous => self.data_len as nat,
            ManagedFileMode::Split => parts_size(self.header, self.parts),
        }
    }

    /// The file after the parts that `range` covers were acknowledged.
    pub open spec fn acknowledged(self, range: FilePartIdRangeInclusive) -> ManagedFileView {
        let parts = without_range(self.parts, range);
        ManagedFileView {
            header: self.header,
            mode: self.mode,
            parts,
            data_len: match self.mode {
                ManagedFileMode::Contiguous => at_most(
                    self.data_len as nat,
                    needed_len(self.header, parts),
                ) as u64,
                ManagedFileMode::Split => 0,
            },
        }
    }

    /// Where the chunk of `part` is to be had: the header from the record
    /// itself, whether it remains or not; a body part that remains from
    /// `data.bin` or from its own file; nothing for a body part that does
    /// not remain. There is no body part beyond the last.
    pub open spec fn source_of(self, part: FilePartId) -> Result<
        Option<PartSourceView>,
        ManagedFileError,
    > {
        match part {
            FilePartId::Header => Ok(Some(PartSourceView::Header(self.header))),
            FilePartId::Part(n) => if n >= self.header.part_count {
                Err(ManagedFileError::PartOutOfBounds)
            } else if !self.has(part) {
                Ok(None)
            } else {
                match self.mode {
                    ManagedFileMode::Contiguous => Ok(
                        Some(
                            PartSourceView::DataRange {
                                part: n,
                                offset: self.header.part_start(n) as u64,
                                len: self.header.part_len(n) as u64,
                            },
                        ),
                    ),
                    ManagedFileMode::Split => Ok(Some(PartSourceView::PartFile { part: n })),
                }
            },
        }
    }

    /// The file after `part` went out once more: its priority is one
    /// lower, unless it is the lowest there is. A part that does not remain
    /// changes nothing.
    pub open spec fn sent(self, part: FilePartId) -> ManagedFileView {
        if self.has(part) {
            let k = part_place(self.parts, part);
            ManagedFileView {
                parts: self.parts.update(
                    k,
                    ManagedFileStatePart { part, priority: lowered(self.parts[k].priority) },
                ),
                ..self
            }
        } else {
            self
        }
    }

    /// The record of `state.bin` that changes when `part` goes out once
    /// more, and where in the file it stands.
    pub open spec fn sent_patch(self, part: FilePartId) -> Option<StatePatchView> {
        if self.has(part) {
            let k = part_place(self.parts, part);
            Some(
                StatePatchView { offset: (6 * k) as u64, record: record_wire(self.sent(part).parts[k]) },
            )
        } else {
            None
        }
    }

    /// What acknowledging the parts that `range` covers does to the
    /// directory.
    pub open spec fn ack_effect(self, range: FilePartIdRangeInclusive) -> AckEffectView {
        AckEffectView {
            state_bin: parts_wire(self.acknowledged(range).parts),
            truncate_data_to: if self.mode == ManagedFileMode::Contiguous && self.acknowledged(
                range,
            ).data_len < self.data_len {
                Some(self.acknowledged(range).data_len)
            } else {
                None
            },
            removed_parts: if self.mode == ManagedFileMode::Split {
                removed_bodies(self.parts, range)
            } else {
                Seq::empty()
            },
        }
    }

    /// What a split does to the directory.
    pub open spec fn split_effect(self) -> SplitEffectView {
        SplitEffectView {
            copies: split_copies(self.header, self.parts),
            mode_bin: ManagedFileMode::Split.encoded(),
        }
    }

    /// The file after a split.
    pub open spec fn split(self) -> ManagedFileView {
        ManagedFileView {
            header: self.header,
            mode: ManagedFileMode::Split,
            parts: self.parts,
            data_len: 0,
        }
    }
}

/// Where the bytes of a chunk are to be had.
#[derive(Debug, PartialEq, Eq)]
pub enum PartSource {
    /// The chunk is the header itself.
    Header(HeaderChunk),
    /// The chunk's data are `len` bytes of `data.bin`, from `offset` on.
    DataRange { part: u32, offset: u64, len: u64 },
    /// The chunk's data are the whole file of the part under `data/`.
    PartFile { part: u32 },
}

pub enum PartSourceView {
    Header(HeaderChunkView),
    DataRange { part: u32, offset: u64, len: u64 },
    PartFile { part: u32 },
}

impl View for PartSource {
    type V = PartSourceView;

    open spec fn view(&self) -> PartSourceView {
        match self {
            PartSource::Header(header) => PartSourceView::Header(header@),
            PartSource::DataRange { part, offset, len } => PartSourceView::DataRange {
                part: *part,
                offset: *offset,
                len: *len,
            },
            PartSource::PartFile { part } => PartSourceView::PartFile { part: *part },
        }
    }
}

/// What creating a managed file writes, in this order: the directory,
/// `header.json`, `header.bin`, `mode.bin`, `state.bin`, each file written
/// under another name and renamed; last, the data file is moved in as
/// `data.bin`.
#[derive(Debug, PartialEq, Eq)]
pub struct CreateEffect {
    pub header_bin: Vec<u8>,
    pub mode_bin: Vec<u8>,
    pub state_bin: Vec<u8>,
}

/// One record of `state.bin` to be written in place.
#[derive(Debug, PartialEq, Eq)]
pub struct StatePatch {
    pub offset: u64,
    pub record: Vec<u8>,
}

/// What an acknowledgement does to the directory: first `state.bin` is
/// rewritten; then, in contiguous mode, `data.bin` is cut to the given
/// length, and in split mode the files of the given parts are removed.
#[derive(Debug, PartialEq, Eq)]
pub struct AckEffect {
    pub state_bin: Vec<u8>,
    pub truncate_data_to: Option<u64>,
    pub removed_parts: Vec<u32>,
}

/// What a split does to the directory: `data/` is made; each copy is
/// written, from the highest part down; `mode.bin` is rewritten; last,
/// `data.bin` is removed.
#[derive(Debug, PartialEq, Eq)]
pub struct SplitEffect {
    pub copies: Vec<PartCopy>,
    pub mode_bin: Vec<u8>,
}

pub struct CreateEffectView {
    pub header_bin: Seq<u8>,
    pub mode_bin: Seq<u8>,
    pub state_bin: Seq<u8>,
}

impl View for CreateEffect {
    type V = CreateEffectView;

    open spec fn view(&self) -> CreateEffectView {
        CreateEffectView {
            header_bin: self.header_bin@,
            mode_bin: self.mode_bin@,
            state_bin: self.state_bin@,
        }
    }
}

/// The record of a file that was just admitted under `header`.
pub open spec fn created(header: HeaderChunkView) -> ManagedFileView {
    ManagedFileView {
        header,
        mode: ManagedFileMode::Contiguous,
        parts: full_parts(header.part_count),
        data_len: header.size,
    }
}

/// What admitting a file under `header` writes.
pub open spec fn create_effect(header: HeaderChunkView) -> CreateEffectView {
    CreateEffectView {
        header_bin: header.encoded(),
        mode_bin: ManagedFileMode::Contiguous.encoded(),
        state_bin: parts_wire(full_parts(header.part_count)),
    }
}

pub struct StatePatchView {
    pub offset: u64,
    pub record: Seq<u8>,
}

impl View for StatePatch {
    type V = StatePatchView;

    open spec fn view(&self) -> StatePatchView {
        StatePatchView { offset: self.offset, record: self.record@ }
    }
}

/// Where in a list the entry of `part` stands.
pub open spec fn part_place(parts: Seq<ManagedFileStatePart>, part: FilePartId) -> int {
    choose|i: int| 0 <= i < parts.len() && (#[trigger] parts[i]).part == part
}

/// In a rising list a part stands in one place only.
pub proof fn lemma_part_place(parts: Seq<ManagedFileStatePart>, i: int)
    requires
        rising(parts),
        0 <= i < parts.len(),
    ensures
        has_part(parts, parts[i].part),
        part_place(parts, parts[i].part) == i,
{
    let j = part_place(parts, parts[i].part);
    if j < i {
        assert(parts[j].part.rank() < parts[i].part.rank());
    } else if i < j {
        assert(parts[i].part.rank() < parts[j].part.rank());
    }
}

pub struct AckEffectView {
    pub state_bin: Seq<u8>,
    pub truncate_data_to: Option<u64>,
    pub removed_parts: Seq<u32>,
}

pub struct SplitEffectView {
    pub copies: Seq<PartCopy>,
    pub mode_bin: Seq<u8>,
}

impl View for AckEffect {
    type V = AckEffectView;

    open spec fn view(&self) -> AckEffectView {
        AckEffectView {
            state_bin: self.state_bin@,
            truncate_data_to: self.truncate_data_to,
            removed_parts: self.removed_parts@,
        }
    }
}

impl View for SplitEffect {
    type V = SplitEffectView;

    open spec fn view(&self) -> SplitEffectView {
        SplitEffectView { copies: self.copies@, mode_bin: self.mode_bin@ }
    }
}

/// One file in flight, as the sender keeps it.
#[derive(Debug, PartialEq, Eq)]
pub struct ManagedFile {
    header: HeaderChunk,
    mode: ManagedFileMode,
    state: ManagedFileState,
    data_len: u64,
}

impl View for ManagedFile {
    type V = ManagedFileView;

    closed spec fn view(&self) -> ManagedFileView {
        ManagedFileView {
            header: self.header@,
            mode: self.mode,
            parts: self.state@,
            data_len: self.data_len,
        }
    }
}

impl ManagedFile {
    pub open spec fn wf(&self) -> bool {
        self@.wf()
    }

    /// Admits a file: all its parts remain, with priority 0, and its data
    /// lie in one piece. A header that is not valid, or whose parts are
    /// larger than 1 MiB, is refused.
    pub fn create_new_from_header(header: HeaderChunk) -> (r: Result<
        (ManagedFile, CreateEffect),
        ManagedFileError,
    >)
        ensures
            match r {
                Ok((file, effect)) => {
                    &&& header.valid()
                    &&& header.file_part_size <= MAX_PART_LEN
                    &&& file.wf()
                    &&& file@ == created(header@)
                    &&& effect@ == create_effect(header@)
                },
                Err(e) => e == ManagedFileError::InvalidHeader && !(header.valid()
                    && header.file_part_size <= MAX_PART_LEN),
            },
    {
        if !header.is_valid() || header.file_part_size > MAX_PART_LEN {
            return Err(ManagedFileError::InvalidHeader);
        }
        let mode = ManagedFileMode::Contiguous;
        let mut header_bin: Vec<u8> = Vec::new();
        header.serialize_to_stream(&mut header_bin);
        let mut mode_bin: Vec<u8> = Vec::new();
        mode.serialize_to_stream(&mut mode_bin);
        let state = ManagedFileState::new_from_part_count(header.part_count);
        let state_bin = state.serialize();
        let data_len = header.size;
        let file = ManagedFile { header, mode, state, data_len };
        proof {
            assert(header_bin@ =~= header@.encoded());
            assert(mode_bin@ =~= mode.encoded());
            let v = file@;
            assert forall|i: int|
                0 <= i < v.parts.len() && (#[trigger] v.parts[i]).part is Part implies v.parts[i].part->Part_0
                < v.header.part_count && v.header.part_end(v.parts[i].part->Part_0)
                <= v.data_len by {
                v.header.lemma_part_bounds(v.parts[i].part->Part_0);
            }
        }
        Ok((file, CreateEffect { header_bin, mode_bin, state_bin }))
    }

    /// The record made of its four pieces.
    pub(crate) fn assemble(
        header: HeaderChunk,
        mode: ManagedFileMode,
        state: ManagedFileState,
        data_len: u64,
    ) -> (file: Self)
        ensures
            file@ == (ManagedFileView { header: header@, mode, parts: state@, data_len }),
    {
        ManagedFile { header, mode, state, data_len }
    }

    /// The header of the file.
    pub fn header(&self) -> (header: &HeaderChunk)
        ensures
            header@ == self@.header,
    {
        &self.header
    }

    /// The layout of the file's data.
    pub fn mode(&self) -> (mode: ManagedFileMode)
        ensures
            mode == self@.mode,
    {
        self.mode
    }

    /// The parts that remain, in rising order.
    pub fn remaining_parts(&self) -> (parts: &Vec<ManagedFileStatePart>)
        ensures
            parts@ == self@.parts,
    {
        self.state.remaining_parts()
    }

    /// In contiguous mode, the length of `data.bin`.
    pub fn data_len(&self) -> (len: u64)
        ensures
            len == self@.data_len,
    {
        self.data_len
    }

    /// Whether every part has been acknowledged: the owner then removes the
    /// directory.
    pub fn is_finished(&self) -> (finished: bool)
        ensures
            finished == (self@.parts.len() == 0),
    {
        self.state.is_empty()
    }

    /// Whether `part` remains.
    pub fn has_part(&self, part: FilePartId) -> (b: bool)
        ensures
            b == self@.has(part),
    {
        self.state.contains(part)
    }

    /// The bytes of `state.bin` as the record stands.
    pub fn state_bytes(&self) -> (bytes: Vec<u8>)
        requires
            self.wf(),
        ensures
            bytes@ == parts_wire(self@.parts),
            bytes@.len() % 6 == 0,
    {
        self.state.serialize()
    }

    /// The byte of `mode.bin` as the record stands: 0 or 1.
    pub fn mode_bytes(&self) -> (bytes: Vec<u8>)
        ensures
            bytes@ == self@.mode.encoded(),
            bytes@.len() == 1,
            bytes@[0] == 0 || bytes@[0] == 1,
    {
        let mut bytes: Vec<u8> = Vec::new();
        bytes.push(self.mode.to_u8());
        assert(bytes@ =~= self@.mode.encoded());
        bytes
    }

    /// Where body part `part` begins in `data.bin` and how long it is.
    fn part_extent(&self, part: u32) -> (extent: (u64, u64))
        requires
            self.wf(),
            part < self@.header.part_count,
        ensures
            extent.0 == self@.header.part_start(part),
            extent.1 == self@.header.part_len(part),
            extent.0 + extent.1 == self@.header.part_end(part),
    {
        let part_size = self.header.file_part_size as u64;
        proof {
            self@.header.lemma_part_bounds(part);
            assert(part as nat * part_size as nat <= 0xFFFF_FFFF * 0x10_0000) by (nonlinear_arith)
                requires
                    part <= 0xFFFF_FFFF,
                    part_size <= 0x10_0000,
            ;
        }
        let offset = part as u64 * part_size;
        let len = if offset + part_size <= self.header.size {
            part_size
        } else {
            self.header.size - offset
        };
        (offset, len)
    }

    /// Where the chunk of `part` is to be had.
    pub fn get_file_part(&self, part: FilePartId) -> (r: Result<Option<PartSource>, ManagedFileError>)
        requires
            self.wf(),
        ensures
            match self@.source_of(part) {
                Ok(Some(source)) => r matches Ok(Some(found)) && found@ == source,
                Ok(None) => r == Ok::<Option<PartSource>, ManagedFileError>(None),
                Err(e) => r == Err::<Option<PartSource>, ManagedFileError>(e),
            },
    {
        match part {
            FilePartId::Header => Ok(Some(PartSource::Header(self.header.clone()))),
            FilePartId::Part(part_id) => {
                if part_id >= self.header.part_count {
                    return Err(ManagedFileError::PartOutOfBounds);
                }
                if !self.state.contains(part) {
                    return Ok(None);
                }
                match self.mode {
                    ManagedFileMode::Contiguous => {
                        let (offset, len) = self.part_extent(part_id);
                        Ok(Some(PartSource::DataRange { part: part_id, offset, len }))
                    },
                    ManagedFileMode::Split => Ok(Some(PartSource::PartFile { part: part_id })),
                }
            },
        }
    }

    /// The chunk of body part `part` with the data that were read for it.
    pub fn data_chunk(&self, part: u32, data: Vec<u8>) -> (chunk: Chunk)
        ensures
            chunk is Data,
            chunk->Data_0.file_id == self@.header.id,
            chunk->Data_0.part == part,
            chunk->Data_0.data == data,
    {
        Chunk::Data(DataChunk { file_id: self.header.id, part, data })
    }

    /// Takes one off the priority of `part`, so that parts of equal
    /// priority go out in turn; a priority at the lowest stays there. The
    /// one record of `state.bin` that changes is handed back; nothing where
    /// the part does not remain.
    pub fn decrease_part_priority(&mut self, part: FilePartId) -> (patch: Option<StatePatch>)
        requires
            old(self).wf(),
        ensures
            final(self).wf(),
            final(self)@ == old(self)@.sent(part),
            match patch {
                Some(p) => old(self)@.sent_patch(part) == Some(p@),
                None => old(self)@.sent_patch(part) is None,
            },
    {
        let lower = |priority: i16| -> (lower: i16)
            ensures
                lower == lowered(priority),
            {
                if priority > i16::MIN {
                    priority - 1
                } else {
                    priority
                }
            };
        match self.state.modify_part_priority(part, lower) {
            Some(index) => {
                let entry = self.state.remaining_parts()[index];
                let mut record: Vec<u8> = Vec::new();
                serialize_part_to_stream(&entry, &mut record);
                proof {
                    assert(record@ =~= record_wire(entry));
                    lemma_bodies_below(old(self)@.parts);
                    self.lemma_same_parts(old(self)@);
                    assert(old(self)@.parts[index as int].part == part);
                    lemma_part_place(old(self)@.parts, index as int);
                    assert(self@.parts =~= old(self)@.sent(part).parts);
                }
                Some(StatePatch { offset: (index as u64) * 6, record })
            },
            None => None,
        }
    }

    /// Gives every part that remains the priority `priority`. Hands back the
    /// bytes of `state.bin`, which is rewritten whole.
    pub fn set_all_parts_priorities(&mut self, priority: i16) -> (state_bin: Vec<u8>)
        requires
            old(self).wf(),
        ensures
            final(self).wf(),
            final(self)@.header == old(self)@.header,
            final(self)@.mode == old(self)@.mode,
            final(self)@.data_len == old(self)@.data_len,
            final(self)@.parts.len() == old(self)@.parts.len(),
            forall|i: int|
                0 <= i < old(self)@.parts.len() ==> (#[trigger] final(self)@.parts[i]) == (
                ManagedFileStatePart { part: old(self)@.parts[i].part, priority }),
            state_bin@ == parts_wire(final(self)@.parts),
    {
        self.state.set_all_priorities(priority);
        proof {
            self.lemma_same_parts(old(self)@);
        }
        self.state.serialize()
    }

    /// A record whose parts are those of a well-formed one, whatever their
    /// priorities, is well-formed.
    proof fn lemma_same_parts(&self, before: ManagedFileView)
        requires
            before.wf(),
            self@.header == before.header,
            self@.mode == before.mode,
            self@.data_len == before.data_len,
            self@.parts.len() == before.parts.len(),
            forall|i: int|
                0 <= i < before.parts.len() ==> (#[trigger] self@.parts[i]).part
                    == before.parts[i].part,
        ensures
            self.wf(),
    {
        let after = self@;
        ManagedFileState::lemma_same_parts_keep_wf(before.parts, after.parts);
        assert forall|i: int|
            0 <= i < after.parts.len() && (#[trigger] after.parts[i]).part is Part implies after.parts[i].part->Part_0
            < after.header.part_count && (after.mode == ManagedFileMode::Contiguous
            ==> after.header.part_end(after.parts[i].part->Part_0) <= after.data_len) by {
            assert(before.parts[i].part == after.parts[i].part);
        }
    }

    /// How many part slots of `data.bin` a split would give back.
    pub fn chunks_saved_by_splitting(&self) -> (saved: u32)
        requires
            self.wf(),
        ensures
            saved == (match self@.mode {
                ManagedFileMode::Contiguous => holes(self@.parts),
                ManagedFileMode::Split => 0,
            }),
    {
        match self.mode {
            ManagedFileMode::Split => 0,
            ManagedFileMode::Contiguous => {
                let parts = self.state.remaining_parts();
                if parts.len() == 0 {
                    return 0;
                }
                match parts[parts.len() - 1].part {
                    FilePartId::Header => 0,
                    FilePartId::Part(n) => {
                        let bodies = self.state.remaining_non_header_parts_len();
                        proof {
                            lemma_bodies_below(self@.parts);
                        }
                        ((n as u64 + 1) - bodies as u64) as u32
                    },
                }
            },
        }
    }

    /// The bytes of data that the file still takes on disk: the length of
    /// `data.bin`, or what the files of the remaining parts hold together.
    pub fn calc_remaining_data_size(&self) -> (size: u64)
        requires
            self.wf(),
        ensures
            size == self@.remaining_data_size(),
    {
        match self.mode {
            ManagedFileMode::Contiguous => self.data_len,
            ManagedFileMode::Split => {
                let parts = self.state.remaining_parts();
                let mut total: u64 = 0;
                let mut i: usize = 0;
                assert(parts@.take(0) =~= Seq::<ManagedFileStatePart>::empty());
                proof {
                    if parts@.len() > 0 {
                        lemma_bodies_below(parts@);
                    }
                }
                while i < parts.len()
                    invariant
                        i <= parts@.len(),
                        parts@.len() <= 0x1_0000_0000,
                        parts@ == self@.parts,
                        self.wf(),
                        total == parts_size(self@.header, parts@.take(i as int)),
                        total <= i * 0x10_0000,
                    decreases parts@.len() - i,
                {
                    proof {
                        let next = parts@.take(i + 1);
                        assert(next.drop_last() =~= parts@.take(i as int));
                        assert(next.last() == parts@[i as int]);
                    }
                    match parts[i].part {
                        FilePartId::Header => {},
                        FilePartId::Part(n) => {
                            let (_, len) = self.part_extent(n);
                            proof {
                                self@.header.lemma_part_bounds(n);
                            }
                            total = total + len;
                        },
                    }
                    i += 1;
                }
                assert(parts@.take(parts@.len() as int) =~= parts@);
                total
            },
        }
    }

    /// Releases the parts that `range` covers: they no longer remain. In
    /// contiguous mode `data.bin` is cut behind the highest body part that
    /// still remains; in split mode the files of the released body parts go.
    pub fn acknowledge_file_parts(&mut self, part_range: FilePartIdRangeInclusive) -> (effect:
        AckEffect)
        requires
            old(self).wf(),
        ensures
            final(self).wf(),
            final(self)@ == old(self)@.acknowledged(part_range),
            effect@ == old(self)@.ack_effect(part_range),
    {
        let mut removed_parts: Vec<u32> = Vec::new();
        if let ManagedFileMode::Split = self.mode {
            let parts = self.state.remaining_parts();
            let mut i: usize = 0;
            assert(parts@.take(0) =~= Seq::<ManagedFileStatePart>::empty());
            while i < parts.len()
                invariant
                    i <= parts@.len(),
                    removed_parts@ == removed_bodies(parts@.take(i as int), part_range),
                decreases parts@.len() - i,
            {
                proof {
                    let next = parts@.take(i + 1);
                    assert(next.drop_last() =~= parts@.take(i as int));
                    assert(next.last() == parts@[i as int]);
                }
                if let FilePartId::Part(n) = parts[i].part {
                    if part_range.contains(parts[i].part) {
                        removed_parts.push(n);
                    }
                }
                i += 1;
            }
            assert(parts@.take(parts@.len() as int) =~= parts@);
        }
        // First the state.
        self.state.remove_range(&part_range);
        proof {
            lemma_acknowledged_wf(old(self)@, part_range);
        }
        // Then the data.
        let mut truncate_data_to: Option<u64> = None;
        if let ManagedFileMode::Contiguous = self.mode {
            let parts = self.state.remaining_parts();
            let result_len: u64 = if parts.len() == 0 {
                0
            } else {
                match parts[parts.len() - 1].part {
                    FilePartId::Header => 0,
                    FilePartId::Part(last) => {
                        let part_size = self.header.file_part_size as u64;
                        assert((last + 1) * part_size <= 0x1_0000_0000 * 0x10_0000) by (nonlinear_arith)
                            requires
                                last <= 0xFFFF_FFFF,
                                part_size <= 0x10_0000,
                        ;
                        (last as u64 + 1) * part_size
                    },
                }
            };
            if self.data_len > result_len {
                self.data_len = result_len;
                truncate_data_to = Some(result_len);
            }
        }
        let state_bin = self.state.serialize();
        AckEffect { state_bin, truncate_data_to, removed_parts }
    }

    /// Moves the data from one file into one file for each body part that
    /// remains. A file that is split already is left as it is.
    pub fn trigger_file_split(&mut self) -> (r: Result<SplitEffect, ManagedFileError>)
        requires
            old(self).wf(),
        ensures
            final(self).wf(),
            match r {
                Ok(effect) => {
                    &&& old(self)@.mode == ManagedFileMode::Contiguous
                    &&& final(self)@ == old(self)@.split()
                    &&& effect@ == old(self)@.split_effect()
                },
                Err(e) => e == ManagedFileError::AlreadySplit && old(self)@.mode
                    == ManagedFileMode::Split && final(self)@ == old(self)@,
            },
    {
        if let ManagedFileMode::Split = self.mode {
            return Err(ManagedFileError::AlreadySplit);
        }
        let mut copies: Vec<PartCopy> = Vec::new();
        let parts = self.state.remaining_parts();
        let mut i: usize = parts.len();
        assert(parts@.take(parts@.len() as int) =~= parts@);
        assert(copies@ + split_copies(self@.header, parts@) =~= split_copies(self@.header, parts@));
        // From the last part to the first.
        while i > 0
            invariant
                i <= parts@.len(),
                parts@ == self@.parts,
                self.wf(),
                copies@ + split_copies(self@.header, parts@.take(i as int)) == split_copies(
                    self@.header,
                    parts@,
                ),
            decreases i,
        {
            let ghost before = copies@;
            let ghost front = parts@.take(i as int);
            i -= 1;
            proof {
                assert(front.drop_last() =~= parts@.take(i as int));
                assert(front.last() == parts@[i as int]);
            }
            if let FilePartId::Part(n) = parts[i].part {
                let (offset, len) = self.part_extent(n);
                copies.push(PartCopy { part: n, offset, len });
                proof {
                    let rest = split_copies(self@.header, parts@.take(i as int));
                    assert(copies@ + rest =~= before + (seq![copy_of(self@.header, n)] + rest));
                }
            }
        }
        proof {
            assert(parts@.take(0) =~= Seq::<ManagedFileStatePart>::empty());
            assert(copies@ + Seq::<PartCopy>::empty() =~= copies@);
        }
        self.mode = ManagedFileMode::Split;
        self.data_len = 0;
        let mut mode_bin: Vec<u8> = Vec::new();
        mode_bin.push(self.mode.to_u8());
        assert(mode_bin@ =~= ManagedFileMode::Split.encoded());
        Ok(SplitEffect { copies, mode_bin })
    }
}

/// The priority after one more sending: one lower, but for the lowest.
pub open spec fn lowered(priority: i16) -> i16 {
    if priority > i16::MIN {
        (priority - 1) as i16
    } else {
        priority
    }
}

/// In a rising list that ends with body part `n`, there are at most `n + 1`
/// body parts.
pub proof fn lemma_bodies_below(parts: Seq<ManagedFileStatePart>)
    requires
        rising(parts),
        parts.len() > 0,
    ensures
        parts.last().part.rank() >= parts.len() - 1,
        body_parts_len(parts) <= parts.last().part.rank(),
        forall|i: int| 0 < i < parts.len() ==> (#[trigger] parts[i]).part != FilePartId::Header,
    decreases parts.len(),
{
    if parts.len() > 1 {
        let front = parts.drop_last();
        assert(rising(front)) by {
            assert forall|i: int, j: int| 0 <= i < j < front.len() implies front[i].part.rank()
                < front[j].part.rank() by {
                assert(parts[i].part.rank() < parts[j].part.rank());
            }
        }
        lemma_bodies_below(front);
        assert(parts[parts.len() - 2].part.rank() < parts[parts.len() - 1].part.rank());
        assert forall|i: int| 0 < i < parts.len() implies (#[trigger] parts[i]).part
            != FilePartId::Header by {
            assert(parts[0].part.rank() < parts[i].part.rank());
        }
    }
}

/// A split keeps a record well-formed.
pub proof fn lemma_split_wf(file: ManagedFileView)
    requires
        file.wf(),
    ensures
        file.split().wf(),
{
}

/// Acknowledging keeps a record well-formed.
pub proof fn lemma_acknowledged_wf(file: ManagedFileView, range: FilePartIdRangeInclusive)
    requires
        file.wf(),
    ensures
        file.acknowledged(range).wf(),
        file.mode == ManagedFileMode::Contiguous ==> file.acknowledged(range).data_len
            <= file.data_len,
{
    let after = file.acknowledged(range);
    lemma_without_range(file.parts, range);
    assert forall|i: int|
        0 <= i < after.parts.len() && (#[trigger] after.parts[i]).part is Part implies after.parts[i].part->Part_0
        < after.header.part_count && (after.mode == ManagedFileMode::Contiguous
        ==> after.header.part_end(after.parts[i].part->Part_0) <= after.data_len) by {
        let e = after.parts[i];
        let n = e.part->Part_0;
        assert(after.parts.contains(e));
        assert(file.parts.contains(e));
        let j = choose|j: int| 0 <= j < file.parts.len() && file.parts[j] == e;
        assert(file.parts[j].part == FilePartId::Part(n));
        if after.mode == ManagedFileMode::Contiguous {
            let last = after.parts.last();
            assert(last == after.parts[after.parts.len() - 1]);
            if i < after.parts.len() - 1 {
                assert(after.parts[i].part.rank() < last.part.rank());
            }
            let m = last.part->Part_0;
            assert(last.part == FilePartId::Part(m));
            file.header.lemma_part_bounds(n);
            assert((n + 1) * file.header.file_part_size <= (m + 1) * file.header.file_part_size)
                by (nonlinear_arith)
                requires
                    n <= m,
            ;
        }
    }
}

} // verus!
