//! What the directory of a managed file holds of the file's data, and what
//! acknowledging and splitting do to it.
//!
//! The record in memory and the directory on disk go together: in contiguous
//! mode `data.bin` has the length that the record keeps; in split mode there
//! is exactly one file for each body part that remains. The laws here say
//! that the operations keep it so, and that no byte of a part that remains
//! is lost or changed on the way.

use crate::chunks::HeaderChunkView;
use crate::file_part_id::{FilePartId, FilePartIdRangeInclusive};
use crate::managed_file::mode::ManagedFileMode;
use crate::managed_file::state::{has_part, lemma_parts_wire_len, lemma_without_range, parts_wire, without_range, ManagedFileStatePart};
use crate::managed_file::{copy_of, lemma_acknowledged_wf, removed_bodies, split_copies};
use crate::managed_file::{AckEffectView, ManagedFileView, PartCopy};
use vstd::prelude::*;

verus! {

/// The data of a managed file on disk: the bytes of `data.bin`, and the
/// bytes of each file under `data/` by the number of its part; each only if
/// it is there.
pub struct Folder {
    pub data_bin: Option<Seq<u8>>,
    pub data_dir: Option<Map<u32, Seq<u8>>>,
}

/// Whether the directory holds what the record says.
pub open spec fn holds(file: ManagedFileView, folder: Folder) -> bool {
    match file.mode {
        ManagedFileMode::Contiguous => folder.data_bin is Some && folder.data_bin->Some_0.len()
            == file.data_len,
        ManagedFileMode::Split => {
            &&& folder.data_bin is None
            &&& folder.data_dir is Some
            &&& forall|n: u32| #[trigger]
                folder.data_dir->Some_0.dom().contains(n) <==> file.has(FilePartId::Part(n))
            &&& forall|n: u32| #[trigger]
                folder.data_dir->Some_0.dom().contains(n) ==> folder.data_dir->Some_0[n].len()
                    == file.header.part_len(n)
        },
    }
}

/// The bytes of body part `part` as the directory holds them.
pub open spec fn part_bytes(file: ManagedFileView, folder: Folder, part: u32) -> Seq<u8> {
    match file.mode {
        ManagedFileMode::Contiguous => folder.data_bin->Some_0.subrange(
            file.header.part_start(part) as int,
            file.header.part_end(part) as int,
        ),
        ManagedFileMode::Split => folder.data_dir->Some_0[part],
    }
}

/// The directory after `data.bin` was cut and the files of the given parts
/// were removed.
pub open spec fn after_ack(folder: Folder, effect: AckEffectView) -> Folder {
    Folder {
        data_bin: match (folder.data_bin, effect.truncate_data_to) {
            (Some(data), Some(len)) => Some(data.take(len as int)),
            _ => folder.data_bin,
        },
        data_dir: match folder.data_dir {
            Some(files) => Some(files.remove_keys(effect.removed_parts.to_set())),
            None => None,
        },
    }
}

/// Whether a split writes a file for `part`.
pub open spec fn copied(copies: Seq<PartCopy>, part: u32) -> bool {
    exists|k: int| 0 <= k < copies.len() && (#[trigger] copies[k]).part == part
}

/// The step of a split that writes the file for `part`.
pub open spec fn copy_for(copies: Seq<PartCopy>, part: u32) -> PartCopy {
    copies[choose|k: int| 0 <= k < copies.len() && (#[trigger] copies[k]).part == part]
}

/// The directory after a split: each copy has been written from `data.bin`
/// as it was, and `data.bin` is gone.
pub open spec fn after_split(folder: Folder, copies: Seq<PartCopy>) -> Folder {
    Folder {
        data_bin: None,
        data_dir: Some(
            Map::new(
                |n: u32| copied(copies, n),
                |n: u32|
                    folder.data_bin->Some_0.subrange(
                        copy_for(copies, n).offset as int,
                        copy_for(copies, n).offset + copy_for(copies, n).len,
                    ),
            ),
        ),
    }
}

/// What a managed file keeps in its small files has its shape: `state.bin`
/// is made of whole records of six bytes, and `mode.bin` is the one byte 0
/// or the one byte 1.
pub proof fn lemma_small_files(file: ManagedFileView)
    ensures
        parts_wire(file.parts).len() == 6 * file.parts.len(),
        parts_wire(file.parts).len() % 6 == 0,
        file.mode.encoded() == seq![0u8] || file.mode.encoded() == seq![1u8],
{
    lemma_parts_wire_len(file.parts);
}

/// The entries of a list for `part` are what `has_part` speaks of.
pub proof fn lemma_has_part_contains(parts: Seq<ManagedFileStatePart>, part: FilePartId)
    ensures
        has_part(parts, part) <==> exists|e: ManagedFileStatePart|
            #[trigger] parts.contains(e) && e.part == part,
{
    if has_part(parts, part) {
        let i = choose|i: int| 0 <= i < parts.len() && (#[trigger] parts[i]).part == part;
        assert(parts.contains(parts[i]));
    }
    if exists|e: ManagedFileStatePart| #[trigger] parts.contains(e) && e.part == part {
        let e = choose|e: ManagedFileStatePart| #[trigger] parts.contains(e) && e.part == part;
        let i = choose|i: int| 0 <= i < parts.len() && parts[i] == e;
        assert(parts[i].part == part);
    }
}

/// A part remains after an acknowledgement if it remained before and the
/// range does not cover it.
pub proof fn lemma_without_range_has(
    parts: Seq<ManagedFileStatePart>,
    range: FilePartIdRangeInclusive,
    part: FilePartId,
)
    ensures
        has_part(without_range(parts, range), part) <==> has_part(parts, part) && !range.covers(
            part,
        ),
{
    let out = without_range(parts, range);
    lemma_without_range(parts, range);
    lemma_has_part_contains(parts, part);
    lemma_has_part_contains(out, part);
    if has_part(out, part) {
        let e = choose|e: ManagedFileStatePart| #[trigger] out.contains(e) && e.part == part;
        assert(parts.contains(e));
    }
    if has_part(parts, part) && !range.covers(part) {
        let e = choose|e: ManagedFileStatePart| #[trigger] parts.contains(e) && e.part == part;
        assert(out.contains(e));
    }
}

/// The files that an acknowledgement removes are those of the body parts
/// that remained and that the range covers.
pub proof fn lemma_removed_bodies(
    parts: Seq<ManagedFileStatePart>,
    range: FilePartIdRangeInclusive,
    n: u32,
)
    ensures
        removed_bodies(parts, range).contains(n) <==> has_part(parts, FilePartId::Part(n))
            && range.covers(FilePartId::Part(n)),
    decreases parts.len(),
{
    let out = removed_bodies(parts, range);
    let part = FilePartId::Part(n);
    if parts.len() > 0 {
        let front = parts.drop_last();
        let last = parts.last();
        let rest = removed_bodies(front, range);
        lemma_removed_bodies(front, range, n);
        if has_part(front, part) {
            let i = choose|i: int| 0 <= i < front.len() && (#[trigger] front[i]).part == part;
            assert(parts[i].part == part);
        }
        if has_part(parts, part) {
            let i = choose|i: int| 0 <= i < parts.len() && (#[trigger] parts[i]).part == part;
            if i < front.len() {
                assert(front[i].part == part);
            }
        }
        if last.part == part {
            assert(parts[parts.len() - 1].part == part);
        }
        if out.contains(n) {
            let k = choose|k: int| 0 <= k < out.len() && out[k] == n;
            if k < rest.len() {
                assert(rest[k] == n);
                assert(rest.contains(n));
            }
        }
        if rest.contains(n) {
            let k = choose|k: int| 0 <= k < rest.len() && rest[k] == n;
            assert(out[k] == n);
        }
        if last.part == part && range.covers(part) {
            assert(out[out.len() - 1] == n);
        }
    }
}

/// A split writes a file for each body part that remains and for no other,
/// and each file is cut from where the part lies in `data.bin`.
pub proof fn lemma_split_copies(header: HeaderChunkView, parts: Seq<ManagedFileStatePart>, n: u32)
    ensures
        copied(split_copies(header, parts), n) <==> has_part(parts, FilePartId::Part(n)),
        copied(split_copies(header, parts), n) ==> copy_for(split_copies(header, parts), n)
            == copy_of(header, n),
    decreases parts.len(),
{
    let copies = split_copies(header, parts);
    let part = FilePartId::Part(n);
    lemma_split_copies_are_copies(header, parts);
    if parts.len() > 0 {
        let front = parts.drop_last();
        let last = parts.last();
        let rest = split_copies(header, front);
        lemma_split_copies(header, front, n);
        if has_part(front, part) {
            let i = choose|i: int| 0 <= i < front.len() && (#[trigger] front[i]).part == part;
            assert(parts[i].part == part);
        }
        if has_part(parts, part) {
            let i = choose|i: int| 0 <= i < parts.len() && (#[trigger] parts[i]).part == part;
            if i < front.len() {
                assert(front[i].part == part);
            }
        }
        if last.part == part {
            assert(parts[parts.len() - 1].part == part);
            assert(copies[0].part == n);
        }
        if copied(rest, n) {
            let k = choose|k: int| 0 <= k < rest.len() && (#[trigger] rest[k]).part == n;
            if last.part is Part {
                assert(copies[k + 1] == rest[k]);
            } else {
                assert(copies[k] == rest[k]);
            }
        }
        if copied(copies, n) {
            let k = choose|k: int| 0 <= k < copies.len() && (#[trigger] copies[k]).part == n;
            if last.part is Part {
                if k > 0 {
                    assert(rest[k - 1] == copies[k]);
                }
            } else {
                assert(rest[k] == copies[k]);
            }
        }
    }
    if copied(copies, n) {
        let k = choose|k: int| 0 <= k < copies.len() && (#[trigger] copies[k]).part == n;
        assert(copies[k] == copy_of(header, copies[k].part));
    }
}

/// Every step of a split is the step of its part.
pub proof fn lemma_split_copies_are_copies(header: HeaderChunkView, parts: Seq<ManagedFileStatePart>)
    ensures
        forall|k: int|
            0 <= k < split_copies(header, parts).len() ==> (#[trigger] split_copies(
                header,
                parts,
            )[k]) == copy_of(header, split_copies(header, parts)[k].part),
    decreases parts.len(),
{
    if parts.len() > 0 {
        let copies = split_copies(header, parts);
        let rest = split_copies(header, parts.drop_last());
        lemma_split_copies_are_copies(header, parts.drop_last());
        assert forall|k: int| 0 <= k < copies.len() implies (#[trigger] copies[k]) == copy_of(
            header,
            copies[k].part,
        ) by {
            if parts.last().part is Part {
                if k > 0 {
                    assert(copies[k] == rest[k - 1]);
                }
            } else {
                assert(copies[k] == rest[k]);
            }
        }
    }
}

/// The parts that remain after an acknowledgement remained before it: no
/// part comes back. Where the range covers a part that remained, fewer
/// remain; where it covers none, nothing changes.
pub proof fn lemma_ack_monotone(file: ManagedFileView, range: FilePartIdRangeInclusive)
    requires
        file.wf(),
    ensures
        file.acknowledged(range).wf(),
        forall|part: FilePartId| #[trigger]
            file.acknowledged(range).has(part) ==> file.has(part),
        forall|part: FilePartId| range.covers(part) ==> !(#[trigger] file.acknowledged(range).has(part)),
        (exists|part: FilePartId| #[trigger] file.has(part) && range.covers(part))
            ==> file.acknowledged(range).parts.len() < file.parts.len(),
        (forall|part: FilePartId| #[trigger] file.has(part) ==> !range.covers(part))
            ==> file.acknowledged(range).parts == file.parts,
{
    lemma_acknowledged_wf(file, range);
    lemma_without_range(file.parts, range);
    assert forall|part: FilePartId|
        (#[trigger] file.acknowledged(range).has(part) ==> file.has(part)) && (range.covers(part)
            ==> !file.acknowledged(range).has(part)) by {
        lemma_without_range_has(file.parts, range, part);
    }
    if exists|part: FilePartId| #[trigger] file.has(part) && range.covers(part) {
        let part = choose|part: FilePartId| #[trigger] file.has(part) && range.covers(part);
        let i = choose|i: int| 0 <= i < file.parts.len() && (#[trigger] file.parts[i]).part == part;
        assert(range.covers(file.parts[i].part));
    }
    if forall|part: FilePartId| #[trigger] file.has(part) ==> !range.covers(part) {
        assert forall|i: int| 0 <= i < file.parts.len() implies !range.covers(
            (#[trigger] file.parts[i]).part,
        ) by {
            assert(file.has(file.parts[i].part));
        }
        assert(without_range(file.parts, range) == file.parts);
    }
}

/// An acknowledgement that comes a second time changes nothing.
pub proof fn lemma_ack_again(file: ManagedFileView, range: FilePartIdRangeInclusive)
    requires
        file.wf(),
    ensures
        file.acknowledged(range).acknowledged(range) == file.acknowledged(range),
        file.acknowledged(range).ack_effect(range).truncate_data_to is None,
        file.acknowledged(range).ack_effect(range).removed_parts == Seq::<u32>::empty(),
{
    let once = file.acknowledged(range);
    lemma_acknowledged_wf(file, range);
    lemma_without_range(file.parts, range);
    assert forall|i: int| 0 <= i < once.parts.len() implies !range.covers(
        (#[trigger] once.parts[i]).part,
    ) by {
        assert(once.parts.contains(once.parts[i]));
    }
    lemma_without_range(once.parts, range);
    assert(without_range(once.parts, range) == once.parts);
    lemma_nothing_removed(once.parts, range);
}

/// Where the range covers no part that remains, no file is removed.
proof fn lemma_nothing_removed(parts: Seq<ManagedFileStatePart>, range: FilePartIdRangeInclusive)
    requires
        forall|i: int| 0 <= i < parts.len() ==> !range.covers((#[trigger] parts[i]).part),
    ensures
        removed_bodies(parts, range) == Seq::<u32>::empty(),
    decreases parts.len(),
{
    if parts.len() > 0 {
        let front = parts.drop_last();
        assert forall|i: int| 0 <= i < front.len() implies !range.covers(
            (#[trigger] front[i]).part,
        ) by {
            assert(front[i] == parts[i]);
        }
        lemma_nothing_removed(front, range);
        assert(!range.covers(parts[parts.len() - 1].part));
    }
}

/// An acknowledgement leaves the directory in step with the record, and the
/// bytes of every part that still remains as they were.
pub proof fn lemma_ack_keeps_data(file: ManagedFileView, folder: Folder, range: FilePartIdRangeInclusive)
    requires
        file.wf(),
        holds(file, folder),
    ensures
        holds(
            file.acknowledged(range),
            after_ack(folder, file.ack_effect(range)),
        ),
        forall|n: u32| #[trigger]
            file.acknowledged(range).has(FilePartId::Part(n)) ==> part_bytes(
                file.acknowledged(range),
                after_ack(folder, file.ack_effect(range)),
                n,
            ) == part_bytes(file, folder, n),
{
    let after = file.acknowledged(range);
    let folder_after = after_ack(folder, file.ack_effect(range));
    lemma_acknowledged_wf(file, range);
    match file.mode {
        ManagedFileMode::Contiguous => {
            let data = folder.data_bin->Some_0;
            assert forall|n: u32| #[trigger] after.has(FilePartId::Part(n)) implies part_bytes(
                after,
                folder_after,
                n,
            ) == part_bytes(file, folder, n) by {
                let i = choose|i: int|
                    0 <= i < after.parts.len() && (#[trigger] after.parts[i]).part
                        == FilePartId::Part(n);
                assert(after.parts[i].part is Part);
                assert(after.header.part_end(n) <= after.data_len);
                assert(folder_after.data_bin->Some_0.subrange(
                    file.header.part_start(n) as int,
                    file.header.part_end(n) as int,
                ) =~= data.subrange(
                    file.header.part_start(n) as int,
                    file.header.part_end(n) as int,
                ));
            }
        },
        ManagedFileMode::Split => {
            let files = folder.data_dir->Some_0;
            let removed = removed_bodies(file.parts, range);
            let left = files.remove_keys(removed.to_set());
            assert forall|n: u32| #[trigger] left.dom().contains(n) <==> after.has(
                FilePartId::Part(n),
            ) by {
                lemma_removed_bodies(file.parts, range, n);
                lemma_without_range_has(file.parts, range, FilePartId::Part(n));
                assert(removed.to_set().contains(n) <==> removed.contains(n));
            }
            assert forall|n: u32| #[trigger] after.has(FilePartId::Part(n)) implies part_bytes(
                after,
                folder_after,
                n,
            ) == part_bytes(file, folder, n) by {
                assert(left.dom().contains(n));
                assert(left[n] == files[n]);
            }
        },
    }
}

/// A split loses nothing: afterwards the directory is in step with the
/// record, and every part that remains has the bytes that it had in
/// `data.bin`.
pub proof fn lemma_split_keeps_data(file: ManagedFileView, folder: Folder)
    requires
        file.wf(),
        file.mode == ManagedFileMode::Contiguous,
        holds(file, folder),
    ensures
        file.split().wf(),
        holds(file.split(), after_split(folder, file.split_effect().copies)),
        forall|n: u32| #[trigger]
            file.has(FilePartId::Part(n)) ==> part_bytes(
                file.split(),
                after_split(folder, file.split_effect().copies),
                n,
            ) == part_bytes(file, folder, n),
{
    let copies = split_copies(file.header, file.parts);
    let after = after_split(folder, copies);
    let files = after.data_dir->Some_0;
    assert forall|n: u32|
        (#[trigger] files.dom().contains(n) <==> file.has(FilePartId::Part(n))) && (
        files.dom().contains(n) ==> files[n].len() == file.header.part_len(n) && files[n]
            == part_bytes(file, folder, n)) by {
        lemma_split_copies(file.header, file.parts, n);
        if file.has(FilePartId::Part(n)) {
            let i = choose|i: int|
                0 <= i < file.parts.len() && (#[trigger] file.parts[i]).part == FilePartId::Part(
                    n,
                );
            assert(file.parts[i].part is Part);
            file.header.lemma_part_bounds(n);
            assert(file.header.part_end(n) <= file.data_len);
        }
    }
    assert forall|n: u32| #[trigger] file.has(FilePartId::Part(n)) implies part_bytes(
        file.split(),
        after,
        n,
    ) == part_bytes(file, folder, n) by {
        assert(files.dom().contains(n));
    }
}

/// A split that is run again, after an earlier run stopped before it had
/// removed `data.bin`, leaves the directory as a single run does: whatever
/// files the earlier run wrote are written again from the same bytes.
pub proof fn lemma_split_again(file: ManagedFileView, folder: Folder, written: Map<u32, Seq<u8>>)
    requires
        file.wf(),
        file.mode == ManagedFileMode::Contiguous,
        holds(file, folder),
    ensures
        after_split(
            Folder { data_bin: folder.data_bin, data_dir: Some(written) },
            file.split_effect().copies,
        ) == after_split(folder, file.split_effect().copies),
{
}

} // verus!
