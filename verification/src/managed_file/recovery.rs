//! Reading a managed file back from its directory, and mending what an
//! interruption left behind.
//!
//! | what is found                                   | what is done            |
//! |-------------------------------------------------|-------------------------|
//! | `header.bin`, `state.bin` or `mode.bin` missing | the directory goes      |
//! | contiguous, `data.bin` missing                  | the directory goes      |
//! | contiguous, `data/` there                       | the split is run again  |
//! | split, `data/` missing                          | the directory goes      |
//! | split, `data.bin` there                         | `data.bin` goes         |
//! | split, a file under `data/` that no part needs  | the file goes           |
//! | split, a part without its file under `data/`    | the directory goes      |

use crate::validity::ValidityCheck;
use crate::binary_serialize::BinarySerialize;
use crate::chunks::{HeaderChunk, HeaderChunkView, MAX_PART_LEN};
use crate::file_part_id::FilePartId;
use crate::managed_file::mode::ManagedFileMode;
use crate::managed_file::names::{part_file_name, part_of_file_name, lemma_part_file_name_injective};
use crate::managed_file::state::{has_part, parts_of_wire, rising};
use crate::managed_file::state::{ManagedFileState, ManagedFileStatePart};
use crate::managed_file::{ManagedFile, ManagedFileView, SplitEffect};
use crate::substream::{DecodeError, SubstreamReader};
use vstd::prelude::*;

verus! {

/// What a directory holds, as far as a managed file goes: the bytes of the
/// three small files, the length of `data.bin`, and the names of the files
/// under `data/`; each only if it is there.
#[derive(Debug, PartialEq, Eq)]
pub struct FolderListing {
    pub header_bin: Option<Vec<u8>>,
    pub state_bin: Option<Vec<u8>>,
    pub mode_bin: Option<Vec<u8>>,
    pub data_bin_len: Option<u64>,
    pub data_dir: Option<Vec<Vec<u8>>>,
}

/// What is to be removed from a directory whose file survives.
#[derive(Debug, PartialEq, Eq)]
pub struct Cleanup {
    /// `data.bin` is stale: the file is split.
    pub remove_data_bin: bool,
    /// The files under `data/` that no part needs, by their place in the
    /// listing.
    pub remove_data_files: Vec<usize>,
    /// The split that was interrupted and is now run again.
    pub split: Option<SplitEffect>,
}

/// What became of a directory.
#[derive(Debug, PartialEq, Eq)]
pub enum Recovery {
    /// It holds no managed file: it is to be removed.
    Invalid,
    /// It holds this file, once the cleanup is done.
    Valid(ManagedFile, Cleanup),
}

/// The names in a listing.
pub open spec fn names_of(names: Vec<Vec<u8>>) -> Seq<Seq<u8>> {
    Seq::new(names@.len(), |i: int| names@[i]@)
}

/// Whether `name` is the name of the file of a body part that remains.
pub open spec fn wanted(parts: Seq<ManagedFileStatePart>, name: Seq<u8>) -> bool {
    exists|i: int|
        0 <= i < parts.len() && (#[trigger] parts[i]).part is Part && name == part_file_name(
            parts[i].part->Part_0,
        )
}

/// The places in `names` of the names that no part needs, in order.
pub open spec fn extra_indices(parts: Seq<ManagedFileStatePart>, names: Seq<Seq<u8>>) -> Seq<usize>
    decreases names.len(),
{
    if names.len() == 0 {
        Seq::empty()
    } else if wanted(parts, names.last()) {
        extra_indices(parts, names.drop_last())
    } else {
        extra_indices(parts, names.drop_last()).push((names.len() - 1) as usize)
    }
}

/// Whether every body part that remains has its file among `names`.
pub open spec fn all_present(parts: Seq<ManagedFileStatePart>, names: Seq<Seq<u8>>) -> bool {
    forall|i: int|
        0 <= i < parts.len() && (#[trigger] parts[i]).part is Part ==> names.contains(
            part_file_name(parts[i].part->Part_0),
        )
}

/// What the three small files say, if they can be read and agree with each
/// other: a valid header whose parts fit a chunk, a state in rising order of
/// parts of this file, and a mode.
pub open spec fn metadata_of(header_bin: Seq<u8>, state_bin: Seq<u8>, mode_bin: Seq<u8>) -> Option<
    ManagedFileView,
> {
    match (HeaderChunkView::decoded(header_bin), ManagedFileMode::decoded(mode_bin)) {
        (Ok((header, _)), Ok((mode, _))) => {
            let parts = parts_of_wire(state_bin);
            if state_bin.len() % 6 == 0 && rising(parts) && header.valid() && header.file_part_size
                <= MAX_PART_LEN && (forall|i: int|
                0 <= i < parts.len() && (#[trigger] parts[i]).part is Part ==> parts[i].part->Part_0
                    < header.part_count) {
                Some(ManagedFileView { header, mode, parts, data_len: 0 })
            } else {
                None
            }
        },
        _ => None,
    }
}

/// The length of `data.bin` that the record keeps: what is on disk, but no
/// more than the file's size.
pub open spec fn kept_data_len(header: HeaderChunkView, on_disk: u64) -> u64 {
    if on_disk <= header.size {
        on_disk
    } else {
        header.size
    }
}

/// What is to become of a directory.
pub enum Verdict {
    /// The small files are there but cannot be read, or disagree.
    Unreadable,
    /// The directory holds no managed file.
    Invalid,
    /// The directory holds a file in contiguous mode; the split is run
    /// again where `data/` is there.
    Contiguous { file: ManagedFileView, split_again: bool },
    /// The directory holds a file in split mode.
    Split { file: ManagedFileView, remove_data_bin: bool, remove_data_files: Seq<usize> },
}

/// The decision table.
pub open spec fn verdict(listing: FolderListing) -> Verdict {
    if listing.header_bin is None || listing.state_bin is None || listing.mode_bin is None {
        if listing.header_bin is Some && HeaderChunkView::decoded(
            listing.header_bin->Some_0@,
        ) is Err {
            Verdict::Unreadable
        } else if listing.header_bin is Some && listing.state_bin is Some && !state_readable(
            listing.state_bin->Some_0@,
        ) {
            Verdict::Unreadable
        } else {
            Verdict::Invalid
        }
    } else {
        match metadata_of(
            listing.header_bin->Some_0@,
            listing.state_bin->Some_0@,
            listing.mode_bin->Some_0@,
        ) {
            None => Verdict::Unreadable,
            Some(file) => match file.mode {
                ManagedFileMode::Contiguous => match listing.data_bin_len {
                    None => Verdict::Invalid,
                    Some(on_disk) => {
                        let data_len = kept_data_len(file.header, on_disk);
                        let file = ManagedFileView { data_len, ..file };
                        if file.wf() {
                            Verdict::Contiguous { file, split_again: listing.data_dir is Some }
                        } else {
                            Verdict::Unreadable
                        }
                    },
                },
                ManagedFileMode::Split => match listing.data_dir {
                    None => Verdict::Invalid,
                    Some(names) => if all_present(file.parts, names_of(names)) {
                        Verdict::Split {
                            file,
                            remove_data_bin: listing.data_bin_len is Some,
                            remove_data_files: extra_indices(file.parts, names_of(names)),
                        }
                    } else {
                        Verdict::Invalid
                    },
                },
            },
        }
    }
}

/// Whether a state file is made of whole records in rising order of parts.
pub open spec fn state_readable(state_bin: Seq<u8>) -> bool {
    state_bin.len() % 6 == 0 && rising(parts_of_wire(state_bin))
}

/// Which of the parts have their file among the names, and which names no
/// part needs.
fn match_names(state: &ManagedFileState, names: &Vec<Vec<u8>>) -> (r: (bool, Vec<usize>))
    requires
        state.wf(),
    ensures
        r.0 == all_present(state@, names_of(*names)),
        r.1@ == extra_indices(state@, names_of(*names)),
{
    let parts = state.remaining_parts();
    let ghost all = names_of(*names);
    let mut found: Vec<bool> = Vec::new();
    let mut p: usize = 0;
    while p < parts.len()
        invariant
            p <= parts@.len(),
            found@.len() == p,
            forall|j: int| 0 <= j < p ==> !(#[trigger] found@[j]),
        decreases parts@.len() - p,
    {
        found.push(false);
        p += 1;
    }
    let mut extras: Vec<usize> = Vec::new();
    let mut k: usize = 0;
    assert(all.take(0) =~= Seq::<Seq<u8>>::empty());
    while k < names.len()
        invariant
            k <= names@.len(),
            all == names_of(*names),
            parts@ == state@,
            state.wf(),
            found@.len() == parts@.len(),
            forall|j: int|
                0 <= j < parts@.len() && parts@[j].part is Part ==> (#[trigger] found@[j]
                    <==> all.take(k as int).contains(part_file_name(parts@[j].part->Part_0))),
            extras@ == extra_indices(parts@, all.take(k as int)),
        decreases names@.len() - k,
    {
        let ghost seen = all.take(k as int);
        let ghost next = all.take(k + 1);
        let ghost name = names@[k as int]@;
        proof {
            assert(next.drop_last() =~= seen);
            assert(next.last() == name);
            assert(all[k as int] == name);
        }
        let candidate = part_of_file_name(names[k].as_slice());
        let hit = match candidate {
            Some(n) => state.position(FilePartId::Part(n)),
            None => None,
        };
        match hit {
            Some(pos) => {
                let ghost before = found@;
                found.set(pos, true);
                proof {
                    let n = parts@[pos as int].part->Part_0;
                    assert(name == part_file_name(n));
                    assert(wanted(parts@, name));
                    assert forall|j: int|
                        0 <= j < parts@.len() && parts@[j].part is Part implies (#[trigger] found@[j]
                        <==> next.contains(part_file_name(parts@[j].part->Part_0))) by {
                        let m = parts@[j].part->Part_0;
                        if j == pos {
                            assert(next[k as int] == part_file_name(m));
                        } else {
                            assert(found@[j] == before[j]);
                            if name == part_file_name(m) {
                                lemma_part_file_name_injective(n, m);
                                assert(parts@[j].part == parts@[pos as int].part);
                                if j < pos {
                                    assert(parts@[j].part.rank() < parts@[pos as int].part.rank());
                                } else {
                                    assert(parts@[pos as int].part.rank() < parts@[j].part.rank());
                                }
                            }
                            lemma_contains_step(seen, name, part_file_name(m));
                        }
                    }
                }
            },
            None => {
                extras.push(k);
                proof {
                    assert(!wanted(parts@, name)) by {
                        if wanted(parts@, name) {
                            let i = choose|i: int|
                                0 <= i < parts@.len() && (#[trigger] parts@[i]).part is Part && name
                                    == part_file_name(parts@[i].part->Part_0);
                            let m = parts@[i].part->Part_0;
                            assert(parts@[i].part == FilePartId::Part(m));
                            match candidate {
                                Some(n) => {
                                    lemma_part_file_name_injective(n, m);
                                    assert(has_part(parts@, FilePartId::Part(n)));
                                },
                                None => {
                                    assert(name != part_file_name(m));
                                },
                            }
                        }
                    }
                    assert forall|j: int|
                        0 <= j < parts@.len() && parts@[j].part is Part implies (#[trigger] found@[j]
                        <==> next.contains(part_file_name(parts@[j].part->Part_0))) by {
                        let m = parts@[j].part->Part_0;
                        if name == part_file_name(m) {
                            assert(wanted(parts@, name));
                        }
                        lemma_contains_step(seen, name, part_file_name(m));
                    }
                }
            },
        }
        k += 1;
    }
    assert(all.take(names@.len() as int) =~= all);
    let mut complete = true;
    let mut p: usize = 0;
    while p < parts.len()
        invariant
            p <= parts@.len(),
            found@.len() == parts@.len(),
            complete <==> (forall|j: int|
                0 <= j < p && (#[trigger] parts@[j]).part is Part ==> found@[j]),
        decreases parts@.len() - p,
    {
        if let FilePartId::Part(_) = parts[p].part {
            if !found[p] {
                complete = false;
            }
        }
        p += 1;
    }
    (complete, extras)
}

/// A name is among the names seen so far and one more if it is that one or
/// was among those seen.
proof fn lemma_contains_step(seen: Seq<Seq<u8>>, name: Seq<u8>, wanted_name: Seq<u8>)
    ensures
        seen.push(name).contains(wanted_name) <==> seen.contains(wanted_name) || name == wanted_name,
{
    let next = seen.push(name);
    if seen.contains(wanted_name) {
        let i = choose|i: int| 0 <= i < seen.len() && seen[i] == wanted_name;
        assert(next[i] == wanted_name);
    }
    if name == wanted_name {
        assert(next[seen.len() as int] == wanted_name);
    }
    if next.contains(wanted_name) {
        let i = choose|i: int| 0 <= i < next.len() && next[i] == wanted_name;
        if i < seen.len() {
            assert(seen[i] == wanted_name);
        }
    }
}

impl ManagedFile {
    /// Reads a managed file from what its directory holds, and says what is
    /// to be mended. Fails where the small files are there but cannot be
    /// read or disagree with each other or with the length of `data.bin`.
    pub fn try_read_from_path(listing: &FolderListing) -> (r: Result<Recovery, DecodeError>)
        ensures
            match verdict(*listing) {
                Verdict::Unreadable => r == Err::<Recovery, DecodeError>(DecodeError::InvalidData),
                Verdict::Invalid => r == Ok::<Recovery, DecodeError>(Recovery::Invalid),
                Verdict::Contiguous { file, split_again } => {
                    &&& r matches Ok(Recovery::Valid(found, cleanup))
                    &&& found.wf()
                    &&& !cleanup.remove_data_bin
                    &&& cleanup.remove_data_files@.len() == 0
                    &&& if split_again {
                        &&& found@ == file.split()
                        &&& cleanup.split is Some
                        &&& cleanup.split->Some_0@ == file.split_effect()
                    } else {
                        found@ == file && cleanup.split is None
                    }
                },
                Verdict::Split { file, remove_data_bin, remove_data_files } => {
                    &&& r matches Ok(Recovery::Valid(found, cleanup))
                    &&& found.wf()
                    &&& found@ == file
                    &&& cleanup.remove_data_bin == remove_data_bin
                    &&& cleanup.remove_data_files@ == remove_data_files
                    &&& cleanup.split is None
                },
            },
    {
        // Without its header a directory holds nothing.
        let header_bin = match &listing.header_bin {
            Some(bytes) => bytes,
            None => {
                return Ok(Recovery::Invalid);
            },
        };
        let mut reader = SubstreamReader::new(header_bin.as_slice(), header_bin.len());
        assert(reader.unread() =~= header_bin@);
        let header = match HeaderChunk::deserialize_from_stream(&mut reader) {
            Ok(header) => header,
            Err(_) => {
                return Err(DecodeError::InvalidData);
            },
        };
        // Nor without its state.
        let state_bin = match &listing.state_bin {
            Some(bytes) => bytes,
            None => {
                return Ok(Recovery::Invalid);
            },
        };
        let state = match ManagedFileState::load_from_file(state_bin.as_slice()) {
            Ok(state) => state,
            Err(_) => {
                return Err(DecodeError::InvalidData);
            },
        };
        // Nor without its mode.
        let mode_bin = match &listing.mode_bin {
            Some(bytes) => bytes,
            None => {
                return Ok(Recovery::Invalid);
            },
        };
        let mut reader = SubstreamReader::new(mode_bin.as_slice(), mode_bin.len());
        assert(reader.unread() =~= mode_bin@);
        let mode = match ManagedFileMode::deserialize_from_stream(&mut reader) {
            Ok(mode) => mode,
            Err(_) => {
                return Err(DecodeError::InvalidData);
            },
        };
        // The three must agree.
        if !header.is_valid() || header.file_part_size > MAX_PART_LEN {
            return Err(DecodeError::InvalidData);
        }
        let parts = state.remaining_parts();
        let mut in_range = true;
        let mut p: usize = 0;
        while p < parts.len()
            invariant
                p <= parts@.len(),
                in_range <==> (forall|i: int|
                    0 <= i < p && (#[trigger] parts@[i]).part is Part ==> parts@[i].part->Part_0
                        < header.part_count),
            decreases parts@.len() - p,
        {
            if let FilePartId::Part(n) = parts[p].part {
                if n >= header.part_count {
                    in_range = false;
                }
            }
            p += 1;
        }
        if !in_range {
            return Err(DecodeError::InvalidData);
        }
        let ghost meta = metadata_of(header_bin@, state_bin@, mode_bin@)->Some_0;
        assert(metadata_of(header_bin@, state_bin@, mode_bin@) is Some);
        match mode {
            ManagedFileMode::Contiguous => {
                // A contiguous file without its data was never fully made.
                let on_disk = match listing.data_bin_len {
                    Some(len) => len,
                    None => {
                        return Ok(Recovery::Invalid);
                    },
                };
                let data_len = if on_disk <= header.size {
                    on_disk
                } else {
                    header.size
                };
                // The data must reach as far as the last part that remains.
                if parts.len() > 0 {
                    if let FilePartId::Part(last) = parts[parts.len() - 1].part {
                        proof {
                            header@.lemma_part_bounds(last);
                            assert(last as nat * header.file_part_size as nat <= 0xFFFF_FFFF
                                * 0x10_0000) by (nonlinear_arith)
                                requires
                                    last <= 0xFFFF_FFFF,
                                    header.file_part_size <= 0x10_0000,
                            ;
                        }
                        let start = last as u64 * header.file_part_size as u64;
                        let end = if start + header.file_part_size as u64 <= header.size {
                            start + header.file_part_size as u64
                        } else {
                            header.size
                        };
                        if end > data_len {
                            proof {
                                let v = ManagedFileView { data_len, ..meta };
                                assert(v.parts[v.parts.len() - 1].part is Part);
                                assert(!v.wf());
                            }
                            return Err(DecodeError::InvalidData);
                        }
                        proof {
                            let v = ManagedFileView { data_len, ..meta };
                            assert forall|i: int|
                                0 <= i < v.parts.len() && (#[trigger] v.parts[i]).part is Part implies v.header.part_end(
                                v.parts[i].part->Part_0,
                            ) <= v.data_len by {
                                let n = v.parts[i].part->Part_0;
                                if i < v.parts.len() - 1 {
                                    assert(v.parts[i].part.rank() < v.parts[v.parts.len()
                                        - 1].part.rank());
                                    v.header.lemma_parts_in_order(n, last);
                                    v.header.lemma_part_bounds(n);
                                }
                            }
                        }
                    } else {
                        proof {
                            crate::managed_file::lemma_bodies_below(parts@);
                        }
                    }
                }
                let mut file = ManagedFile::assemble(header, mode, state, data_len);
                let mut cleanup = Cleanup {
                    remove_data_bin: false,
                    remove_data_files: Vec::new(),
                    split: None,
                };
                // A contiguous file with a data folder was being split.
                if listing.data_dir.is_some() {
                    match file.trigger_file_split() {
                        Ok(effect) => {
                            cleanup.split = Some(effect);
                        },
                        Err(_) => {},
                    }
                }
                Ok(Recovery::Valid(file, cleanup))
            },
            ManagedFileMode::Split => {
                // A split file without its data folder has lost its data.
                let names = match &listing.data_dir {
                    Some(names) => names,
                    None => {
                        return Ok(Recovery::Invalid);
                    },
                };
                let (complete, extras) = match_names(&state, names);
                if !complete {
                    return Ok(Recovery::Invalid);
                }
                let file = ManagedFile::assemble(header, mode, state, 0);
                let cleanup = Cleanup {
                    remove_data_bin: listing.data_bin_len.is_some(),
                    remove_data_files: extras,
                    split: None,
                };
                Ok(Recovery::Valid(file, cleanup))
            },
        }
    }
}

} // verus!
