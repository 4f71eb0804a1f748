//! When a file is whole, under which name it is handed out, and why the
//! order in which its chunks arrive makes no difference.

use crate::validity::ValidityCheck;
use crate::chunks::{ChunkView, HeaderChunk, HeaderChunkView};
use crate::decimal::{decimal, decimal_digits, same_bytes};
use crate::managed_file::names::{part_file_name, part_file_name_of};
use crate::receiver::{action_for, ReceiveActionView, Reciever};
use vstd::prelude::*;

verus! {

/// What the work directory of one file holds: whether the file is marked
/// as finished, the header if it arrived, and the names of the files under
/// `data/`.
#[derive(Debug, PartialEq, Eq)]
pub struct ManagedReceivingFile {
    finished: bool,
    header: Option<HeaderChunk>,
    part_files: Vec<Vec<u8>>,
}

/// Whether `name` is among `names`.
pub open spec fn listed(names: Seq<Vec<u8>>, name: Seq<u8>) -> bool {
    exists|k: int| 0 <= k < names.len() && (#[trigger] names[k])@ == name
}

/// Whether the files of all body parts up to `count` are among `names`.
pub open spec fn parts_listed(names: Seq<Vec<u8>>, count: int) -> bool {
    forall|n: u32| n < count ==> listed(names, #[trigger] part_file_name(n))
}

/// The name `data`.
pub open spec fn data_folder_name() -> Seq<u8> {
    seq![0x64u8, 0x61u8, 0x74u8, 0x61u8]
}

/// The name `data/header.json`.
pub open spec fn header_json_name() -> Seq<u8> {
    data_folder_name() + seq![
        0x2Fu8,
        0x68u8,
        0x65u8,
        0x61u8,
        0x64u8,
        0x65u8,
        0x72u8,
        0x2Eu8,
        0x6Au8,
        0x73u8,
        0x6Fu8,
        0x6Eu8,
    ]
}

/// The name `finished`.
pub open spec fn marker_name() -> Seq<u8> {
    seq![0x66u8, 0x69u8, 0x6Eu8, 0x69u8, 0x73u8, 0x68u8, 0x65u8, 0x64u8]
}

/// The name `data/<N>.bin`.
pub open spec fn bin_name(part: u32) -> Seq<u8> {
    data_folder_name() + seq![0x2Fu8] + part_file_name(part)
}

impl ManagedReceivingFile {
    /// Whether the marker is there.
    pub closed spec fn marked(&self) -> bool {
        self.finished
    }

    /// The header, if it arrived.
    pub closed spec fn stored_header(&self) -> Option<HeaderChunk> {
        self.header
    }

    /// The names of the files under `data/`.
    pub closed spec fn names(&self) -> Seq<Vec<u8>> {
        self.part_files@
    }

    pub fn new(finished: bool, header: Option<HeaderChunk>, part_files: Vec<Vec<u8>>) -> (file: Self)
        ensures
            file.marked() == finished,
            file.stored_header() == header,
            file.names() == part_files@,
    {
        ManagedReceivingFile { finished, header, part_files }
    }

    /// Whether the file was handed out already.
    pub fn is_finished(&self) -> (finished: bool)
        ensures
            finished == self.marked(),
    {
        self.finished
    }

    /// Whether the file is whole: its header arrived, and so did every one
    /// of the body parts that the header counts.
    pub fn is_file_data_finished(&self) -> (whole: bool)
        ensures
            whole == (self.stored_header() is Some && parts_listed(
                self.names(),
                self.stored_header()->Some_0.part_count as int,
            )),
    {
        let header = match &self.header {
            Some(header) => header,
            None => {
                return false;
            },
        };
        let mut part_index: u32 = 0;
        while part_index < header.part_count
            invariant
                part_index <= header.part_count,
                self.stored_header() == Some(*header),
                parts_listed(self.names(), part_index as int),
            decreases header.part_count - part_index,
        {
            let wanted = part_file_name_of(part_index);
            let mut found = false;
            let mut k: usize = 0;
            while k < self.part_files.len() && !found
                invariant
                    k <= self.part_files@.len(),
                    wanted@ == part_file_name(part_index),
                    found ==> listed(self.names(), wanted@),
                    !found ==> forall|j: int| 0 <= j < k ==> (#[trigger] self.names()[j])@ != wanted@,
                decreases self.part_files@.len() - k, !found as int,
            {
                if same_bytes(self.part_files[k].as_slice(), wanted.as_slice()) {
                    found = true;
                } else {
                    k += 1;
                }
            }
            if !found {
                proof {
                    assert(!listed(self.names(), part_file_name(part_index)));
                }
                return false;
            }
            proof {
                assert forall|n: u32| n < part_index + 1 implies listed(
                    self.names(),
                    #[trigger] part_file_name(n),
                ) by {
                    if n < part_index {
                    }
                }
            }
            part_index += 1;
        }
        true
    }

    /// The name of the directory that holds what arrived of the file.
    pub fn get_data_folder_path(&self) -> (name: Vec<u8>)
        ensures
            name@ == data_folder_name(),
    {
        let mut name: Vec<u8> = Vec::new();
        name.push(0x64);
        name.push(0x61);
        name.push(0x74);
        name.push(0x61);
        assert(name@ =~= data_folder_name());
        name
    }

    /// The name of the file that holds the header.
    pub fn get_header_json_path(&self) -> (name: Vec<u8>)
        ensures
            name@ == header_json_name(),
    {
        let mut name = self.get_data_folder_path();
        name.push(0x2F);
        name.push(0x68);
        name.push(0x65);
        name.push(0x61);
        name.push(0x64);
        name.push(0x65);
        name.push(0x72);
        name.push(0x2E);
        name.push(0x6A);
        name.push(0x73);
        name.push(0x6F);
        name.push(0x6E);
        assert(name@ =~= header_json_name());
        name
    }

    /// The name of the file that marks the file as finished.
    pub fn get_marker_file_path(&self) -> (name: Vec<u8>)
        ensures
            name@ == marker_name(),
    {
        let mut name: Vec<u8> = Vec::new();
        name.push(0x66);
        name.push(0x69);
        name.push(0x6E);
        name.push(0x69);
        name.push(0x73);
        name.push(0x68);
        name.push(0x65);
        name.push(0x64);
        assert(name@ =~= marker_name());
        name
    }

    /// The name of the file that holds body part `part_index`.
    pub fn get_bin_path(&self, part_index: u32) -> (name: Vec<u8>)
        ensures
            name@ == bin_name(part_index),
    {
        let mut name = self.get_data_folder_path();
        name.push(0x2F);
        let file_name = part_file_name_of(part_index);
        name.extend_from_slice(file_name.as_slice());
        assert(name@ =~= bin_name(part_index));
        name
    }
}

/// The `n`th name that a file called `name` may be handed out under: the
/// name itself, then the name with ` (1)`, ` (2)` and so on behind it.
pub open spec fn candidate_name(name: Seq<u8>, n: nat) -> Seq<u8> {
    if n == 0 {
        name
    } else {
        name + seq![0x20u8, 0x28u8] + decimal(n) + seq![0x29u8]
    }
}

/// What each of the names holds.
pub open spec fn views(names: Seq<Vec<u8>>) -> Seq<Seq<u8>> {
    Seq::new(names.len(), |k: int| names[k]@)
}

/// The number of the first candidate name from the `from`th on that is not
/// among `taken`; none if all of them up to the last are taken.
pub open spec fn first_free(name: Seq<u8>, taken: Seq<Seq<u8>>, from: nat) -> Option<nat>
    decreases 0x1_0000_0000 - from,
{
    if from > u32::MAX {
        None
    } else if !taken.contains(candidate_name(name, from)) {
        Some(from)
    } else {
        first_free(name, taken, from + 1)
    }
}

/// The name under which a file called `name` is handed out, where the names
/// in `taken` are in use: the first of its candidate names that is free.
pub open spec fn free_name(name: Seq<u8>, taken: Seq<Seq<u8>>) -> Option<Seq<u8>> {
    match first_free(name, taken, 0) {
        Some(n) => Some(candidate_name(name, n)),
        None => None,
    }
}

/// The first free name is free, and every candidate before it is taken.
pub proof fn lemma_first_free(name: Seq<u8>, taken: Seq<Seq<u8>>, from: nat)
    ensures
        match first_free(name, taken, from) {
            Some(n) => from <= n <= u32::MAX && !taken.contains(candidate_name(name, n))
                && forall|m: nat| from <= m < n ==> taken.contains(#[trigger] candidate_name(name, m)),
            None => forall|m: nat|
                from <= m <= u32::MAX ==> taken.contains(#[trigger] candidate_name(name, m)),
        },
    decreases 0x1_0000_0000 - from,
{
    if from <= u32::MAX && taken.contains(candidate_name(name, from)) {
        lemma_first_free(name, taken, from + 1);
    }
}

/// The name under which a file called `name` is handed out, where the names
/// in `taken` are in use: the first of its candidate names that is free.
/// There is none only if all of them are taken.
pub fn output_file_name(name: &[u8], taken: &Vec<Vec<u8>>) -> (free: Option<Vec<u8>>)
    ensures
        match free {
            Some(found) => free_name(name@, views(taken@)) == Some(found@),
            None => free_name(name@, views(taken@)) is None,
        },
{
    let mut i: u32 = 0;
    loop
        invariant
            first_free(name@, views(taken@), 0) == first_free(name@, views(taken@), i as nat),
        decreases u32::MAX - i,
    {
        let mut candidate = vstd::slice::slice_to_vec(name);
        if i > 0 {
            candidate.push(0x20);
            candidate.push(0x28);
            let digits = decimal_digits(i);
            candidate.extend_from_slice(digits.as_slice());
            candidate.push(0x29);
        }
        assert(candidate@ =~= candidate_name(name@, i as nat));
        let mut in_use = false;
        let mut k: usize = 0;
        while k < taken.len() && !in_use
            invariant
                k <= taken@.len(),
                in_use ==> views(taken@).contains(candidate@),
                !in_use ==> forall|j: int| 0 <= j < k ==> (#[trigger] taken@[j])@ != candidate@,
            decreases taken@.len() - k, (if in_use { 0int } else { 1int }),
        {
            if same_bytes(taken[k].as_slice(), candidate.as_slice()) {
                assert(views(taken@)[k as int] == candidate@);
                in_use = true;
            } else {
                k += 1;
            }
        }
        if !in_use {
            assert forall|j: int| 0 <= j < views(taken@).len() implies views(taken@)[j]
                != candidate@ by {
                assert(views(taken@)[j] == taken@[j]@);
            }
            return Some(candidate);
        }
        if i == u32::MAX {
            return None;
        }
        i += 1;
    }
}

/// A file that is to be handed out: which of the work directories holds
/// it, under which name it goes, and how many parts are to be put one
/// behind the other, from part 0 on.
#[derive(Debug, PartialEq, Eq)]
pub struct OutputPlan {
    pub workdir: usize,
    pub name: Vec<u8>,
    pub part_count: u32,
}

pub struct OutputPlanView {
    pub workdir: usize,
    pub name: Seq<u8>,
    pub part_count: u32,
}

impl View for OutputPlan {
    type V = OutputPlanView;

    open spec fn view(&self) -> OutputPlanView {
        OutputPlanView { workdir: self.workdir, name: self.name@, part_count: self.part_count }
    }
}

/// What each of the plans holds.
pub open spec fn plan_views(plans: Seq<OutputPlan>) -> Seq<OutputPlanView> {
    Seq::new(plans.len(), |k: int| plans[k]@)
}

/// Whether the work directory holds a file that is whole and has not been
/// handed out.
pub open spec fn ready(workdir: ManagedReceivingFile) -> bool {
    !workdir.marked() && workdir.stored_header() is Some && parts_listed(
        workdir.names(),
        workdir.stored_header()->Some_0.part_count as int,
    )
}

/// The files that are handed out of the work directories, one after the
/// other, and the names that are in use once they are out. A file is handed
/// out if it is whole, has not been handed out before, and a name is free
/// for it; the names of the files that went before it are in use.
pub open spec fn output_plans(workdirs: Seq<ManagedReceivingFile>, taken: Seq<Seq<u8>>) -> (
    Seq<OutputPlanView>,
    Seq<Seq<u8>>,
)
    decreases workdirs.len(),
{
    if workdirs.len() == 0 {
        (Seq::empty(), taken)
    } else {
        let before = output_plans(workdirs.drop_last(), taken);
        let workdir = workdirs.last();
        if ready(workdir) {
            let header = workdir.stored_header()->Some_0;
            match free_name(vstd::utf8::encode_utf8(header.name@), before.1) {
                Some(name) => (
                    before.0.push(
                        OutputPlanView {
                            workdir: (workdirs.len() - 1) as usize,
                            name,
                            part_count: header.part_count,
                        },
                    ),
                    before.1.push(name),
                ),
                None => before,
            }
        } else {
            before
        }
    }
}

impl Reciever {
    /// Which of the files in the work directories are handed out, and under
    /// which names, where the names in `taken` are in use.
    pub fn output_finished_files(workdirs: &Vec<ManagedReceivingFile>, taken: Vec<Vec<u8>>) -> (plans:
        Vec<OutputPlan>)
        ensures
            plan_views(plans@) == output_plans(workdirs@, views(taken@)).0,
    {
        let ghost start = views(taken@);
        let mut taken = taken;
        let mut plans: Vec<OutputPlan> = Vec::new();
        let mut i: usize = 0;
        assert(workdirs@.take(0) =~= Seq::empty());
        assert(plan_views(plans@) =~= Seq::empty());
        while i < workdirs.len()
            invariant
                i <= workdirs@.len(),
                plan_views(plans@) == output_plans(workdirs@.take(i as int), start).0,
                views(taken@) == output_plans(workdirs@.take(i as int), start).1,
            decreases workdirs@.len() - i,
        {
            let workdir = &workdirs[i];
            let ghost plans_before = plans@;
            let ghost taken_before = taken@;
            proof {
                assert(workdirs@.take(i + 1).drop_last() =~= workdirs@.take(i as int));
                assert(workdirs@.take(i + 1).last() == *workdir);
            }
            if !workdir.is_finished() && workdir.is_file_data_finished() {
                match &workdir.header {
                    Some(header) => {
                        match output_file_name(header.name.as_str().as_bytes(), &taken) {
                            Some(name) => {
                                taken.push(vstd::slice::slice_to_vec(name.as_slice()));
                                plans.push(
                                    OutputPlan { workdir: i, name, part_count: header.part_count },
                                );
                                proof {
                                    assert(views(taken@) =~= views(taken_before).push(name@));
                                    assert(plan_views(plans@) =~= plan_views(plans_before).push(
                                        plans@.last()@,
                                    ));
                                }
                            },
                            None => {},
                        }
                    },
                    None => {},
                }
            }
            i += 1;
        }
        assert(workdirs@.take(i as int) =~= workdirs@);
        plans
    }
}

/// What the work directory of one file holds of the file itself.
pub struct Workdir {
    pub finished: bool,
    pub header: Option<HeaderChunkView>,
    pub parts: Map<u32, Seq<u8>>,
}

/// The work directory after what `action` asks for was done.
pub open spec fn stored(workdir: Workdir, action: ReceiveActionView) -> Workdir {
    match action {
        ReceiveActionView::Rejected => workdir,
        ReceiveActionView::Absorbed => workdir,
        ReceiveActionView::StoreHeader(header) => Workdir { header: Some(header), ..workdir },
        ReceiveActionView::StorePart(part) => Workdir {
            parts: workdir.parts.insert(part.part, part.data),
            ..workdir
        },
    }
}

/// The work directory after the chunks arrived one after the other.
pub open spec fn received(workdir: Workdir, chunks: Seq<ChunkView>) -> Workdir
    decreases chunks.len(),
{
    if chunks.len() == 0 {
        workdir
    } else {
        let before = received(workdir, chunks.drop_last());
        stored(before, action_for(chunks.last(), before.finished))
    }
}

/// Whether the work directory holds a whole file.
pub open spec fn whole(workdir: Workdir) -> bool {
    workdir.header is Some && forall|n: u32|
        n < workdir.header->Some_0.part_count ==> #[trigger] workdir.parts.dom().contains(n)
}

/// The first `count` body parts, one behind the other.
pub open spec fn joined(parts: Map<u32, Seq<u8>>, count: nat) -> Seq<u8>
    decreases count,
{
    if count == 0 {
        Seq::empty()
    } else {
        joined(parts, (count - 1) as nat) + parts[(count - 1) as u32]
    }
}

/// The bytes of the file that a whole work directory gives.
pub open spec fn assembled(workdir: Workdir) -> Seq<u8> {
    joined(workdir.parts, workdir.header->Some_0.part_count as nat)
}

/// Whether any two chunks that are the same part are the same chunk, as
/// they are when they come from one file.
pub open spec fn agreeing(chunks: Seq<ChunkView>) -> bool {
    forall|i: int, j: int|
        0 <= i < chunks.len() && 0 <= j < chunks.len() && (#[trigger] chunks[i]).part_index()
            == (#[trigger] chunks[j]).part_index() ==> chunks[i] == chunks[j]
}

/// What a work directory that is not finished holds after chunks that
/// agree arrived: the header if one of them is the header, and for each
/// body part among them its data; and what it held before of all else.
pub proof fn lemma_received(workdir: Workdir, chunks: Seq<ChunkView>)
    requires
        !workdir.finished,
        agreeing(chunks),
    ensures
        !received(workdir, chunks).finished,
        forall|c: ChunkView| #[trigger]
            chunks.contains(c) && c is Header ==> received(workdir, chunks).header == Some(
                c->Header_0,
            ),
        (forall|c: ChunkView| #[trigger] chunks.contains(c) ==> !(c is Header)) ==> received(
            workdir,
            chunks,
        ).header == workdir.header,
        forall|c: ChunkView| #[trigger]
            chunks.contains(c) && c is Data && c.part_index().valid() ==> received(
                workdir,
                chunks,
            ).parts.dom().contains(c->Data_0.part) && received(
                workdir,
                chunks,
            ).parts[c->Data_0.part] == c->Data_0.data,
        forall|n: u32|
            (forall|c: ChunkView| #[trigger]
                chunks.contains(c) ==> !(c is Data && c.part_index().valid() && c->Data_0.part
                    == n)) ==> (#[trigger] received(workdir, chunks).parts.dom().contains(n)
                <==> workdir.parts.dom().contains(n)) && received(workdir, chunks).parts[n]
                == workdir.parts[n],
    decreases chunks.len(),
{
    let after = received(workdir, chunks);
    if chunks.len() > 0 {
        let front = chunks.drop_last();
        let last = chunks.last();
        let before = received(workdir, front);
        assert(agreeing(front)) by {
            assert forall|i: int, j: int|
                0 <= i < front.len() && 0 <= j < front.len() && (#[trigger] front[i]).part_index()
                    == (#[trigger] front[j]).part_index() implies front[i] == front[j] by {
                assert(front[i] == chunks[i]);
                assert(front[j] == chunks[j]);
            }
        }
        lemma_received(workdir, front);
        assert(chunks[chunks.len() - 1] == last);
        assert forall|c: ChunkView| #[trigger] front.contains(c) implies chunks.contains(c) by {
            let i = choose|i: int| 0 <= i < front.len() && front[i] == c;
            assert(chunks[i] == c);
        }
        assert forall|c: ChunkView| #[trigger] chunks.contains(c) implies front.contains(c) || c
            == last by {
            let i = choose|i: int| 0 <= i < chunks.len() && chunks[i] == c;
            if i < front.len() {
                assert(front[i] == c);
            }
        }
        assert forall|c: ChunkView| #[trigger] chunks.contains(c) && c is Header implies after.header
            == Some(c->Header_0) by {
            let i = choose|i: int| 0 <= i < chunks.len() && chunks[i] == c;
            if last is Header {
                assert(chunks[i].part_index() == chunks[chunks.len() - 1].part_index());
            } else {
                assert(front.contains(c));
            }
        }
        assert forall|c: ChunkView| #[trigger]
            chunks.contains(c) && c is Data && c.part_index().valid() implies after.parts.dom().contains(
            c->Data_0.part,
        ) && after.parts[c->Data_0.part] == c->Data_0.data by {
            let i = choose|i: int| 0 <= i < chunks.len() && chunks[i] == c;
            if last is Data && last->Data_0.part == c->Data_0.part {
                assert(chunks[i].part_index() == chunks[chunks.len() - 1].part_index());
            } else {
                assert(front.contains(c));
            }
        }
        assert forall|n: u32|
            (forall|c: ChunkView| #[trigger]
                chunks.contains(c) ==> !(c is Data && c.part_index().valid() && c->Data_0.part
                    == n)) implies (#[trigger] after.parts.dom().contains(n)
            <==> workdir.parts.dom().contains(n)) && after.parts[n] == workdir.parts[n] by {
            assert(chunks.contains(last));
            assert forall|c: ChunkView| #[trigger] front.contains(c) implies !(c is Data
                && c.part_index().valid() && c->Data_0.part == n) by {
                assert(chunks.contains(c));
            }
            assert(before.parts.dom().contains(n) <==> workdir.parts.dom().contains(n));
        }
        if forall|c: ChunkView| #[trigger] chunks.contains(c) ==> !(c is Header) {
            assert(chunks.contains(last));
            assert forall|c: ChunkView| #[trigger] front.contains(c) implies !(c is Header) by {
                assert(chunks.contains(c));
            }
        }
    }
}

/// The order in which the chunks of a file arrive makes no difference:
/// two runs of the same chunks, in any two orders, leave the work directory
/// with the same header and the same parts, and so with the same file.
pub proof fn lemma_order_independent(workdir: Workdir, a: Seq<ChunkView>, b: Seq<ChunkView>)
    requires
        !workdir.finished,
        agreeing(a),
        a.to_multiset() == b.to_multiset(),
    ensures
        received(workdir, a) == received(workdir, b),
        whole(received(workdir, a)) == whole(received(workdir, b)),
        assembled(received(workdir, a)) == assembled(received(workdir, b)),
{
    assert forall|c: ChunkView| a.contains(c) <==> b.contains(c) by {
        vstd::seq_lib::to_multiset_contains(a, c);
        vstd::seq_lib::to_multiset_contains(b, c);
    }
    assert(agreeing(b)) by {
        assert forall|i: int, j: int|
            0 <= i < b.len() && 0 <= j < b.len() && (#[trigger] b[i]).part_index()
                == (#[trigger] b[j]).part_index() implies b[i] == b[j] by {
            assert(b.contains(b[i]));
            assert(b.contains(b[j]));
            assert(a.contains(b[i]));
            assert(a.contains(b[j]));
            let x = choose|x: int| 0 <= x < a.len() && a[x] == b[i];
            let y = choose|y: int| 0 <= y < a.len() && a[y] == b[j];
            assert(a[x].part_index() == a[y].part_index());
        }
    }
    lemma_received(workdir, a);
    lemma_received(workdir, b);
    let ra = received(workdir, a);
    let rb = received(workdir, b);
    assert(ra.header == rb.header) by {
        if exists|c: ChunkView| #[trigger] a.contains(c) && c is Header {
            let c = choose|c: ChunkView| #[trigger] a.contains(c) && c is Header;
            assert(b.contains(c));
        } else {
            assert forall|c: ChunkView| #[trigger] a.contains(c) implies !(c is Header) by {}
            assert forall|c: ChunkView| #[trigger] b.contains(c) implies !(c is Header) by {
                assert(a.contains(c));
            }
        }
    }
    assert(ra.parts =~= rb.parts) by {
        assert forall|n: u32|
            (ra.parts.dom().contains(n) <==> rb.parts.dom().contains(n)) && (
            ra.parts.dom().contains(n) ==> ra.parts[n] == rb.parts[n]) by {
            if exists|c: ChunkView| #[trigger]
                a.contains(c) && c is Data && c.part_index().valid() && c->Data_0.part == n {
                let c = choose|c: ChunkView| #[trigger]
                    a.contains(c) && c is Data && c.part_index().valid() && c->Data_0.part == n;
                assert(b.contains(c));
            } else {
                assert forall|c: ChunkView| #[trigger] a.contains(c) implies !(c is Data
                    && c.part_index().valid() && c->Data_0.part == n) by {}
                assert forall|c: ChunkView| #[trigger] b.contains(c) implies !(c is Data
                    && c.part_index().valid() && c->Data_0.part == n) by {
                    assert(a.contains(c));
                }
                assert(ra.parts.dom().contains(n) <==> workdir.parts.dom().contains(n));
                assert(rb.parts.dom().contains(n) <==> workdir.parts.dom().contains(n));
            }
        }
    }
}

} // verus!
