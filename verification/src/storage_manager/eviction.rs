//! Making room: while the storage holds more data than it may, the least
//! valuable part in it is given up, as if the receiver had acknowledged it.
//!
//! The least valuable part is the one that comes first in the order of
//! giving up; among parts that are equal in that order, the one of the
//! file that was admitted first.

use crate::file_id::FileId;
use crate::file_part_id::{FilePartId, FilePartIdRangeInclusive};
use crate::managed_file::mode::ManagedFileMode;
use crate::managed_file::state::lemma_without_range;
use crate::managed_file::{holes, lemma_acknowledged_wf, AckEffect, AckEffectView, ManagedFileView, SplitEffect, SplitEffectView};
use crate::storage_manager::precedence::{deletion_key, less_valuable, StorageFilePart};
use crate::storage_manager::{all_wf, distinct_ids, has_file, lemma_files_stay_wf, StorageManager};
use vstd::prelude::*;

verus! {

/// Whether file `f` has a part at place `p`.
pub open spec fn valid_place(files: Seq<ManagedFileView>, f: int, p: int) -> bool {
    0 <= f < files.len() && 0 <= p < files[f].parts.len()
}

/// The place of the part at place `p` of file `f` in the order of giving
/// up.
pub open spec fn key_at(files: Seq<ManagedFileView>, f: int, p: int) -> int {
    deletion_key(files[f].parts[p].priority, files[f].parts[p].part)
}

/// Whether the part at place `p` of file `f` is the least valuable in
/// storage: none comes before it in the order of giving up, and those that
/// are its equals there stand behind it.
pub open spec fn is_least_valuable(files: Seq<ManagedFileView>, f: int, p: int) -> bool {
    &&& valid_place(files, f, p)
    &&& forall|g: int, q: int| #[trigger]
        valid_place(files, g, q) ==> key_at(files, g, q) >= key_at(files, f, p) && ((g < f || (g
            == f && q < p)) ==> key_at(files, g, q) > key_at(files, f, p))
}

/// Whether no file has a part left.
pub open spec fn no_parts(files: Seq<ManagedFileView>) -> bool {
    forall|f: int| 0 <= f < files.len() ==> (#[trigger] files[f]).parts.len() == 0
}

/// The bytes of data that the files take on disk together.
pub open spec fn total_size(files: Seq<ManagedFileView>) -> nat
    decreases files.len(),
{
    if files.len() == 0 {
        0
    } else {
        total_size(files.drop_last()) + files.last().remaining_data_size()
    }
}

/// The number of parts that remain in all files together.
pub open spec fn total_parts(files: Seq<ManagedFileView>) -> nat
    decreases files.len(),
{
    if files.len() == 0 {
        0
    } else {
        total_parts(files.drop_last()) + files.last().parts.len()
    }
}

/// The range that covers one part.
pub open spec fn single(part: FilePartId) -> FilePartIdRangeInclusive {
    FilePartIdRangeInclusive { from: part, to: part }
}

/// Whether a file is split after one of its parts was given up.
pub open spec fn splits(file: ManagedFileView, split_at: Option<u32>) -> bool {
    split_at is Some && file.mode == ManagedFileMode::Contiguous && holes(file.parts)
        >= split_at->Some_0
}

/// The files after the part at place `p` of file `f` was given up: the part
/// is acknowledged; a file of which nothing remains is dropped; a file in
/// which enough slots have fallen free is split.
pub open spec fn evict_at(files: Seq<ManagedFileView>, split_at: Option<u32>, f: int, p: int) -> Seq<
    ManagedFileView,
> {
    let file = files[f].acknowledged(single(files[f].parts[p].part));
    if file.parts.len() == 0 {
        files.remove(f)
    } else if splits(file, split_at) {
        files.update(f, file.split())
    } else {
        files.update(f, file)
    }
}

/// What became of a file after one of its parts was given up.
#[derive(Debug, PartialEq, Eq)]
pub enum Aftermath {
    /// The file stays as it is.
    Kept,
    /// The file was split.
    Split(SplitEffect),
    /// Nothing remains of the file: its directory goes.
    Removed,
}

pub enum AftermathView {
    Kept,
    Split(SplitEffectView),
    Removed,
}

impl View for Aftermath {
    type V = AftermathView;

    open spec fn view(&self) -> AftermathView {
        match self {
            Aftermath::Kept => AftermathView::Kept,
            Aftermath::Split(effect) => AftermathView::Split(effect@),
            Aftermath::Removed => AftermathView::Removed,
        }
    }
}

/// One part that was given up, and what is to be done to the directory of
/// its file: first the acknowledgement, after it what became of the file.
#[derive(Debug, PartialEq, Eq)]
pub struct EvictionStep {
    pub file_id: FileId,
    pub part_id: FilePartId,
    pub ack: AckEffect,
    pub aftermath: Aftermath,
}

pub struct EvictionStepView {
    pub file_id: FileId,
    pub part_id: FilePartId,
    pub ack: AckEffectView,
    pub aftermath: AftermathView,
}

impl View for EvictionStep {
    type V = EvictionStepView;

    open spec fn view(&self) -> EvictionStepView {
        EvictionStepView {
            file_id: self.file_id,
            part_id: self.part_id,
            ack: self.ack@,
            aftermath: self.aftermath@,
        }
    }
}

/// What giving up the part at place `p` of file `f` does to the disk.
pub open spec fn step_at(files: Seq<ManagedFileView>, split_at: Option<u32>, f: int, p: int) -> EvictionStepView {
    let part = files[f].parts[p].part;
    let file = files[f].acknowledged(single(part));
    EvictionStepView {
        file_id: files[f].header.id,
        part_id: part,
        ack: files[f].ack_effect(single(part)),
        aftermath: if file.parts.len() == 0 {
            AftermathView::Removed
        } else if splits(file, split_at) {
            AftermathView::Split(file.split_effect())
        } else {
            AftermathView::Kept
        },
    }
}

/// The views of a list of steps.
pub open spec fn steps_of(steps: Seq<EvictionStep>) -> Seq<EvictionStepView> {
    steps.map_values(|s: EvictionStep| s@)
}

/// Whether `steps` is what making room for a budget of `budget` bytes does
/// to the files `before`, with `trace` the files after each step: every
/// step is taken because the files are over the budget, gives up the part
/// that is at that point the least valuable, and the last leaves the files `after`,
/// which are within the budget or have no part left.
#[verifier::opaque]
pub open spec fn eviction_run(
    before: Seq<ManagedFileView>,
    after: Seq<ManagedFileView>,
    steps: Seq<EvictionStepView>,
    split_at: Option<u32>,
    budget: nat,
    trace: Seq<Seq<ManagedFileView>>,
) -> bool {
    &&& trace.len() == steps.len() + 1
    &&& trace[0] == before
    &&& trace[trace.len() - 1] == after
    &&& forall|j: int|
        0 <= j < steps.len() ==> total_size(#[trigger] trace[j]) > budget && exists|f: int, p: int|
            #[trigger] is_least_valuable(trace[j], f, p) && trace[j + 1] == evict_at(
                trace[j],
                split_at,
                f,
                p,
            ) && steps[j] == step_at(trace[j], split_at, f, p)
    &&& total_size(after) <= budget || no_parts(after)
}

/// Whether `steps` are steps of making room that lead from the files
/// `before` to the files `current`, with `trace` the files after each.
#[verifier::opaque]
pub open spec fn run_so_far(
    before: Seq<ManagedFileView>,
    current: Seq<ManagedFileView>,
    steps: Seq<EvictionStepView>,
    split_at: Option<u32>,
    budget: nat,
    trace: Seq<Seq<ManagedFileView>>,
) -> bool {
    &&& trace.len() == steps.len() + 1
    &&& trace[0] == before
    &&& trace[trace.len() - 1] == current
    &&& forall|j: int|
        0 <= j < steps.len() ==> total_size(#[trigger] trace[j]) > budget && exists|f: int, p: int|
            #[trigger] is_least_valuable(trace[j], f, p) && trace[j + 1] == evict_at(
                trace[j],
                split_at,
                f,
                p,
            ) && steps[j] == step_at(trace[j], split_at, f, p)
}

/// No step has been taken yet.
pub proof fn lemma_run_begins(files: Seq<ManagedFileView>, split_at: Option<u32>, budget: nat)
    ensures
        run_so_far(files, files, Seq::empty(), split_at, budget, seq![files]),
{
    reveal(run_so_far);
}

/// One more step is taken.
pub proof fn lemma_run_goes_on(
    before: Seq<ManagedFileView>,
    current: Seq<ManagedFileView>,
    steps: Seq<EvictionStepView>,
    split_at: Option<u32>,
    budget: nat,
    trace: Seq<Seq<ManagedFileView>>,
    f: int,
    p: int,
)
    requires
        run_so_far(before, current, steps, split_at, budget, trace),
        total_size(current) > budget,
        is_least_valuable(current, f, p),
    ensures
        run_so_far(
            before,
            evict_at(current, split_at, f, p),
            steps.push(step_at(current, split_at, f, p)),
            split_at,
            budget,
            trace.push(evict_at(current, split_at, f, p)),
        ),
{
    reveal(run_so_far);
    let next = evict_at(current, split_at, f, p);
    let steps2 = steps.push(step_at(current, split_at, f, p));
    let trace2 = trace.push(next);
    let k = steps.len() as int;
    assert forall|j: int| 0 <= j < steps2.len() implies total_size(#[trigger] trace2[j]) > budget
        && exists|f: int, p: int|
        #[trigger] is_least_valuable(trace2[j], f, p) && trace2[j + 1] == evict_at(
            trace2[j],
            split_at,
            f,
            p,
        ) && steps2[j] == step_at(trace2[j], split_at, f, p) by {
        if j < k {
            assert(trace2[j] == trace[j]);
            assert(trace2[j + 1] == trace[j + 1]);
            assert(steps2[j] == steps[j]);
            let (f0, p0) = choose|f: int, p: int|
                #[trigger] is_least_valuable(trace[j], f, p) && trace[j + 1] == evict_at(
                    trace[j],
                    split_at,
                    f,
                    p,
                ) && steps[j] == step_at(trace[j], split_at, f, p);
            assert(is_least_valuable(trace2[j], f0, p0));
        } else {
            assert(trace2[j] == current);
            assert(is_least_valuable(trace2[j], f, p));
        }
    }
}

/// The run is over: the files are within the budget or have no part left.
pub proof fn lemma_run_ends(
    before: Seq<ManagedFileView>,
    after: Seq<ManagedFileView>,
    steps: Seq<EvictionStepView>,
    split_at: Option<u32>,
    budget: nat,
    trace: Seq<Seq<ManagedFileView>>,
)
    requires
        run_so_far(before, after, steps, split_at, budget, trace),
        total_size(after) <= budget || no_parts(after),
    ensures
        eviction_run(before, after, steps, split_at, budget, trace),
{
    reveal(run_so_far);
    reveal(eviction_run);
}

/// Dropping a file takes its parts off the total; changing one exchanges
/// them.
pub proof fn lemma_total_parts(files: Seq<ManagedFileView>, f: int, file: ManagedFileView)
    requires
        0 <= f < files.len(),
    ensures
        total_parts(files.remove(f)) == total_parts(files) - files[f].parts.len(),
        total_parts(files.update(f, file)) == total_parts(files) - files[f].parts.len()
            + file.parts.len(),
    decreases files.len(),
{
    let front = files.drop_last();
    if f == files.len() - 1 {
        assert(files.remove(f) =~= front);
        assert(files.update(f, file).drop_last() =~= front);
    } else {
        lemma_total_parts(front, f, file);
        assert(files.remove(f).drop_last() =~= front.remove(f));
        assert(files.remove(f).last() == files.last());
        assert(files.update(f, file).drop_last() =~= front.update(f, file));
    }
}

/// Giving up a part leaves fewer parts, and the files as sound as they
/// were.
pub proof fn lemma_evict_at(files: Seq<ManagedFileView>, split_at: Option<u32>, f: int, p: int)
    requires
        all_wf(files),
        distinct_ids(files),
        valid_place(files, f, p),
    ensures
        all_wf(evict_at(files, split_at, f, p)),
        distinct_ids(evict_at(files, split_at, f, p)),
        total_parts(evict_at(files, split_at, f, p)) < total_parts(files),
{
    let part = files[f].parts[p].part;
    let range = single(part);
    let file = files[f].acknowledged(range);
    lemma_acknowledged_wf(files[f], range);
    lemma_without_range(files[f].parts, range);
    assert(range.covers(files[f].parts[p].part));
    lemma_total_parts(files, f, file);
    lemma_total_parts(files, f, file.split());
    lemma_files_stay_wf(files, f, file);
    if file.mode == ManagedFileMode::Contiguous {
        crate::managed_file::lemma_split_wf(file);
        lemma_files_stay_wf(files, f, file.split());
    }
}

/// Giving up a part brings no file into storage: every file that is there
/// afterwards was there before.
pub proof fn lemma_evict_keeps_ids(
    files: Seq<ManagedFileView>,
    split_at: Option<u32>,
    f: int,
    p: int,
    id: FileId,
)
    requires
        valid_place(files, f, p),
        has_file(evict_at(files, split_at, f, p), id),
    ensures
        has_file(files, id),
{
    let after = evict_at(files, split_at, f, p);
    let i = choose|i: int| 0 <= i < after.len() && (#[trigger] after[i]).header.id == id;
    let file = files[f].acknowledged(single(files[f].parts[p].part));
    if file.parts.len() == 0 {
        if i < f {
            assert(files[i].header.id == id);
        } else {
            assert(after[i] == files[i + 1]);
            assert(files[i + 1].header.id == id);
        }
    } else {
        assert(files[i].header.id == id);
    }
}

impl StorageManager {
    /// The bytes of data that the files take on disk together.
    pub fn total_data_size(&self) -> (total: u128)
        requires
            self.wf(),
        ensures
            total == total_size(self@),
    {
        let files = self.iter_files();
        let mut total: u128 = 0;
        let mut i: usize = 0;
        assert(self@.take(0) =~= Seq::<ManagedFileView>::empty());
        while i < files.len()
            invariant
                i <= files@.len(),
                files@.len() == self@.len(),
                forall|k: int| 0 <= k < files@.len() ==> (#[trigger] files@[k])@ == self@[k],
                self.wf(),
                total == total_size(self@.take(i as int)),
                total <= i * 0xFFFF_FFFF_FFFF_FFFF,
            decreases files@.len() - i,
        {
            proof {
                let next = self@.take(i + 1);
                assert(next.drop_last() =~= self@.take(i as int));
                assert(next.last() == self@[i as int]);
                assert(self@[i as int].wf());
            }
            let size = files[i].calc_remaining_data_size();
            total = total + size as u128;
            i += 1;
        }
        assert(self@.take(self@.len() as int) =~= self@);
        total
    }

    /// The place of the least valuable part in storage; none where no part
    /// is left.
    pub fn find_least_valuable(&self) -> (place: Option<(usize, usize)>)
        requires
            self.wf(),
        ensures
            match place {
                Some((f, p)) => is_least_valuable(self@, f as int, p as int),
                None => no_parts(self@),
            },
    {
        let files = self.iter_files();
        let mut best: Option<(usize, usize, StorageFilePart)> = None;
        let mut f: usize = 0;
        while f < files.len()
            invariant
                f <= files@.len(),
                files@.len() == self@.len(),
                forall|k: int| 0 <= k < files@.len() ==> (#[trigger] files@[k])@ == self@[k],
                match best {
                    Some((bf, bp, item)) => {
                        &&& bf < f
                        &&& valid_place(self@, bf as int, bp as int)
                        &&& item.priority == self@[bf as int].parts[bp as int].priority
                        &&& item.part_id == self@[bf as int].parts[bp as int].part
                        &&& forall|g: int, q: int| #[trigger]
                            valid_place(self@, g, q) && g < f ==> key_at(self@, g, q) >= key_at(
                                self@,
                                bf as int,
                                bp as int,
                            ) && ((g < bf || (g == bf && q < bp)) ==> key_at(self@, g, q) > key_at(
                                self@,
                                bf as int,
                                bp as int,
                            ))
                    },
                    None => forall|g: int| 0 <= g < f ==> (#[trigger] self@[g]).parts.len() == 0,
                },
            decreases files@.len() - f,
        {
            let file = &files[f];
            let file_id = file.header().id;
            let parts = file.remaining_parts();
            let mut p: usize = 0;
            while p < parts.len()
                invariant
                    p <= parts@.len(),
                    f < files@.len(),
                    files@.len() == self@.len(),
                    parts@ == self@[f as int].parts,
                    match best {
                        Some((bf, bp, item)) => {
                            &&& (bf < f || (bf == f && bp < p))
                            &&& valid_place(self@, bf as int, bp as int)
                            &&& item.priority == self@[bf as int].parts[bp as int].priority
                            &&& item.part_id == self@[bf as int].parts[bp as int].part
                            &&& forall|g: int, q: int| #[trigger]
                                valid_place(self@, g, q) && (g < f || (g == f && q < p)) ==> key_at(
                                    self@,
                                    g,
                                    q,
                                ) >= key_at(self@, bf as int, bp as int) && ((g < bf || (g == bf && q
                                    < bp)) ==> key_at(self@, g, q) > key_at(
                                    self@,
                                    bf as int,
                                    bp as int,
                                ))
                        },
                        None => p == 0 && forall|g: int|
                            0 <= g < f ==> (#[trigger] self@[g]).parts.len() == 0,
                    },
                decreases parts@.len() - p,
            {
                let item = StorageFilePart {
                    file_id,
                    part_id: parts[p].part,
                    priority: parts[p].priority,
                };
                let better = match &best {
                    Some((_, _, least)) => less_valuable(&item, least),
                    None => true,
                };
                if better {
                    proof {
                        assert forall|g: int, q: int| #[trigger]
                            valid_place(self@, g, q) && (g < f || (g == f && q < p + 1)) implies key_at(
                            self@,
                            g,
                            q,
                        ) >= key_at(self@, f as int, p as int) && ((g < f || (g == f && q < p))
                            ==> key_at(self@, g, q) > key_at(self@, f as int, p as int)) by {
                            if g < f || (g == f && q < p) {
                                assert(valid_place(self@, g, q));
                                if best is None {
                                    assert(self@[g].parts.len() == 0);
                                }
                            }
                        }
                    }
                    best = Some((f, p, item));
                }
                p += 1;
            }
            f += 1;
        }
        match best {
            Some((f, p, _)) => Some((f, p)),
            None => None,
        }
    }

    /// Gives up the part at place `p` of file `f`.
    fn evict(&mut self, f: usize, p: usize) -> (step: EvictionStep)
        requires
            old(self).wf(),
            valid_place(old(self)@, f as int, p as int),
        ensures
            final(self).wf(),
            final(self).settings() == old(self).settings(),
            final(self)@ == evict_at(
                old(self)@,
                old(self).settings().split_file_if_n_chunks_saved,
                f as int,
                p as int,
            ),
            step@ == step_at(
                old(self)@,
                old(self).settings().split_file_if_n_chunks_saved,
                f as int,
                p as int,
            ),
    {
        let ghost before = self@;
        let split_at = self.config().split_file_if_n_chunks_saved;
        proof {
            lemma_evict_at(before, split_at, f as int, p as int);
        }
        let mut file = self.take_file(f);
        let file_id = file.header().id;
        let part_id = file.remaining_parts()[p].part;
        let ack = file.acknowledge_file_parts(FilePartIdRangeInclusive::new_single(part_id));
        if file.is_finished() {
            return EvictionStep { file_id, part_id, ack, aftermath: Aftermath::Removed };
        }
        let mut aftermath = Aftermath::Kept;
        if let Some(split_if_n) = split_at {
            if let ManagedFileMode::Contiguous = file.mode() {
                if file.chunks_saved_by_splitting() >= split_if_n {
                    match file.trigger_file_split() {
                        Ok(effect) => {
                            aftermath = Aftermath::Split(effect);
                        },
                        Err(_) => {},
                    }
                }
            }
        }
        self.put_file(f, file);
        assert(self@ =~= before.update(f as int, file@));
        EvictionStep { file_id, part_id, ack, aftermath }
    }

    /// Gives up parts, the least valuable first, until the files take no
    /// more than `size` bytes or no part is left. Hands back what was given
    /// up, in order, with what is to be done on disk for each.
    pub fn delete_parts_until_max_size_reached(&mut self, size: u64) -> (steps: Vec<EvictionStep>)
        requires
            old(self).wf(),
        ensures
            final(self).wf(),
            final(self).settings() == old(self).settings(),
            forall|id: FileId| has_file(final(self)@, id) ==> has_file(old(self)@, id),
            exists|trace: Seq<Seq<ManagedFileView>>|
                eviction_run(
                    old(self)@,
                    final(self)@,
                    steps_of(steps@),
                    old(self).settings().split_file_if_n_chunks_saved,
                    size as nat,
                    trace,
                ),
    {
        let mut steps: Vec<EvictionStep> = Vec::new();
        let ghost mut trace: Seq<Seq<ManagedFileView>> = seq![self@];
        let ghost split_at = self.settings().split_file_if_n_chunks_saved;
        let mut done = false;
        proof {
            lemma_run_begins(self@, split_at, size as nat);
            assert(steps_of(steps@) =~= Seq::<EvictionStepView>::empty());
        }
        while !done
            invariant
                self.wf(),
                self.settings() == old(self).settings(),
                split_at == old(self).settings().split_file_if_n_chunks_saved,
                forall|id: FileId| has_file(self@, id) ==> has_file(old(self)@, id),
                run_so_far(old(self)@, self@, steps_of(steps@), split_at, size as nat, trace),
                done ==> total_size(self@) <= size || no_parts(self@),
            decreases total_parts(self@), (if done { 0int } else { 1int }),
        {
            if self.total_data_size() <= size as u128 {
                done = true;
            } else {
                match self.find_least_valuable() {
                    None => {
                        done = true;
                    },
                    Some((f, p)) => {
                        let ghost before = self@;
                        let ghost old_steps = steps@;
                        proof {
                            lemma_evict_at(before, split_at, f as int, p as int);
                            lemma_run_goes_on(
                                old(self)@,
                                before,
                                steps_of(old_steps),
                                split_at,
                                size as nat,
                                trace,
                                f as int,
                                p as int,
                            );
                        }
                        let step = self.evict(f, p);
                        steps.push(step);
                        proof {
                            assert forall|id: FileId| has_file(self@, id) implies has_file(
                                old(self)@,
                                id,
                            ) by {
                                lemma_evict_keeps_ids(before, split_at, f as int, p as int, id);
                            }
                            trace = trace.push(self@);
                            assert(steps_of(steps@) =~= steps_of(old_steps).push(step@));
                        }
                    },
                }
            }
        }
        proof {
            lemma_run_ends(old(self)@, self@, steps_of(steps@), split_at, size as nat, trace);
        }
        steps
    }
}

} // verus!
