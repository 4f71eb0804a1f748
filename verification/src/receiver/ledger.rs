//! The ledger of what arrived, and the confirmations that cover it.

use crate::validity::ValidityCheck;
use crate::control::{ConfirmPart, ControlMessage};
use crate::file_id::FileId;
use crate::file_part_id::{FilePartId, FilePartIdRangeInclusive};
use vstd::prelude::*;

verus! {

/// The parts of one file that arrived, in rising order.
pub struct LedgerEntry {
    pub file_id: FileId,
    pub parts: Seq<FilePartId>,
}

/// The parts stand in rising order, none twice.
pub open spec fn rising_parts(parts: Seq<FilePartId>) -> bool {
    forall|i: int, j: int| 0 <= i < j < parts.len() ==> parts[i].rank() < parts[j].rank()
}

/// Every part is a valid part.
pub open spec fn valid_parts(parts: Seq<FilePartId>) -> bool {
    forall|i: int| 0 <= i < parts.len() ==> (#[trigger] parts[i]).valid()
}

/// No file is entered twice, and the parts of each file are valid parts in
/// rising order.
pub open spec fn ledger_wf(ledger: Seq<LedgerEntry>) -> bool {
    &&& forall|i: int, j: int|
        0 <= i < j < ledger.len() ==> (#[trigger] ledger[i]).file_id != (#[trigger] ledger[j]).file_id
    &&& forall|i: int|
        0 <= i < ledger.len() ==> rising_parts((#[trigger] ledger[i]).parts) && valid_parts(
            ledger[i].parts,
        )
}

/// Whether the ledger says that `part` of file `file_id` arrived.
pub open spec fn recorded(ledger: Seq<LedgerEntry>, file_id: FileId, part: FilePartId) -> bool {
    exists|i: int|
        0 <= i < ledger.len() && (#[trigger] ledger[i]).file_id == file_id && ledger[i].parts.contains(
            part,
        )
}

/// The list with `part` in its place: before the first part that comes
/// after it, and not at all if it is there already.
pub open spec fn with_part(parts: Seq<FilePartId>, part: FilePartId) -> Seq<FilePartId>
    decreases parts.len(),
{
    if parts.len() == 0 {
        seq![part]
    } else if parts.last().rank() < part.rank() {
        parts.push(part)
    } else if parts.last().rank() == part.rank() {
        parts
    } else {
        with_part(parts.drop_last(), part).push(parts.last())
    }
}

/// The runs of a rising list of parts: each run is a range of parts that
/// follow one another without a gap; between two runs there is a gap.
pub open spec fn runs(parts: Seq<FilePartId>) -> Seq<FilePartIdRangeInclusive>
    decreases parts.len(),
{
    if parts.len() == 0 {
        Seq::empty()
    } else {
        let before = runs(parts.drop_last());
        let part = parts.last();
        if before.len() > 0 && before.last().to.rank() + 1 == part.rank() {
            before.drop_last().push(
                FilePartIdRangeInclusive { from: before.last().from, to: part },
            )
        } else {
            before.push(FilePartIdRangeInclusive { from: part, to: part })
        }
    }
}

/// The confirmations for one file: one for each run of its parts.
pub open spec fn confirmations_of(entry: LedgerEntry) -> Seq<ControlMessage> {
    Seq::new(
        runs(entry.parts).len(),
        |k: int|
            ControlMessage::ConfirmPart(
                ConfirmPart { file_id: entry.file_id, part_range: runs(entry.parts)[k] },
            ),
    )
}

/// The confirmations for a whole ledger, file by file.
pub open spec fn confirmations(ledger: Seq<LedgerEntry>) -> Seq<ControlMessage>
    decreases ledger.len(),
{
    if ledger.len() == 0 {
        Seq::empty()
    } else {
        confirmations(ledger.drop_last()) + confirmations_of(ledger.last())
    }
}

/// Whether `message` confirms `part` of file `file_id`.
pub open spec fn confirms(message: ControlMessage, file_id: FileId, part: FilePartId) -> bool {
    match message {
        ControlMessage::ConfirmPart(confirm) => confirm.file_id == file_id
            && confirm.part_range.covers(part),
        _ => false,
    }
}

/// Whether some range of `ranges` covers `part`.
pub open spec fn covered(ranges: Seq<FilePartIdRangeInclusive>, part: FilePartId) -> bool {
    exists|k: int| 0 <= k < ranges.len() && (#[trigger] ranges[k]).covers(part)
}

/// What putting a part in its place does: the part is there, the others
/// stay, and the order holds.
pub proof fn lemma_with_part(parts: Seq<FilePartId>, part: FilePartId)
    requires
        rising_parts(parts),
        valid_parts(parts),
        part.valid(),
    ensures
        rising_parts(with_part(parts, part)),
        valid_parts(with_part(parts, part)),
        forall|p: FilePartId| #[trigger]
            with_part(parts, part).contains(p) <==> parts.contains(p) || p == part,
    decreases parts.len(),
{
    let out = with_part(parts, part);
    if parts.len() == 0 {
        assert(out[0] == part);
        assert forall|p: FilePartId| #[trigger] out.contains(p) <==> parts.contains(p) || p
            == part by {
            if out.contains(p) {
                let k = choose|k: int| 0 <= k < out.len() && out[k] == p;
            }
        }
    } else if parts.last().rank() < part.rank() {
        assert forall|i: int, j: int| 0 <= i < j < out.len() implies out[i].rank()
            < out[j].rank() by {
            if j == parts.len() {
                if i < parts.len() - 1 {
                    assert(parts[i].rank() < parts[parts.len() - 1].rank());
                }
            } else {
                assert(parts[i].rank() < parts[j].rank());
            }
        }
        assert forall|i: int| 0 <= i < out.len() implies (#[trigger] out[i]).valid() by {
            if i < parts.len() {
                assert(parts[i].valid());
            }
        }
        assert forall|p: FilePartId| #[trigger] out.contains(p) <==> parts.contains(p) || p
            == part by {
            if out.contains(p) {
                let k = choose|k: int| 0 <= k < out.len() && out[k] == p;
                if k < parts.len() {
                    assert(parts[k] == p);
                }
            }
            if parts.contains(p) {
                let k = choose|k: int| 0 <= k < parts.len() && parts[k] == p;
                assert(out[k] == p);
            }
            if p == part {
                assert(out[parts.len() as int] == p);
            }
        }
    } else if parts.last().rank() == part.rank() {
        FilePartId::lemma_rank_injective(parts.last(), part);
        assert(parts[parts.len() - 1] == part);
    } else {
        let front = parts.drop_last();
        let last = parts.last();
        let rest = with_part(front, part);
        assert(rising_parts(front)) by {
            assert forall|i: int, j: int| 0 <= i < j < front.len() implies front[i].rank()
                < front[j].rank() by {
                assert(parts[i].rank() < parts[j].rank());
            }
        }
        assert(valid_parts(front)) by {
            assert forall|i: int| 0 <= i < front.len() implies (#[trigger] front[i]).valid() by {
                assert(parts[i].valid());
            }
        }
        lemma_with_part(front, part);
        assert forall|i: int, j: int| 0 <= i < j < out.len() implies out[i].rank()
            < out[j].rank() by {
            if j == rest.len() {
                assert(rest.contains(rest[i]));
                if rest[i] != part {
                    let m = choose|m: int| 0 <= m < front.len() && front[m] == rest[i];
                    assert(parts[m].rank() < parts[parts.len() - 1].rank());
                }
            }
        }
        assert forall|i: int| 0 <= i < out.len() implies (#[trigger] out[i]).valid() by {
            if i == rest.len() {
                assert(parts[parts.len() - 1].valid());
            }
        }
        assert forall|p: FilePartId| #[trigger] out.contains(p) <==> parts.contains(p) || p
            == part by {
            if out.contains(p) {
                let k = choose|k: int| 0 <= k < out.len() && out[k] == p;
                if k < rest.len() {
                    assert(rest.contains(p));
                    if front.contains(p) {
                        let m = choose|m: int| 0 <= m < front.len() && front[m] == p;
                        assert(parts[m] == p);
                    }
                } else {
                    assert(parts[parts.len() - 1] == p);
                }
            }
            if parts.contains(p) {
                let m = choose|m: int| 0 <= m < parts.len() && parts[m] == p;
                if m < front.len() {
                    assert(front[m] == p);
                    assert(front.contains(p));
                    assert(rest.contains(p));
                    let k = choose|k: int| 0 <= k < rest.len() && rest[k] == p;
                    assert(out[k] == p);
                } else {
                    assert(out[rest.len() as int] == p);
                }
            }
            if p == part {
                assert(rest.contains(p));
                let k = choose|k: int| 0 <= k < rest.len() && rest[k] == p;
                assert(out[k] == p);
            }
        }
    }
}

/// The runs of a rising list of valid parts cover exactly the parts of the
/// list; each run is a range from a part to a part not before it; and
/// between the end of a run and the start of the next lies at least one
/// part that is not in the list, so that no two runs could be one.
pub proof fn lemma_runs(parts: Seq<FilePartId>)
    requires
        rising_parts(parts),
        valid_parts(parts),
    ensures
        forall|k: int|
            0 <= k < runs(parts).len() ==> (#[trigger] runs(parts)[k]).valid(),
        forall|k: int|
            0 <= k < runs(parts).len() - 1 ==> (#[trigger] runs(parts)[k]).to.rank() + 1 < runs(
                parts,
            )[k + 1].from.rank(),
        forall|p: FilePartId| #[trigger] covered(runs(parts), p) <==> parts.contains(p),
        parts.len() > 0 ==> runs(parts).len() > 0 && runs(parts).last().to == parts.last(),
        parts.len() == 0 ==> runs(parts).len() == 0,
    decreases parts.len(),
{
    let out = runs(parts);
    if parts.len() > 0 {
        let front = parts.drop_last();
        let part = parts.last();
        let before = runs(front);
        assert(rising_parts(front)) by {
            assert forall|i: int, j: int| 0 <= i < j < front.len() implies front[i].rank()
                < front[j].rank() by {
                assert(parts[i].rank() < parts[j].rank());
            }
        }
        assert(valid_parts(front)) by {
            assert forall|i: int| 0 <= i < front.len() implies (#[trigger] front[i]).valid() by {
                assert(parts[i].valid());
            }
        }
        lemma_runs(front);
        assert(parts[parts.len() - 1].valid());
        if front.len() > 0 {
            assert(parts[parts.len() - 2].rank() < parts[parts.len() - 1].rank());
            assert(before.last().to.rank() < part.rank());
        }
        let joined = before.len() > 0 && before.last().to.rank() + 1 == part.rank();
        assert forall|k: int| 0 <= k < out.len() implies (#[trigger] out[k]).valid() by {
            if k < out.len() - 1 {
                assert(out[k] == before[k]);
            } else if joined {
                assert(before[before.len() - 1].valid());
            }
        }
        assert forall|k: int| 0 <= k < out.len() - 1 implies (#[trigger] out[k]).to.rank() + 1
            < out[k + 1].from.rank() by {
            assert(out[k] == before[k]);
            if k + 1 < out.len() - 1 {
                assert(out[k + 1] == before[k + 1]);
            } else if joined {
                assert(out[k + 1].from == before[k + 1].from);
            } else {
                assert(before.last() == before[before.len() - 1]);
            }
        }
        assert forall|p: FilePartId| #[trigger] covered(out, p) <==> parts.contains(p) by {
            if covered(out, p) {
                let k = choose|k: int| 0 <= k < out.len() && (#[trigger] out[k]).covers(p);
                if k < out.len() - 1 {
                    assert(before[k].covers(p));
                    assert(covered(before, p));
                    let m = choose|m: int| 0 <= m < front.len() && front[m] == p;
                    assert(parts[m] == p);
                } else if joined {
                    if p.rank() == part.rank() {
                        FilePartId::lemma_rank_injective(p, part);
                        assert(parts[parts.len() - 1] == p);
                    } else {
                        assert(before[before.len() - 1].covers(p));
                        assert(covered(before, p));
                        let m = choose|m: int| 0 <= m < front.len() && front[m] == p;
                        assert(parts[m] == p);
                    }
                } else {
                    FilePartId::lemma_rank_injective(p, part);
                    assert(parts[parts.len() - 1] == p);
                }
            }
            if parts.contains(p) {
                let m = choose|m: int| 0 <= m < parts.len() && parts[m] == p;
                if m < front.len() {
                    assert(front[m] == p);
                    assert(front.contains(p));
                    assert(covered(before, p));
                    let k = choose|k: int| 0 <= k < before.len() && (#[trigger] before[k]).covers(p);
                    if joined && k == before.len() - 1 {
                        assert(out[k].covers(p));
                    } else {
                        assert(out[k] == before[k]);
                        assert(out[k].covers(p));
                    }
                } else {
                    assert(out[out.len() - 1].covers(p));
                }
            }
        }
    }
}

/// The confirmations say what the ledger says, no more and no less: a part
/// of a file is covered by a confirmation for that file if and only if the
/// ledger has it.
pub proof fn lemma_confirmations(ledger: Seq<LedgerEntry>, file_id: FileId, part: FilePartId)
    requires
        ledger_wf(ledger),
    ensures
        recorded(ledger, file_id, part) <==> exists|k: int|
            0 <= k < confirmations(ledger).len() && confirms(
                #[trigger] confirmations(ledger)[k],
                file_id,
                part,
            ),
        forall|k: int|
            0 <= k < confirmations(ledger).len() ==> (#[trigger] confirmations(ledger)[k])
                is ConfirmPart && confirmations(ledger)[k].valid(),
    decreases ledger.len(),
{
    let all = confirmations(ledger);
    if ledger.len() > 0 {
        let front = ledger.drop_last();
        let entry = ledger.last();
        let before = confirmations(front);
        let own = confirmations_of(entry);
        assert(ledger_wf(front)) by {
            assert forall|i: int| 0 <= i < front.len() implies rising_parts(
                (#[trigger] front[i]).parts,
            ) && valid_parts(front[i].parts) by {
                assert(front[i] == ledger[i]);
            }
            assert forall|i: int, j: int| 0 <= i < j < front.len() implies (#[trigger] front[i]).file_id
                != (#[trigger] front[j]).file_id by {
                assert(front[i] == ledger[i]);
                assert(front[j] == ledger[j]);
            }
        }
        lemma_confirmations(front, file_id, part);
        assert(ledger[ledger.len() - 1] == entry);
        lemma_runs(entry.parts);
        let ranges = runs(entry.parts);
        assert forall|k: int| 0 <= k < all.len() implies (#[trigger] all[k]) is ConfirmPart
            && all[k].valid() by {
            if k < before.len() {
                assert(all[k] == before[k]);
            } else {
                assert(all[k] == own[k - before.len()]);
                assert(ranges[k - before.len()].valid());
            }
        }
        if recorded(ledger, file_id, part) {
            let i = choose|i: int|
                0 <= i < ledger.len() && (#[trigger] ledger[i]).file_id == file_id
                    && ledger[i].parts.contains(part);
            if i < front.len() {
                assert(front[i] == ledger[i]);
                assert(recorded(front, file_id, part));
                let k = choose|k: int|
                    0 <= k < before.len() && confirms(#[trigger] before[k], file_id, part);
                assert(all[k] == before[k]);
            } else {
                assert(covered(ranges, part));
                let r = choose|r: int| 0 <= r < ranges.len() && (#[trigger] ranges[r]).covers(part);
                assert(all[before.len() + r] == own[r]);
            }
        }
        if exists|k: int| 0 <= k < all.len() && confirms(#[trigger] all[k], file_id, part) {
            let k = choose|k: int| 0 <= k < all.len() && confirms(#[trigger] all[k], file_id, part);
            if k < before.len() {
                assert(all[k] == before[k]);
                assert(recorded(front, file_id, part));
                let i = choose|i: int|
                    0 <= i < front.len() && (#[trigger] front[i]).file_id == file_id
                        && front[i].parts.contains(part);
                assert(ledger[i] == front[i]);
            } else {
                let r = k - before.len();
                assert(all[k] == own[r]);
                assert(ranges[r].covers(part));
                assert(covered(ranges, part));
                assert(ledger[ledger.len() - 1].parts.contains(part));
            }
        }
    }
}

/// A ledger in which one entry got a part more is a ledger still, and says
/// what it said and that the part arrived.
pub proof fn lemma_entry_updated(ledger: Seq<LedgerEntry>, i: int, entry: LedgerEntry, part: FilePartId)
    requires
        ledger_wf(ledger),
        0 <= i < ledger.len(),
        part.valid(),
        entry.file_id == ledger[i].file_id,
        entry.parts == with_part(ledger[i].parts, part),
    ensures
        ledger_wf(ledger.update(i, entry)),
        forall|id: FileId, p: FilePartId|
            recorded(ledger.update(i, entry), id, p) <==> recorded(ledger, id, p) || (id
                == entry.file_id && p == part),
{
    let after = ledger.update(i, entry);
    lemma_with_part(ledger[i].parts, part);
    assert forall|a: int, b: int| 0 <= a < b < after.len() implies (#[trigger] after[a]).file_id
        != (#[trigger] after[b]).file_id by {
        assert(after[a].file_id == ledger[a].file_id);
        assert(after[b].file_id == ledger[b].file_id);
    }
    assert forall|a: int| 0 <= a < after.len() implies rising_parts((#[trigger] after[a]).parts)
        && valid_parts(after[a].parts) by {
        if a != i {
            assert(after[a] == ledger[a]);
        }
    }
    assert forall|id: FileId, p: FilePartId|
        recorded(after, id, p) <==> recorded(ledger, id, p) || (id == entry.file_id && p
            == part) by {
        if recorded(after, id, p) {
            let a = choose|a: int|
                0 <= a < after.len() && (#[trigger] after[a]).file_id == id
                    && after[a].parts.contains(p);
            if a == i {
                if p != part {
                    assert(ledger[i].parts.contains(p));
                }
            } else {
                assert(ledger[a] == after[a]);
            }
        }
        if recorded(ledger, id, p) {
            let a = choose|a: int|
                0 <= a < ledger.len() && (#[trigger] ledger[a]).file_id == id
                    && ledger[a].parts.contains(p);
            if a == i {
                assert(after[i].parts.contains(p));
            } else {
                assert(after[a] == ledger[a]);
            }
        }
        if id == entry.file_id && p == part {
            assert(after[i].parts.contains(p));
        }
    }
}

/// A ledger that got an entry for a file that it did not have is a ledger
/// still, and says what it said and that the part arrived.
pub proof fn lemma_entry_added(ledger: Seq<LedgerEntry>, entry: LedgerEntry, part: FilePartId)
    requires
        ledger_wf(ledger),
        part.valid(),
        forall|k: int| 0 <= k < ledger.len() ==> (#[trigger] ledger[k]).file_id != entry.file_id,
        entry.parts == seq![part],
    ensures
        ledger_wf(ledger.push(entry)),
        forall|id: FileId, p: FilePartId|
            recorded(ledger.push(entry), id, p) <==> recorded(ledger, id, p) || (id
                == entry.file_id && p == part),
{
    let after = ledger.push(entry);
    assert forall|a: int, b: int| 0 <= a < b < after.len() implies (#[trigger] after[a]).file_id
        != (#[trigger] after[b]).file_id by {
        if b < ledger.len() {
            assert(after[a] == ledger[a] && after[b] == ledger[b]);
        } else {
            assert(after[a] == ledger[a]);
        }
    }
    assert forall|a: int| 0 <= a < after.len() implies rising_parts((#[trigger] after[a]).parts)
        && valid_parts(after[a].parts) by {
        if a < ledger.len() {
            assert(after[a] == ledger[a]);
        }
    }
    assert forall|id: FileId, p: FilePartId|
        recorded(after, id, p) <==> recorded(ledger, id, p) || (id == entry.file_id && p
            == part) by {
        if recorded(after, id, p) {
            let a = choose|a: int|
                0 <= a < after.len() && (#[trigger] after[a]).file_id == id
                    && after[a].parts.contains(p);
            if a < ledger.len() {
                assert(ledger[a] == after[a]);
            } else {
                let k = choose|k: int| 0 <= k < entry.parts.len() && entry.parts[k] == p;
            }
        }
        if recorded(ledger, id, p) {
            let a = choose|a: int|
                0 <= a < ledger.len() && (#[trigger] ledger[a]).file_id == id
                    && ledger[a].parts.contains(p);
            assert(after[a] == ledger[a]);
        }
        if id == entry.file_id && p == part {
            assert(entry.parts[0] == p);
            assert(after[ledger.len() as int] == entry);
        }
    }
}

/// The parts of one file that arrived.
#[derive(Debug, PartialEq, Eq)]
pub struct ConfirmedFile {
    file_id: FileId,
    parts: Vec<FilePartId>,
}

impl View for ConfirmedFile {
    type V = LedgerEntry;

    closed spec fn view(&self) -> LedgerEntry {
        LedgerEntry { file_id: self.file_id, parts: self.parts@ }
    }
}

impl ConfirmedFile {
    /// The entry of a file of which one part arrived.
    pub fn single(file_id: FileId, part: FilePartId) -> (entry: Self)
        ensures
            entry@ == (LedgerEntry { file_id, parts: seq![part] }),
    {
        let mut parts: Vec<FilePartId> = Vec::new();
        parts.push(part);
        assert(parts@ =~= seq![part]);
        ConfirmedFile { file_id, parts }
    }

    /// The file that the entry is about.
    pub fn file_id(&self) -> (file_id: FileId)
        ensures
            file_id == self@.file_id,
    {
        self.file_id
    }

    /// The parts that arrived, in rising order.
    pub fn parts(&self) -> (parts: &Vec<FilePartId>)
        ensures
            parts@ == self@.parts,
    {
        &self.parts
    }

    /// Puts a part in its place; a part that is there already is not put in
    /// again.
    pub fn insert(&mut self, part: FilePartId)
        ensures
            final(self)@.file_id == old(self)@.file_id,
            final(self)@.parts == with_part(old(self)@.parts, part),
    {
        let ghost all = self.parts@;
        let mut at: usize = self.parts.len();
        // From the end: new parts mostly come last.
        while at > 0 && !self.parts[at - 1].lt(&part)
            invariant
                at <= all.len(),
                self.parts@ == all,
                forall|k: int| at <= k < all.len() ==> all[k].rank() > part.rank(),
            decreases at,
        {
            if self.parts[at - 1].le(&part) {
                // The part is there.
                proof {
                    lemma_with_part_found(all, part, at as int - 1);
                }
                return ;
            }
            at -= 1;
        }
        self.parts.insert(at, part);
        proof {
            lemma_with_part_inserted(all, part, at as int);
        }
    }

    /// The runs of the parts.
    pub fn coalesce(&self) -> (ranges: Vec<FilePartIdRangeInclusive>)
        ensures
            ranges@ == runs(self@.parts),
    {
        let mut ranges: Vec<FilePartIdRangeInclusive> = Vec::new();
        let mut i: usize = 0;
        assert(self.parts@.take(0) =~= Seq::<FilePartId>::empty());
        while i < self.parts.len()
            invariant
                i <= self.parts@.len(),
                ranges@ == runs(self.parts@.take(i as int)),
            decreases self.parts@.len() - i,
        {
            let part = self.parts[i];
            proof {
                let next = self.parts@.take(i + 1);
                assert(next.drop_last() =~= self.parts@.take(i as int));
                assert(next.last() == part);
            }
            let count = ranges.len();
            let joins = count > 0 && follows(&ranges[count - 1].to, &part);
            if joins {
                let from = ranges[count - 1].from;
                ranges.set(count - 1, FilePartIdRangeInclusive { from, to: part });
                assert(ranges@ =~= runs(self.parts@.take(i as int)).drop_last().push(
                    FilePartIdRangeInclusive { from, to: part },
                ));
            } else {
                ranges.push(FilePartIdRangeInclusive { from: part, to: part });
            }
            i += 1;
        }
        assert(self.parts@.take(self.parts@.len() as int) =~= self.parts@);
        ranges
    }
}

/// Whether `next` is the part right after `part`.
pub fn follows(part: &FilePartId, next: &FilePartId) -> (b: bool)
    ensures
        b == (part.rank() + 1 == next.rank()),
{
    match (part, next) {
        (_, FilePartId::Header) => false,
        (FilePartId::Header, FilePartId::Part(n)) => *n == 0,
        (FilePartId::Part(m), FilePartId::Part(n)) => *m < u32::MAX && *m + 1 == *n,
    }
}

/// Where a part of the same rank stands, the list stays as it is.
proof fn lemma_with_part_found(parts: Seq<FilePartId>, part: FilePartId, at: int)
    requires
        0 <= at < parts.len(),
        parts[at].rank() == part.rank(),
        forall|k: int| at < k < parts.len() ==> parts[k].rank() > part.rank(),
    ensures
        with_part(parts, part) == parts,
    decreases parts.len(),
{
    if at < parts.len() - 1 {
        let front = parts.drop_last();
        assert(parts[parts.len() - 1].rank() > part.rank());
        lemma_with_part_found(front, part, at);
        assert(with_part(front, part).push(parts.last()) =~= parts);
    }
}

/// Where all parts from `at` on come after the part and the one before
/// comes before it, the part goes in at `at`.
proof fn lemma_with_part_inserted(parts: Seq<FilePartId>, part: FilePartId, at: int)
    requires
        0 <= at <= parts.len(),
        forall|k: int| at <= k < parts.len() ==> parts[k].rank() > part.rank(),
        at > 0 ==> parts[at - 1].rank() < part.rank(),
    ensures
        with_part(parts, part) == parts.insert(at, part),
    decreases parts.len(),
{
    if parts.len() == 0 {
        assert(parts.insert(at, part) =~= seq![part]);
    } else if at == parts.len() {
        assert(parts.insert(at, part) =~= parts.push(part));
    } else {
        let front = parts.drop_last();
        assert(parts[parts.len() - 1].rank() > part.rank());
        lemma_with_part_inserted(front, part, at);
        assert(front.insert(at, part).push(parts.last()) =~= parts.insert(at, part));
    }
}

} // verus!
