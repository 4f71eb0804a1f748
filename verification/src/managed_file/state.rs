//! Which parts of a managed file remain to be sent, and how urgent each is.
//!
//! On disk the state is a packed list of records of six bytes: the part's
//! index in four, its priority in two. The list is kept in rising order of
//! parts, so no part occurs twice and the last entry is the highest.

use crate::validity::ValidityCheck;
use crate::binary_serialize::read_le;
use crate::encoding::{i16_of_twos, le_bytes, le_value, put_le, twos, twos_of_i16, untwos};
use crate::encoding::{lemma_le_bytes_len, lemma_le_value_of_bytes, lemma_radix_values, lemma_twos_roundtrip};
use crate::file_part_id::{FilePartId, FilePartIdRangeInclusive};
use crate::substream::{DecodeError, SubstreamReader};
use vstd::prelude::*;

verus! {

/// The length of one record of the state file.
pub const STATE_RECORD_LEN: usize = 6;

/// One part that remains, with its priority.
#[derive(Debug, Clone, Copy, PartialEq, Eq, Structural)]
pub struct ManagedFileStatePart {
    pub part: FilePartId,
    pub priority: i16,
}

/// The six bytes of a record.
pub open spec fn record_wire(entry: ManagedFileStatePart) -> Seq<u8> {
    le_bytes(entry.part.rank() as nat, 4) + le_bytes(twos(entry.priority as int, 2), 2)
}

/// The record that six bytes spell.
pub open spec fn record_of_wire(bytes: Seq<u8>) -> ManagedFileStatePart {
    ManagedFileStatePart {
        part: FilePartId::at_rank(le_value(bytes.take(4)) as int),
        priority: untwos(le_value(bytes.skip(4)), 2) as i16,
    }
}

/// The bytes of a list of records.
pub open spec fn parts_wire(parts: Seq<ManagedFileStatePart>) -> Seq<u8>
    decreases parts.len(),
{
    if parts.len() == 0 {
        Seq::empty()
    } else {
        parts_wire(parts.drop_last()) + record_wire(parts.last())
    }
}

/// The records that a state file of whole records holds.
pub open spec fn parts_of_wire(bytes: Seq<u8>) -> Seq<ManagedFileStatePart> {
    Seq::new(bytes.len() / 6, |k: int| record_of_wire(bytes.subrange(6 * k, 6 * k + 6)))
}

/// The parts stand in rising order: the header first if it is there, then
/// the body parts by number, none twice.
pub open spec fn rising(parts: Seq<ManagedFileStatePart>) -> bool {
    forall|i: int, j: int| 0 <= i < j < parts.len() ==> parts[i].part.rank() < parts[j].part.rank()
}

/// Every part is a valid part.
pub open spec fn all_valid(parts: Seq<ManagedFileStatePart>) -> bool {
    forall|i: int| 0 <= i < parts.len() ==> (#[trigger] parts[i]).part.valid()
}

/// Whether the list has an entry for `part`.
pub open spec fn has_part(parts: Seq<ManagedFileStatePart>, part: FilePartId) -> bool {
    exists|i: int| 0 <= i < parts.len() && (#[trigger] parts[i]).part == part
}

/// The state of a file that was just admitted: the header and every body
/// part, all with priority 0.
pub open spec fn full_parts(part_count: u32) -> Seq<ManagedFileStatePart> {
    Seq::new(
        (part_count + 1) as nat,
        |k: int| ManagedFileStatePart { part: FilePartId::at_rank(k), priority: 0 },
    )
}

/// The list without the parts that `range` covers.
pub open spec fn without_range(
    parts: Seq<ManagedFileStatePart>,
    range: FilePartIdRangeInclusive,
) -> Seq<ManagedFileStatePart>
    decreases parts.len(),
{
    if parts.len() == 0 {
        Seq::empty()
    } else if range.covers(parts.last().part) {
        without_range(parts.drop_last(), range)
    } else {
        without_range(parts.drop_last(), range).push(parts.last())
    }
}

/// The entries of `parts` whose flag in `keep` is set, in order.
pub open spec fn kept(parts: Seq<ManagedFileStatePart>, keep: Seq<bool>) -> Seq<
    ManagedFileStatePart,
>
    decreases parts.len(),
{
    if parts.len() == 0 || keep.len() != parts.len() {
        Seq::empty()
    } else if keep.last() {
        kept(parts.drop_last(), keep.drop_last()).push(parts.last())
    } else {
        kept(parts.drop_last(), keep.drop_last())
    }
}

/// The number of entries that are body parts.
pub open spec fn body_parts_len(parts: Seq<ManagedFileStatePart>) -> nat {
    if parts.len() > 0 && parts[0].part == FilePartId::Header {
        (parts.len() - 1) as nat
    } else {
        parts.len()
    }
}

pub proof fn lemma_record_wire_len(entry: ManagedFileStatePart)
    ensures
        record_wire(entry).len() == 6,
{
    lemma_le_bytes_len(entry.part.rank() as nat, 4);
    lemma_le_bytes_len(twos(entry.priority as int, 2), 2);
}

/// A record of a valid part reads back from its six bytes.
pub proof fn lemma_record_roundtrip(entry: ManagedFileStatePart)
    requires
        entry.part.valid(),
    ensures
        record_of_wire(record_wire(entry)) == entry,
{
    lemma_radix_values();
    let rank = entry.part.rank() as nat;
    let raw = twos(entry.priority as int, 2);
    lemma_twos_roundtrip(entry.priority as int, 2);
    lemma_le_bytes_len(rank, 4);
    lemma_le_bytes_len(raw, 2);
    lemma_le_value_of_bytes(rank, 4);
    lemma_le_value_of_bytes(raw, 2);
    assert(record_wire(entry).take(4) =~= le_bytes(rank, 4));
    assert(record_wire(entry).skip(4) =~= le_bytes(raw, 2));
}

/// A state file is made of whole records: its length is six times the
/// number of parts that remain.
pub proof fn lemma_parts_wire_len(parts: Seq<ManagedFileStatePart>)
    ensures
        parts_wire(parts).len() == 6 * parts.len(),
        parts_wire(parts).len() % 6 == 0,
    decreases parts.len(),
{
    if parts.len() > 0 {
        lemma_parts_wire_len(parts.drop_last());
        lemma_record_wire_len(parts.last());
    }
}

/// The `k`th record of a state file is the record of the `k`th part.
pub proof fn lemma_parts_wire_record(parts: Seq<ManagedFileStatePart>, k: int)
    requires
        0 <= k < parts.len(),
    ensures
        parts_wire(parts).len() == 6 * parts.len(),
        parts_wire(parts).subrange(6 * k, 6 * k + 6) == record_wire(parts[k]),
    decreases parts.len(),
{
    lemma_parts_wire_len(parts);
    lemma_parts_wire_len(parts.drop_last());
    lemma_record_wire_len(parts.last());
    if k == parts.len() - 1 {
        assert(parts_wire(parts).subrange(6 * k, 6 * k + 6) =~= record_wire(parts.last()));
    } else {
        lemma_parts_wire_record(parts.drop_last(), k);
        assert(parts_wire(parts).subrange(6 * k, 6 * k + 6) =~= parts_wire(
            parts.drop_last(),
        ).subrange(6 * k, 6 * k + 6));
    }
}

/// A list of valid parts reads back from its state file.
pub proof fn lemma_parts_roundtrip(parts: Seq<ManagedFileStatePart>)
    requires
        all_valid(parts),
    ensures
        parts_of_wire(parts_wire(parts)) == parts,
{
    lemma_parts_wire_len(parts);
    let back = parts_of_wire(parts_wire(parts));
    assert(back.len() == parts.len());
    assert forall|k: int| 0 <= k < parts.len() implies back[k] == parts[k] by {
        lemma_parts_wire_record(parts, k);
        lemma_record_roundtrip(parts[k]);
    }
    assert(back =~= parts);
}

/// What `without_range` keeps: the parts that the range does not cover, and
/// their order.
pub proof fn lemma_without_range(parts: Seq<ManagedFileStatePart>, range: FilePartIdRangeInclusive)
    ensures
        without_range(parts, range).len() <= parts.len(),
        forall|e: ManagedFileStatePart| #[trigger]
            without_range(parts, range).contains(e) <==> parts.contains(e) && !range.covers(
                e.part,
            ),
        rising(parts) ==> rising(without_range(parts, range)),
        all_valid(parts) ==> all_valid(without_range(parts, range)),
        (forall|i: int| 0 <= i < parts.len() ==> !range.covers((#[trigger] parts[i]).part))
            ==> without_range(parts, range) == parts,
        (exists|i: int| 0 <= i < parts.len() && range.covers((#[trigger] parts[i]).part))
            ==> without_range(parts, range).len() < parts.len(),
    decreases parts.len(),
{
    let out = without_range(parts, range);
    if parts.len() == 0 {
        assert(out =~= parts);
    } else {
        let front = parts.drop_last();
        let last = parts.last();
        let rest = without_range(front, range);
        lemma_without_range(front, range);
        assert forall|e: ManagedFileStatePart| #[trigger]
            out.contains(e) <==> parts.contains(e) && !range.covers(e.part) by {
            if out.contains(e) {
                let k = choose|k: int| 0 <= k < out.len() && out[k] == e;
                if k < rest.len() {
                    assert(rest.contains(e));
                    let j = choose|j: int| 0 <= j < front.len() && front[j] == e;
                    assert(parts[j] == e);
                } else {
                    assert(e == last);
                    assert(parts[parts.len() - 1] == e);
                }
            }
            if parts.contains(e) && !range.covers(e.part) {
                let j = choose|j: int| 0 <= j < parts.len() && parts[j] == e;
                if j < front.len() {
                    assert(front[j] == e);
                    assert(front.contains(e));
                    assert(rest.contains(e));
                    let k = choose|k: int| 0 <= k < rest.len() && rest[k] == e;
                    assert(out[k] == e);
                } else {
                    assert(out[out.len() - 1] == e);
                }
            }
        }
        if rising(parts) {
            assert(rising(front));
            assert forall|i: int, j: int| 0 <= i < j < out.len() implies out[i].part.rank()
                < out[j].part.rank() by {
                if j < rest.len() {
                } else {
                    assert(rest.contains(rest[i]));
                    let m = choose|m: int| 0 <= m < front.len() && front[m] == rest[i];
                    assert(parts[m] == rest[i]);
                }
            }
        }
        if all_valid(parts) {
            assert(all_valid(front)) by {
                assert forall|i: int| 0 <= i < front.len() implies (#[trigger] front[i]).part.valid() by {
                    assert(parts[i].part.valid());
                }
            }
            assert forall|i: int| 0 <= i < out.len() implies (#[trigger] out[i]).part.valid() by {
                if i < rest.len() {
                } else {
                    assert(parts[parts.len() - 1].part.valid());
                }
            }
        }
        if forall|i: int| 0 <= i < parts.len() ==> !range.covers((#[trigger] parts[i]).part) {
            assert forall|i: int| 0 <= i < front.len() implies !range.covers(
                (#[trigger] front[i]).part,
            ) by {
                assert(front[i] == parts[i]);
            }
            assert(!range.covers(parts[parts.len() - 1].part));
            assert(out =~= parts);
        }
        if exists|i: int| 0 <= i < parts.len() && range.covers((#[trigger] parts[i]).part) {
            let i = choose|i: int| 0 <= i < parts.len() && range.covers((#[trigger] parts[i]).part);
            if i < front.len() {
                assert(front[i] == parts[i]);
            }
        }
    }
}

/// The parts that remain of one managed file.
#[derive(Debug, PartialEq, Eq)]
pub struct ManagedFileState {
    remaining_parts: Vec<ManagedFileStatePart>,
}

impl View for ManagedFileState {
    type V = Seq<ManagedFileStatePart>;

    closed spec fn view(&self) -> Seq<ManagedFileStatePart> {
        self.remaining_parts@
    }
}

impl Clone for ManagedFileState {
    fn clone(&self) -> (copy: Self)
        ensures
            copy@ == self@,
    {
        let mut parts: Vec<ManagedFileStatePart> = Vec::new();
        let mut i: usize = 0;
        while i < self.remaining_parts.len()
            invariant
                i <= self.remaining_parts@.len(),
                parts@ == self.remaining_parts@.take(i as int),
            decreases self.remaining_parts@.len() - i,
        {
            parts.push(self.remaining_parts[i]);
            assert(parts@ =~= self.remaining_parts@.take(i + 1));
            i += 1;
        }
        assert(parts@ =~= self.remaining_parts@);
        ManagedFileState { remaining_parts: parts }
    }
}

/// Appends the six bytes of one record.
pub fn serialize_part_to_stream(part: &ManagedFileStatePart, writer: &mut Vec<u8>)
    requires
        part.part.valid(),
    ensures
        final(writer)@ == old(writer)@ + record_wire(*part),
{
    let ghost start = writer@;
    put_le(writer, part.part.to_index() as u64, 4);
    put_le(writer, twos_of_i16(part.priority), 2);
    assert(writer@ =~= start + record_wire(*part));
}

/// Appends the records of a list of parts.
pub fn serialize_parts_to_stream(parts: &Vec<ManagedFileStatePart>, writer: &mut Vec<u8>)
    requires
        all_valid(parts@),
    ensures
        final(writer)@ == old(writer)@ + parts_wire(parts@),
{
    let ghost start = writer@;
    let mut i: usize = 0;
    assert(parts@.take(0) =~= Seq::<ManagedFileStatePart>::empty());
    assert(writer@ =~= start + parts_wire(parts@.take(0)));
    while i < parts.len()
        invariant
            i <= parts@.len(),
            all_valid(parts@),
            writer@ == start + parts_wire(parts@.take(i as int)),
        decreases parts@.len() - i,
    {
        let ghost before = writer@;
        serialize_part_to_stream(&parts[i], writer);
        proof {
            let next = parts@.take(i + 1);
            assert(next.drop_last() =~= parts@.take(i as int));
            assert(next.last() == parts@[i as int]);
            assert(writer@ =~= start + parts_wire(next));
        }
        i += 1;
    }
    assert(parts@.take(parts@.len() as int) =~= parts@);
}

impl ManagedFileState {
    /// The list is in rising order and holds valid parts only.
    pub open spec fn wf(&self) -> bool {
        rising(self@) && all_valid(self@)
    }

    /// The state of a file of `part_count` body parts of which nothing has
    /// been acknowledged yet.
    pub fn new_from_part_count(part_count: u32) -> (state: Self)
        ensures
            state.wf(),
            state@ == full_parts(part_count),
    {
        let mut parts: Vec<ManagedFileStatePart> = Vec::new();
        parts.push(ManagedFileStatePart { part: FilePartId::Header, priority: 0 });
        let mut i: u32 = 0;
        assert(parts@ =~= full_parts(part_count).take(1));
        while i < part_count
            invariant
                i <= part_count,
                parts@ == full_parts(part_count).take(i + 1),
            decreases part_count - i,
        {
            parts.push(ManagedFileStatePart { part: FilePartId::Part(i), priority: 0 });
            assert(parts@ =~= full_parts(part_count).take(i + 2));
            i += 1;
        }
        assert(parts@ =~= full_parts(part_count));
        ManagedFileState { remaining_parts: parts }
    }

    /// Reads a state file. Refuses one that is not made of whole records,
    /// and one whose parts are not in rising order.
    pub fn load_from_file(bytes: &[u8]) -> (r: Result<Self, DecodeError>)
        ensures
            match r {
                Ok(state) => bytes@.len() % 6 == 0 && state@ == parts_of_wire(bytes@) && state.wf()
                    && parts_wire(state@) == bytes@,
                Err(e) => e == DecodeError::InvalidData && (bytes@.len() % 6 != 0 || !rising(
                    parts_of_wire(bytes@),
                )),
            },
    {
        if bytes.len() % STATE_RECORD_LEN != 0 {
            return Err(DecodeError::InvalidData);
        }
        let part_count = bytes.len() / STATE_RECORD_LEN;
        let ghost all = parts_of_wire(bytes@);
        let mut parts: Vec<ManagedFileStatePart> = Vec::new();
        let mut reader = SubstreamReader::new(bytes, bytes.len());
        let mut k: usize = 0;
        proof {
            lemma_radix_values();
            assert(reader.unread() =~= bytes@.skip(0));
            assert(parts_wire(parts@) =~= bytes@.take(0));
        }
        while k < part_count
            invariant
                k <= part_count,
                part_count * 6 == bytes@.len(),
                all == parts_of_wire(bytes@),
                reader.unread() == bytes@.skip(6 * k),
                parts@ == all.take(k as int),
                rising(parts@),
                all_valid(parts@),
                parts_wire(parts@) == bytes@.take(6 * k),
            decreases part_count - k,
        {
            let ghost record = bytes@.subrange(6 * k, 6 * k + 6);
            let ghost before = parts@;
            proof {
                lemma_radix_values();
                assert(reader.unread().take(4) =~= record.take(4));
                assert(reader.unread().skip(4).take(2) =~= record.skip(4));
                assert(reader.unread().skip(4).skip(2) =~= bytes@.skip(6 * (k + 1)));
            }
            let part_int = match read_le(&mut reader, 4) {
                Ok(v) => v,
                Err(_) => {
                    assert(false);
                    return Err(DecodeError::InvalidData);
                },
            };
            let raw = match read_le(&mut reader, 2) {
                Ok(v) => v,
                Err(_) => {
                    assert(false);
                    return Err(DecodeError::InvalidData);
                },
            };
            let entry = ManagedFileStatePart {
                part: FilePartId::from_index(part_int as u32),
                priority: i16_of_twos(raw),
            };
            assert(entry == all[k as int]);
            if k > 0 && !parts[k - 1].part.lt(&entry.part) {
                proof {
                    assert(all[k - 1] == parts@[k - 1]);
                    assert(!rising(all));
                }
                return Err(DecodeError::InvalidData);
            }
            parts.push(entry);
            proof {
                assert(parts@ =~= all.take(k + 1));
                assert forall|i: int, j: int| 0 <= i < j < parts@.len() implies parts@[i].part.rank()
                    < parts@[j].part.rank() by {
                    if j == k {
                        if i < k - 1 {
                            assert(before[i].part.rank() < before[k - 1].part.rank());
                        }
                    } else {
                        assert(before[i].part.rank() < before[j].part.rank());
                    }
                }
                assert forall|i: int| 0 <= i < parts@.len() implies (#[trigger] parts@[i]).part.valid() by {
                    if i < k {
                        assert(before[i].part.valid());
                    }
                }
                // The bytes of the record are the record's bytes.
                let raw_nat = le_value(record.skip(4));
                crate::encoding::lemma_le_bytes_of_value(record.take(4));
                crate::encoding::lemma_le_bytes_of_value(record.skip(4));
                crate::encoding::lemma_untwos_roundtrip(raw_nat, 2);
                assert(record_wire(entry) =~= record.take(4) + record.skip(4));
                assert(record.take(4) + record.skip(4) =~= record);
                assert(parts@.drop_last() =~= before);
                assert(bytes@.take(6 * (k + 1)) =~= bytes@.take(6 * k) + record);
            }
            k += 1;
        }
        proof {
            assert(all.take(part_count as int) =~= all);
            assert(bytes@.take(6 * part_count) =~= bytes@);
        }
        Ok(ManagedFileState { remaining_parts: parts })
    }

    /// The bytes of the state file.
    pub fn serialize(&self) -> (bytes: Vec<u8>)
        requires
            self.wf(),
        ensures
            bytes@ == parts_wire(self@),
            bytes@.len() % 6 == 0,
    {
        let mut bytes: Vec<u8> = Vec::new();
        serialize_parts_to_stream(&self.remaining_parts, &mut bytes);
        proof {
            lemma_parts_wire_len(self@);
            assert(bytes@ =~= parts_wire(self@));
        }
        bytes
    }

    /// Where in the list the entry of `part` stands.
    pub fn position(&self, part: FilePartId) -> (index: Option<usize>)
        ensures
            match index {
                Some(i) => i < self@.len() && self@[i as int].part == part,
                None => !has_part(self@, part),
            },
    {
        let mut i: usize = 0;
        while i < self.remaining_parts.len()
            invariant
                i <= self@.len(),
                forall|j: int| 0 <= j < i ==> self@[j].part != part,
            decreases self@.len() - i,
        {
            if self.remaining_parts[i].part == part {
                return Some(i);
            }
            i += 1;
        }
        None
    }

    /// Whether `part` remains.
    pub fn contains(&self, part: FilePartId) -> (b: bool)
        ensures
            b == has_part(self@, part),
    {
        self.position(part).is_some()
    }

    /// Gives the entry of `part` the priority that `modify` makes of the one
    /// it has, and tells where in the list the entry stands. A part that
    /// does not remain is left alone.
    pub fn modify_part_priority<F: FnOnce(i16) -> i16>(&mut self, part: FilePartId, modify: F) -> (index:
        Option<usize>)
        requires
            forall|p: i16| modify.requires((p,)),
        ensures
            match index {
                Some(i) => i < old(self)@.len() && old(self)@[i as int].part == part
                    && final(self)@.len() == old(self)@.len() && final(self)@[i as int].part
                    == part && modify.ensures(
                    (old(self)@[i as int].priority,),
                    final(self)@[i as int].priority,
                ) && final(self)@ == old(self)@.update(i as int, final(self)@[i as int]),
                None => !has_part(old(self)@, part) && final(self)@ == old(self)@,
            },
            old(self).wf() ==> final(self).wf(),
    {
        match self.position(part) {
            Some(index) => {
                let current = self.remaining_parts[index].priority;
                let priority = modify(current);
                self.remaining_parts.set(index, ManagedFileStatePart { part, priority });
                proof {
                    if old(self).wf() {
                        Self::lemma_update_keeps_wf(old(self)@, index as int, priority);
                    }
                }
                Some(index)
            },
            None => None,
        }
    }

    /// Gives every entry of `part` the priority that `modify` makes of the
    /// one it has.
    pub fn modify_all_part_priorities<F: Fn(i16) -> i16>(&mut self, part: FilePartId, modify: F)
        requires
            forall|p: i16| modify.requires((p,)),
        ensures
            final(self)@.len() == old(self)@.len(),
            forall|i: int|
                0 <= i < old(self)@.len() ==> (#[trigger] final(self)@[i]).part == old(self)@[i].part
                    && (if old(self)@[i].part == part {
                    modify.ensures((old(self)@[i].priority,), final(self)@[i].priority)
                } else {
                    final(self)@[i].priority == old(self)@[i].priority
                }),
            old(self).wf() ==> final(self).wf(),
    {
        let mut i: usize = 0;
        while i < self.remaining_parts.len()
            invariant
                i <= self@.len(),
                self@.len() == old(self)@.len(),
                forall|p: i16| modify.requires((p,)),
                forall|j: int| 0 <= j < self@.len() ==> (#[trigger] self@[j]).part == old(self)@[j].part,
                forall|j: int|
                    0 <= j < i ==> (if old(self)@[j].part == part {
                        modify.ensures((old(self)@[j].priority,), (#[trigger] self@[j]).priority)
                    } else {
                        self@[j].priority == old(self)@[j].priority
                    }),
                forall|j: int| i <= j < self@.len() ==> (#[trigger] self@[j]) == old(self)@[j],
            decreases self@.len() - i,
        {
            let entry = self.remaining_parts[i];
            if entry.part == part {
                let priority = modify(entry.priority);
                self.remaining_parts.set(i, ManagedFileStatePart { part, priority });
            }
            i += 1;
        }
        proof {
            if old(self).wf() {
                Self::lemma_same_parts_keep_wf(old(self)@, self@);
            }
        }
    }

    /// Gives every part that remains the same priority.
    pub fn set_all_priorities(&mut self, priority: i16)
        ensures
            final(self)@.len() == old(self)@.len(),
            forall|i: int|
                0 <= i < old(self)@.len() ==> (#[trigger] final(self)@[i]) == (ManagedFileStatePart {
                    part: old(self)@[i].part,
                    priority,
                }),
            old(self).wf() ==> final(self).wf(),
    {
        let mut i: usize = 0;
        while i < self.remaining_parts.len()
            invariant
                i <= self@.len(),
                self@.len() == old(self)@.len(),
                forall|j: int|
                    0 <= j < i ==> (#[trigger] self@[j]) == (ManagedFileStatePart {
                        part: old(self)@[j].part,
                        priority,
                    }),
                forall|j: int| i <= j < self@.len() ==> (#[trigger] self@[j]) == old(self)@[j],
            decreases self@.len() - i,
        {
            let part = self.remaining_parts[i].part;
            self.remaining_parts.set(i, ManagedFileStatePart { part, priority });
            i += 1;
        }
        proof {
            if old(self).wf() {
                Self::lemma_same_parts_keep_wf(old(self)@, self@);
            }
        }
    }

    /// Keeps the entries for which `predicate` holds, in their order.
    pub fn filter_remaining_parts<F: Fn(&ManagedFileStatePart) -> bool>(&mut self, predicate: F)
        requires
            forall|e: &ManagedFileStatePart| predicate.requires((e,)),
        ensures
            exists|keep: Seq<bool>|
                keep.len() == old(self)@.len() && (forall|i: int|
                    0 <= i < keep.len() ==> predicate.ensures((&old(self)@[i],), #[trigger] keep[i]))
                    && final(self)@ == kept(old(self)@, keep),
    {
        let mut result: Vec<ManagedFileStatePart> = Vec::new();
        let ghost mut keep: Seq<bool> = Seq::empty();
        let mut i: usize = 0;
        assert(self@.take(0) =~= Seq::<ManagedFileStatePart>::empty());
        while i < self.remaining_parts.len()
            invariant
                i <= self@.len(),
                self@ == old(self)@,
                keep.len() == i,
                forall|e: &ManagedFileStatePart| predicate.requires((e,)),
                forall|j: int| 0 <= j < i ==> predicate.ensures((&self@[j],), #[trigger] keep[j]),
                result@ == kept(self@.take(i as int), keep),
            decreases self@.len() - i,
        {
            let entry = self.remaining_parts[i];
            let ok = predicate(&self.remaining_parts[i]);
            proof {
                let next = self@.take(i + 1);
                let flags = keep.push(ok);
                assert(next.drop_last() =~= self@.take(i as int));
                assert(flags.drop_last() =~= keep);
                assert(kept(next, flags) == if ok {
                    result@.push(entry)
                } else {
                    result@
                });
                keep = flags;
            }
            if ok {
                result.push(entry);
            }
            i += 1;
        }
        assert(self@.take(self@.len() as int) =~= self@);
        self.remaining_parts = result;
    }

    /// Drops the entries of the parts that `range` covers.
    pub fn remove_range(&mut self, range: &FilePartIdRangeInclusive)
        ensures
            final(self)@ == without_range(old(self)@, *range),
            old(self).wf() ==> final(self).wf(),
    {
        let mut result: Vec<ManagedFileStatePart> = Vec::new();
        let mut i: usize = 0;
        assert(self@.take(0) =~= Seq::<ManagedFileStatePart>::empty());
        while i < self.remaining_parts.len()
            invariant
                i <= self@.len(),
                self@ == old(self)@,
                result@ == without_range(self@.take(i as int), *range),
            decreases self@.len() - i,
        {
            let entry = self.remaining_parts[i];
            proof {
                let next = self@.take(i + 1);
                assert(next.drop_last() =~= self@.take(i as int));
                assert(next.last() == entry);
            }
            if !range.contains(entry.part) {
                result.push(entry);
            }
            i += 1;
        }
        proof {
            assert(self@.take(self@.len() as int) =~= self@);
            lemma_without_range(self@, *range);
        }
        self.remaining_parts = result;
    }

    /// The parts that remain, in rising order.
    pub fn remaining_parts(&self) -> (parts: &Vec<ManagedFileStatePart>)
        ensures
            parts@ == self@,
    {
        &self.remaining_parts
    }

    /// How many body parts remain.
    pub fn remaining_non_header_parts_len(&self) -> (n: usize)
        ensures
            n == body_parts_len(self@),
    {
        let contains_header = self.remaining_parts.len() > 0 && self.remaining_parts[0].part
            == FilePartId::Header;
        if contains_header {
            self.remaining_parts.len() - 1
        } else {
            self.remaining_parts.len()
        }
    }

    /// Whether nothing remains.
    pub fn is_empty(&self) -> (b: bool)
        ensures
            b == (self@.len() == 0),
    {
        self.remaining_parts.len() == 0
    }

    pub proof fn lemma_update_keeps_wf(parts: Seq<ManagedFileStatePart>, i: int, priority: i16)
        requires
            0 <= i < parts.len(),
            rising(parts),
            all_valid(parts),
        ensures
            rising(parts.update(i, ManagedFileStatePart { part: parts[i].part, priority })),
            all_valid(parts.update(i, ManagedFileStatePart { part: parts[i].part, priority })),
    {
        let after = parts.update(i, ManagedFileStatePart { part: parts[i].part, priority });
        assert forall|a: int, b: int| 0 <= a < b < after.len() implies after[a].part.rank()
            < after[b].part.rank() by {
            assert(parts[a].part.rank() < parts[b].part.rank());
        }
        assert forall|a: int| 0 <= a < after.len() implies (#[trigger] after[a]).part.valid() by {
            assert(parts[a].part.valid());
        }
    }

    pub proof fn lemma_same_parts_keep_wf(
        before: Seq<ManagedFileStatePart>,
        after: Seq<ManagedFileStatePart>,
    )
        requires
            rising(before),
            all_valid(before),
            after.len() == before.len(),
            forall|i: int| 0 <= i < after.len() ==> (#[trigger] after[i]).part == before[i].part,
        ensures
            rising(after),
            all_valid(after),
    {
        assert forall|a: int, b: int| 0 <= a < b < after.len() implies after[a].part.rank()
            < after[b].part.rank() by {
            assert(before[a].part.rank() < before[b].part.rank());
            assert(after[a].part == before[a].part);
            assert(after[b].part == before[b].part);
        }
        assert forall|a: int| 0 <= a < after.len() implies (#[trigger] after[a]).part.valid() by {
            assert(before[a].part.valid());
            assert(after[a].part == before[a].part);
        }
    }
}

} // verus!
