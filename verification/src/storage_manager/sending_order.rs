//! Putting the parts in storage into the order in which they go out.
//!
//! Parts that the order of going out does not tell apart are parts of
//! different files with the same priority and the same place in their
//! files. They go by the identifiers of their files, the smaller first, so
//! that the order of any set of parts is one and only one.

use crate::storage_manager::precedence::{goes_before, sending_key, sent_before, StorageFilePart};
use vstd::multiset::Multiset;
use vstd::prelude::*;
use vstd::relations::{sorted_by, total_ordering};
use vstd::seq_lib::{lemma_multiset_commutative, lemma_sorted_unique};

verus! {

/// Whether `a` goes out before `b` or is `b`.
pub open spec fn sent_no_later(a: StorageFilePart, b: StorageFilePart) -> bool {
    sent_before(a, b) || (!sent_before(b, a) && a.file_id.raw <= b.file_id.raw)
}

/// `sent_no_later` as a relation.
pub open spec fn sending_relation() -> spec_fn(StorageFilePart, StorageFilePart) -> bool {
    |a: StorageFilePart, b: StorageFilePart| sent_no_later(a, b)
}

/// The parts in the order in which they go out.
pub open spec fn sending_order(parts: Seq<StorageFilePart>) -> Seq<StorageFilePart> {
    parts.sort_by(sending_relation())
}

/// Any two parts are in order one way or the other; only a part and itself
/// are in order both ways.
pub proof fn lemma_sending_relation_total()
    ensures
        total_ordering(sending_relation()),
{
    let r = sending_relation();
    assert forall|a: StorageFilePart, b: StorageFilePart| #[trigger]
        r(a, b) && #[trigger] r(b, a) implies a == b by {
        assert(sending_key(a.priority, a.part_id) == sending_key(b.priority, b.part_id));
        assert(a.priority == b.priority);
        assert(a.part_id.rank() == b.part_id.rank());
    }
    assert forall|a: StorageFilePart, b: StorageFilePart, c: StorageFilePart| #[trigger]
        r(a, b) && #[trigger] r(b, c) implies r(a, c) by {}
    assert forall|a: StorageFilePart, b: StorageFilePart| #[trigger] r(a, b) || #[trigger] r(b, a) by {}
    assert forall|a: StorageFilePart| #[trigger] r(a, a) by {}
}

/// The order in which parts go out is an order of the same parts, and no
/// part in it goes out before one that stands in front of it.
pub proof fn lemma_sending_order(parts: Seq<StorageFilePart>)
    ensures
        sending_order(parts).to_multiset() == parts.to_multiset(),
        sending_order(parts).len() == parts.len(),
        forall|i: int, j: int|
            0 <= i < j < parts.len() ==> !sent_before(
                #[trigger] sending_order(parts)[j],
                #[trigger] sending_order(parts)[i],
            ),
{
    lemma_sending_relation_total();
    parts.lemma_sort_by_ensures(sending_relation());
    let sorted = sending_order(parts);
    vstd::seq_lib::to_multiset_len(sorted);
    vstd::seq_lib::to_multiset_len(parts);
    assert forall|i: int, j: int| 0 <= i < j < parts.len() implies !sent_before(
        #[trigger] sorted[j],
        #[trigger] sorted[i],
    ) by {
        assert(sending_relation()(sorted[i], sorted[j]));
    }
}

/// Whether `a` goes out before `b` or is `b`.
pub fn sends_no_later(a: &StorageFilePart, b: &StorageFilePart) -> (r: bool)
    ensures
        r == sent_no_later(*a, *b),
{
    if goes_before(a, b) {
        true
    } else if goes_before(b, a) {
        false
    } else {
        a.file_id.raw <= b.file_id.raw
    }
}

/// Merges two lists that are in order into one.
fn merge(left: &Vec<StorageFilePart>, right: &Vec<StorageFilePart>) -> (merged: Vec<StorageFilePart>)
    requires
        sorted_by(left@, sending_relation()),
        sorted_by(right@, sending_relation()),
    ensures
        sorted_by(merged@, sending_relation()),
        merged@.to_multiset() == left@.to_multiset().add(right@.to_multiset()),
{
    broadcast use vstd::multiset::group_multiset_axioms;

    let mut merged: Vec<StorageFilePart> = Vec::new();
    let mut i: usize = 0;
    let mut j: usize = 0;
    proof {
        lemma_sending_relation_total();
        assert(left@.take(0) =~= Seq::<StorageFilePart>::empty());
        assert(right@.take(0) =~= Seq::<StorageFilePart>::empty());
        assert(merged@ =~= Seq::<StorageFilePart>::empty());
        vstd::seq_lib::to_multiset_len(Seq::<StorageFilePart>::empty());
        assert(Seq::<StorageFilePart>::empty().to_multiset() =~= Multiset::<StorageFilePart>::empty());
        assert(merged@.to_multiset() =~= left@.take(0).to_multiset().add(
            right@.take(0).to_multiset(),
        ));
    }
    while i < left.len() || j < right.len()
        invariant
            i <= left@.len(),
            j <= right@.len(),
            total_ordering(sending_relation()),
            sorted_by(left@, sending_relation()),
            sorted_by(right@, sending_relation()),
            sorted_by(merged@, sending_relation()),
            merged@.to_multiset() == left@.take(i as int).to_multiset().add(
                right@.take(j as int).to_multiset(),
            ),
            forall|k: int|
                0 <= k < merged@.len() && i < left@.len() ==> sent_no_later(
                    #[trigger] merged@[k],
                    left@[i as int],
                ),
            forall|k: int|
                0 <= k < merged@.len() && j < right@.len() ==> sent_no_later(
                    #[trigger] merged@[k],
                    right@[j as int],
                ),
        decreases left@.len() - i + right@.len() - j,
    {
        let ghost before = merged@;
        let take_left = if i >= left.len() {
            false
        } else if j >= right.len() {
            true
        } else {
            sends_no_later(&left[i], &right[j])
        };
        if take_left {
            let item = left[i];
            merged.push(item);
            proof {
                vstd::seq_lib::to_multiset_build(before, item);
                vstd::seq_lib::to_multiset_build(left@.take(i as int), item);
                assert(left@.take(i + 1) =~= left@.take(i as int).push(item));
                assert(merged@.to_multiset() =~= left@.take(i + 1).to_multiset().add(
                    right@.take(j as int).to_multiset(),
                ));
                assert forall|a: int, b: int| 0 <= a < b < merged@.len() implies #[trigger] sending_relation()(
                    merged@[a],
                    merged@[b],
                ) by {
                    if b < before.len() {
                        assert(sending_relation()(before[a], before[b]));
                    } else {
                        assert(sent_no_later(before[a], item));
                    }
                }
                assert forall|k: int|
                    0 <= k < merged@.len() && i + 1 < left@.len() implies sent_no_later(
                    #[trigger] merged@[k],
                    left@[i + 1],
                ) by {
                    assert(sending_relation()(left@[i as int], left@[i + 1]));
                    if k < before.len() {
                        assert(sent_no_later(before[k], item));
                    }
                }
                assert forall|k: int|
                    0 <= k < merged@.len() && j < right@.len() implies sent_no_later(
                    #[trigger] merged@[k],
                    right@[j as int],
                ) by {
                    if k < before.len() {
                        assert(sent_no_later(before[k], right@[j as int]));
                    }
                }
            }
            i += 1;
        } else {
            let item = right[j];
            merged.push(item);
            proof {
                vstd::seq_lib::to_multiset_build(before, item);
                vstd::seq_lib::to_multiset_build(right@.take(j as int), item);
                assert(right@.take(j + 1) =~= right@.take(j as int).push(item));
                assert(merged@.to_multiset() =~= left@.take(i as int).to_multiset().add(
                    right@.take(j + 1).to_multiset(),
                ));
                assert forall|a: int, b: int| 0 <= a < b < merged@.len() implies #[trigger] sending_relation()(
                    merged@[a],
                    merged@[b],
                ) by {
                    if b < before.len() {
                        assert(sending_relation()(before[a], before[b]));
                    } else {
                        assert(sent_no_later(before[a], item));
                    }
                }
                assert forall|k: int|
                    0 <= k < merged@.len() && j + 1 < right@.len() implies sent_no_later(
                    #[trigger] merged@[k],
                    right@[j + 1],
                ) by {
                    assert(sending_relation()(right@[j as int], right@[j + 1]));
                    if k < before.len() {
                        assert(sent_no_later(before[k], item));
                    }
                }
                assert forall|k: int|
                    0 <= k < merged@.len() && i < left@.len() implies sent_no_later(
                    #[trigger] merged@[k],
                    left@[i as int],
                ) by {
                    if k < before.len() {
                        assert(sent_no_later(before[k], left@[i as int]));
                    }
                }
            }
            j += 1;
        }
    }
    proof {
        assert(left@.take(left@.len() as int) =~= left@);
        assert(right@.take(right@.len() as int) =~= right@);
    }
    merged
}

/// The parts of `items` from `from` up to `to`, in order.
fn sort_range(items: &Vec<StorageFilePart>, from: usize, to: usize) -> (sorted: Vec<StorageFilePart>)
    requires
        from <= to <= items@.len(),
    ensures
        sorted_by(sorted@, sending_relation()),
        sorted@.to_multiset() == items@.subrange(from as int, to as int).to_multiset(),
    decreases to - from,
{
    broadcast use vstd::multiset::group_multiset_axioms;

    let ghost range = items@.subrange(from as int, to as int);
    if to - from <= 1 {
        let mut sorted: Vec<StorageFilePart> = Vec::new();
        if to > from {
            sorted.push(items[from]);
        }
        assert(sorted@ =~= range);
        return sorted;
    }
    let middle = from + (to - from) / 2;
    let left = sort_range(items, from, middle);
    let right = sort_range(items, middle, to);
    proof {
        let a = items@.subrange(from as int, middle as int);
        let b = items@.subrange(middle as int, to as int);
        assert(a + b =~= range);
        lemma_multiset_commutative(a, b);
    }
    merge(&left, &right)
}

/// Puts parts into the order in which they go out.
pub fn sort_for_sending(items: Vec<StorageFilePart>) -> (sorted: Vec<StorageFilePart>)
    ensures
        sorted@ == sending_order(items@),
{
    let sorted = sort_range(&items, 0, items.len());
    proof {
        assert(items@.subrange(0, items@.len() as int) =~= items@);
        lemma_sending_relation_total();
        items@.lemma_sort_by_ensures(sending_relation());
        lemma_sorted_unique(sorted@, sending_order(items@), sending_relation());
    }
    sorted
}

} // verus!
