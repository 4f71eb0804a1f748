//! The two orders on the parts in storage: the order in which they go out,
//! and the order in which they are given up when room is needed.
//!
//! Parts go out by priority, the highest first; among equals a header goes
//! before any body part, and body parts go by rising number. Parts are given
//! up by priority, the lowest first; among equals body parts go before a
//! header, and body parts go by falling number, so that the file shrinks
//! from its end.

use crate::file_id::FileId;
use crate::file_part_id::FilePartId;
use std::cmp::Ordering;
use vstd::prelude::*;

verus! {

/// One part of one file, with its priority.
#[derive(Debug, Clone, Copy, PartialEq, Eq, Structural)]
pub struct StorageFilePart {
    pub file_id: FileId,
    pub part_id: FilePartId,
    pub priority: i16,
}

/// The place of a part in the order of going out: the smaller, the sooner.
pub open spec fn sending_key(priority: i16, part: FilePartId) -> int {
    (32767 - priority) * 0x2_0000_0000 + part.rank()
}

/// The place of a part in the order of giving up: the smaller, the sooner.
pub open spec fn deletion_key(priority: i16, part: FilePartId) -> int {
    (priority + 32768) * 0x2_0000_0000 + match part {
        FilePartId::Header => 0x1_0000_0000,
        FilePartId::Part(n) => 0xFFFF_FFFF - n,
    }
}

/// Whether `a` goes out before `b`.
pub open spec fn sent_before(a: StorageFilePart, b: StorageFilePart) -> bool {
    sending_key(a.priority, a.part_id) < sending_key(b.priority, b.part_id)
}

/// Whether `a` is given up before `b`.
pub open spec fn given_up_before(a: StorageFilePart, b: StorageFilePart) -> bool {
    deletion_key(a.priority, a.part_id) < deletion_key(b.priority, b.part_id)
}

/// What the order of going out comes to, spelled out.
pub proof fn lemma_sent_before(a: StorageFilePart, b: StorageFilePart)
    ensures
        sent_before(a, b) <==> {
            ||| a.priority > b.priority
            ||| a.priority == b.priority && a.part_id is Header && b.part_id is Part
            ||| a.priority == b.priority && a.part_id is Part && b.part_id is Part
                && a.part_id->Part_0 < b.part_id->Part_0
        },
{
}

/// What the order of giving up comes to, spelled out.
pub proof fn lemma_given_up_before(a: StorageFilePart, b: StorageFilePart)
    ensures
        given_up_before(a, b) <==> {
            ||| a.priority < b.priority
            ||| a.priority == b.priority && a.part_id is Part && b.part_id is Header
            ||| a.priority == b.priority && a.part_id is Part && b.part_id is Part
                && a.part_id->Part_0 > b.part_id->Part_0
        },
{
}

/// Whether `a` goes out before `b`.
pub fn goes_before(a: &StorageFilePart, b: &StorageFilePart) -> (before: bool)
    ensures
        before == sent_before(*a, *b),
{
    if a.priority != b.priority {
        return a.priority > b.priority;
    }
    match (a.part_id, b.part_id) {
        (FilePartId::Header, FilePartId::Header) => false,
        (FilePartId::Header, FilePartId::Part(_)) => true,
        (FilePartId::Part(_), FilePartId::Header) => false,
        (FilePartId::Part(x), FilePartId::Part(y)) => x < y,
    }
}

/// Whether `a` is given up before `b`.
pub fn less_valuable(a: &StorageFilePart, b: &StorageFilePart) -> (before: bool)
    ensures
        before == given_up_before(*a, *b),
{
    if a.priority != b.priority {
        return a.priority < b.priority;
    }
    match (a.part_id, b.part_id) {
        (FilePartId::Header, FilePartId::Header) => false,
        (FilePartId::Header, FilePartId::Part(_)) => false,
        (FilePartId::Part(_), FilePartId::Header) => true,
        (FilePartId::Part(x), FilePartId::Part(y)) => x > y,
    }
}

/// Compares two parts for sending: the greater goes out first.
pub fn cmp_file_storage_part_normal(a: &StorageFilePart, b: &StorageFilePart) -> (r: Ordering)
    ensures
        r is Greater <==> sent_before(*a, *b),
        r is Less <==> sent_before(*b, *a),
{
    if goes_before(a, b) {
        Ordering::Greater
    } else if goes_before(b, a) {
        Ordering::Less
    } else {
        Ordering::Equal
    }
}

/// Compares two parts for giving up: the lesser is given up first.
pub fn cmp_file_storage_part_for_deletion(a: &StorageFilePart, b: &StorageFilePart) -> (r: Ordering)
    ensures
        r is Less <==> given_up_before(*a, *b),
        r is Greater <==> given_up_before(*b, *a),
{
    if less_valuable(a, b) {
        Ordering::Less
    } else if less_valuable(b, a) {
        Ordering::Greater
    } else {
        Ordering::Equal
    }
}

} // verus!
