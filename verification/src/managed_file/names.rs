//! The names of the files that hold a managed file's parts in split mode:
//! the part's number in decimal, then `.bin`.

use crate::decimal::{decimal, decimal_digits, lemma_decimal_value, read_decimal, same_bytes};
use vstd::prelude::*;

verus! {

/// The four bytes `.bin`.
pub open spec fn bin_suffix() -> Seq<u8> {
    seq![0x2Eu8, 0x62u8, 0x69u8, 0x6Eu8]
}

/// The name of the file that holds body part `part`.
pub open spec fn part_file_name(part: u32) -> Seq<u8> {
    decimal(part as nat) + bin_suffix()
}

/// Different parts have different file names.
pub proof fn lemma_part_file_name_injective(a: u32, b: u32)
    requires
        part_file_name(a) == part_file_name(b),
    ensures
        a == b,
{
    lemma_decimal_value(a as nat);
    lemma_decimal_value(b as nat);
    let da = decimal(a as nat);
    let db = decimal(b as nat);
    assert(da.len() + 4 == part_file_name(a).len());
    assert(db.len() + 4 == part_file_name(b).len());
    assert(da =~= part_file_name(a).take(da.len() as int));
    assert(db =~= part_file_name(b).take(db.len() as int));
}

/// The name of the file that holds body part `part`.
pub fn part_file_name_of(part: u32) -> (name: Vec<u8>)
    ensures
        name@ == part_file_name(part),
{
    let mut name = decimal_digits(part);
    name.push(0x2E);
    name.push(0x62);
    name.push(0x69);
    name.push(0x6E);
    assert(name@ =~= part_file_name(part));
    name
}

/// The part whose file has the given name; none where the name is no
/// part's.
pub fn part_of_file_name(name: &[u8]) -> (part: Option<u32>)
    ensures
        match part {
            Some(n) => name@ == part_file_name(n),
            None => forall|n: u32| name@ != part_file_name(n),
        },
{
    if name.len() < 5 {
        proof {
            assert forall|n: u32| name@ != part_file_name(n) by {
                lemma_decimal_value(n as nat);
            }
        }
        return None;
    }
    let split = name.len() - 4;
    let digits = vstd::slice::slice_subrange(name, 0, split);
    let candidate = read_decimal(digits);
    proof {
        // A part's name spells the part in front of its suffix.
        assert forall|n: u32| name@ == part_file_name(n) implies candidate == Some(n) by {
            lemma_decimal_value(n as nat);
            assert(digits@ =~= decimal(n as nat));
        }
    }
    match candidate {
        Some(n) => {
            let expected = part_file_name_of(n);
            if same_bytes(name, expected.as_slice()) {
                Some(n)
            } else {
                None
            }
        },
        None => None,
    }
}

} // verus!
