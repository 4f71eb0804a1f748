//! Numbers in decimal, as ASCII bytes.

use vstd::prelude::*;
use vstd::utf8::{encode_utf8, is_ascii_chars, valid_utf8};

verus! {

/// The decimal digits of a number, as ASCII bytes, without leading zeros.
pub open spec fn decimal(n: nat) -> Seq<u8>
    decreases n,
{
    if n < 10 {
        seq![(48 + n) as u8]
    } else {
        decimal(n / 10).push((48 + n % 10) as u8)
    }
}

/// The number that a run of ASCII digits spells; none for an empty run and
/// for one that holds anything but digits.
pub open spec fn decimal_value(digits: Seq<u8>) -> Option<nat>
    decreases digits.len(),
{
    if digits.len() == 0 {
        None
    } else if !(48 <= digits.last() <= 57) {
        None
    } else if digits.len() == 1 {
        Some((digits.last() - 48) as nat)
    } else {
        match decimal_value(digits.drop_last()) {
            Some(v) => Some(v * 10 + (digits.last() - 48) as nat),
            None => None,
        }
    }
}

/// The digits of a number spell that number.
pub proof fn lemma_decimal_value(n: nat)
    ensures
        decimal_value(decimal(n)) == Some(n),
        decimal(n).len() >= 1,
    decreases n,
{
    if n >= 10 {
        lemma_decimal_value(n / 10);
        let d = decimal(n);
        assert(d.drop_last() =~= decimal(n / 10));
        assert(d.last() == (48 + n % 10) as u8);
    }
}

/// A number below ten to the power `k` has at most `k` digits; a `u32` has
/// at most ten.
pub proof fn lemma_decimal_len(n: nat)
    ensures
        n < 10 ==> decimal(n).len() == 1,
        n < 100 ==> decimal(n).len() <= 2,
        n < 1_000 ==> decimal(n).len() <= 3,
        n < 10_000 ==> decimal(n).len() <= 4,
        n < 100_000 ==> decimal(n).len() <= 5,
        n < 1_000_000 ==> decimal(n).len() <= 6,
        n < 10_000_000 ==> decimal(n).len() <= 7,
        n < 100_000_000 ==> decimal(n).len() <= 8,
        n < 1_000_000_000 ==> decimal(n).len() <= 9,
        n < 10_000_000_000 ==> decimal(n).len() <= 10,
{
    reveal_with_fuel(decimal, 11);
}

/// The digits of a number are ASCII digits.
pub proof fn lemma_decimal_is_digits(n: nat)
    ensures
        forall|k: int| 0 <= k < decimal(n).len() ==> 48 <= #[trigger] decimal(n)[k] <= 57,
    decreases n,
{
    let digits = decimal(n);
    if n >= 10 {
        lemma_decimal_is_digits(n / 10);
        let front = decimal(n / 10);
        assert forall|k: int| 0 <= k < digits.len() implies 48 <= #[trigger] digits[k] <= 57 by {
            if k < front.len() {
                assert(digits[k] == front[k]);
            }
        }
    }
}

/// Bytes below 128 are the UTF-8 of the characters with those codes.
pub proof fn lemma_ascii_is_utf8(bytes: Seq<u8>)
    requires
        forall|k: int| 0 <= k < bytes.len() ==> #[trigger] bytes[k] < 128,
    ensures
        valid_utf8(bytes),
{
    let chars = Seq::new(bytes.len(), |k: int| bytes[k] as char);
    assert(is_ascii_chars(chars)) by {
        assert forall|i: int| 0 <= i < chars.len() implies '\0' <= #[trigger] chars[i]
            <= '\u{7f}' by {
            assert(bytes[i] < 128);
        }
    }
    vstd::utf8::is_ascii_chars_encode_utf8(chars);
    assert(encode_utf8(chars) =~= bytes) by {
        assert forall|i: int| 0 <= i < bytes.len() implies encode_utf8(chars)[i] == bytes[i] by {
            assert(chars[i] as u8 == encode_utf8(chars)[i]);
            assert(bytes[i] < 128);
        }
    }
    vstd::utf8::encode_utf8_valid_utf8(chars);
}

/// The digits of `n`.
pub fn decimal_digits(n: u32) -> (digits: Vec<u8>)
    ensures
        digits@ == decimal(n as nat),
        1 <= digits@.len() <= 10,
{
    proof {
        lemma_decimal_len(n as nat);
        lemma_decimal_value(n as nat);
    }
    let mut reversed: Vec<u8> = Vec::new();
    let mut rest: u32 = n;
    // The digits from the last to the first.
    while rest >= 10
        invariant
            decimal(n as nat) == decimal(rest as nat) + reversed@.reverse(),
        decreases rest,
    {
        let digit: u8 = 48 + (rest % 10) as u8;
        proof {
            let before = reversed@;
            let after = before.push(digit);
            assert(after.reverse() =~= seq![digit] + before.reverse());
            assert(decimal(rest as nat) == decimal((rest / 10) as nat).push(digit));
            assert(decimal((rest / 10) as nat).push(digit) + before.reverse() =~= decimal(
                (rest / 10) as nat,
            ) + after.reverse());
        }
        reversed.push(digit);
        rest = rest / 10;
    }
    let mut digits: Vec<u8> = Vec::new();
    digits.push(48 + rest as u8);
    assert(digits@ =~= decimal(rest as nat));
    let count = reversed.len();
    let mut i: usize = count;
    while i > 0
        invariant
            i <= count,
            count == reversed@.len(),
            digits@ == decimal(rest as nat) + reversed@.reverse().take(count - i),
        decreases i,
    {
        i -= 1;
        digits.push(reversed[i]);
        assert(digits@ =~= decimal(rest as nat) + reversed@.reverse().take(count - i));
    }
    assert(reversed@.reverse().take(count as int) =~= reversed@.reverse());
    digits
}

/// The number that a run of ASCII digits spells, if it is a `u32`.
pub fn read_decimal(digits: &[u8]) -> (value: Option<u32>)
    ensures
        match decimal_value(digits@) {
            Some(v) => if v <= u32::MAX {
                value == Some(v as u32)
            } else {
                value is None
            },
            None => value is None,
        },
{
    if digits.len() == 0 {
        return None;
    }
    let mut value: u64 = 0;
    let mut i: usize = 0;
    while i < digits.len()
        invariant
            i <= digits@.len(),
            value <= u32::MAX,
            i > 0 ==> decimal_value(digits@.take(i as int)) == Some(value as nat),
            i == 0 ==> value == 0,
        decreases digits@.len() - i,
    {
        let digit = digits[i];
        proof {
            let next = digits@.take(i + 1);
            assert(next.drop_last() =~= digits@.take(i as int));
            assert(next.last() == digit);
        }
        if digit < 48 || digit > 57 {
            proof {
                lemma_bad_digit(digits@, i as int);
            }
            return None;
        }
        let next_value = value * 10 + (digit - 48) as u64;
        if next_value > u32::MAX as u64 {
            proof {
                if decimal_value(digits@) is Some {
                    lemma_decimal_grows(digits@, i + 1);
                }
            }
            return None;
        }
        value = next_value;
        i += 1;
    }
    assert(digits@.take(digits@.len() as int) =~= digits@);
    Some(value as u32)
}

/// A run with a byte that is no digit spells no number.
pub proof fn lemma_bad_digit(digits: Seq<u8>, at: int)
    requires
        0 <= at < digits.len(),
        !(48 <= digits[at] <= 57),
    ensures
        decimal_value(digits) is None,
    decreases digits.len(),
{
    if at < digits.len() - 1 {
        lemma_bad_digit(digits.drop_last(), at);
    }
}

/// The number that a run spells is at least what its front spells.
pub proof fn lemma_decimal_grows(digits: Seq<u8>, front: int)
    requires
        0 < front <= digits.len(),
        decimal_value(digits) is Some,
    ensures
        decimal_value(digits.take(front)) is Some,
        decimal_value(digits.take(front))->Some_0 <= decimal_value(digits)->Some_0,
    decreases digits.len(),
{
    if front == digits.len() {
        assert(digits.take(front) =~= digits);
    } else {
        assert(digits.drop_last().take(front) =~= digits.take(front));
        lemma_decimal_grows(digits.drop_last(), front);
    }
}

/// Whether two byte strings are the same.
pub fn same_bytes(a: &[u8], b: &[u8]) -> (same: bool)
    ensures
        same == (a@ == b@),
{
    if a.len() != b.len() {
        return false;
    }
    let mut i: usize = 0;
    while i < a.len()
        invariant
            i <= a@.len(),
            a@.len() == b@.len(),
            forall|j: int| 0 <= j < i ==> a@[j] == b@[j],
        decreases a@.len() - i,
    {
        if a[i] != b[i] {
            return false;
        }
        i += 1;
    }
    assert(a@ =~= b@);
    true
}

/// `String::from_utf8`: the string whose UTF-8 bytes are the given ones, or
/// nothing where the bytes are not valid UTF-8.
#[verifier::external_body]
pub(crate) fn string_from_utf8(bytes: Vec<u8>) -> (text: Option<String>)
    ensures
        text is Some <==> valid_utf8(bytes@),
        text is Some ==> encode_utf8(text->Some_0@) == bytes@,
{
    match String::from_utf8(bytes) {
        Ok(text) => Some(text),
        Err(_) => None,
    }
}

} // verus!
