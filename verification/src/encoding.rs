//! Fixed-width integers on the wire.
//!
//! An unsigned integer of `width` bytes is written least significant byte
//! first (`le_bytes`) or most significant byte first (`be_bytes`). Signed
//! integers travel as their two's complement.

use vstd::prelude::*;

verus! {

/// 256 to the power `width`.
pub open spec fn radix(width: nat) -> nat
    decreases width,
{
    if width == 0 {
        1
    } else {
        256 * radix((width - 1) as nat)
    }
}

/// The `width` low bytes of `value`, least significant first.
pub open spec fn le_bytes(value: nat, width: nat) -> Seq<u8>
    decreases width,
{
    if width == 0 {
        Seq::empty()
    } else {
        seq![(value % 256) as u8] + le_bytes(value / 256, (width - 1) as nat)
    }
}

/// The number that `bytes` spell, least significant byte first.
pub open spec fn le_value(bytes: Seq<u8>) -> nat
    decreases bytes.len(),
{
    if bytes.len() == 0 {
        0
    } else {
        (bytes[0] as nat) + 256 * le_value(bytes.skip(1))
    }
}

/// The `width` low bytes of `value`, most significant first.
pub open spec fn be_bytes(value: nat, width: nat) -> Seq<u8> {
    le_bytes(value, width).reverse()
}

/// The number that `bytes` spell, most significant byte first.
pub open spec fn be_value(bytes: Seq<u8>) -> nat {
    le_value(bytes.reverse())
}

/// Two's complement of `value` in `width` bytes.
pub open spec fn twos(value: int, width: nat) -> nat {
    if value >= 0 {
        value as nat
    } else {
        (value + radix(width)) as nat
    }
}

/// The signed number whose two's complement in `width` bytes is `raw`.
pub open spec fn untwos(raw: nat, width: nat) -> int {
    if 2 * raw < radix(width) {
        raw as int
    } else {
        raw - radix(width)
    }
}

pub proof fn lemma_radix_values()
    ensures
        radix(0) == 1,
        radix(1) == 0x100,
        radix(2) == 0x1_0000,
        radix(3) == 0x100_0000,
        radix(4) == 0x1_0000_0000,
        radix(8) == 0x1_0000_0000_0000_0000,
{
    reveal_with_fuel(radix, 9);
}

pub proof fn lemma_le_bytes_len(value: nat, width: nat)
    ensures
        le_bytes(value, width).len() == width,
    decreases width,
{
    if width > 0 {
        lemma_le_bytes_len(value / 256, (width - 1) as nat);
    }
}

pub proof fn lemma_le_value_bound(bytes: Seq<u8>)
    ensures
        le_value(bytes) < radix(bytes.len()),
    decreases bytes.len(),
{
    if bytes.len() > 0 {
        lemma_le_value_bound(bytes.skip(1));
    }
}

/// Reading back what was written gives the number, if it fits the width.
pub proof fn lemma_le_value_of_bytes(value: nat, width: nat)
    requires
        value < radix(width),
    ensures
        le_value(le_bytes(value, width)) == value,
    decreases width,
{
    if width > 0 {
        let rest = le_bytes(value / 256, (width - 1) as nat);
        let all = le_bytes(value, width);
        assert(all.skip(1) =~= rest);
        lemma_le_value_of_bytes(value / 256, (width - 1) as nat);
    }
}

/// Writing what was read gives the bytes back.
pub proof fn lemma_le_bytes_of_value(bytes: Seq<u8>)
    ensures
        le_bytes(le_value(bytes), bytes.len()) == bytes,
    decreases bytes.len(),
{
    if bytes.len() > 0 {
        let tail = bytes.skip(1);
        lemma_le_bytes_of_value(tail);
        let v = le_value(bytes);
        assert(v % 256 == bytes[0] as nat);
        assert(v / 256 == le_value(tail));
        assert(le_bytes(v, bytes.len()) =~= bytes);
    } else {
        assert(le_bytes(0, 0) =~= bytes);
    }
}

pub proof fn lemma_be_value_of_bytes(value: nat, width: nat)
    requires
        value < radix(width),
    ensures
        be_value(be_bytes(value, width)) == value,
        be_bytes(value, width).len() == width,
{
    let le = le_bytes(value, width);
    lemma_le_bytes_len(value, width);
    assert(le.reverse().reverse() =~= le);
    lemma_le_value_of_bytes(value, width);
}

pub proof fn lemma_be_bytes_of_value(bytes: Seq<u8>)
    ensures
        be_bytes(be_value(bytes), bytes.len()) == bytes,
{
    let rev = bytes.reverse();
    lemma_le_bytes_of_value(rev);
    assert(rev.reverse() =~= bytes);
}

pub proof fn lemma_twos_roundtrip(value: int, width: nat)
    requires
        width > 0,
        -(radix(width) as int) <= 2 * value < radix(width),
    ensures
        twos(value, width) < radix(width),
        untwos(twos(value, width), width) == value,
{
}

pub proof fn lemma_untwos_roundtrip(raw: nat, width: nat)
    requires
        raw < radix(width),
    ensures
        twos(untwos(raw, width), width) == raw,
{
}

/// Appends `value` in `width` bytes, least significant first.
pub fn put_le(out: &mut Vec<u8>, value: u64, width: usize)
    requires
        width <= 8,
    ensures
        final(out)@ == old(out)@ + le_bytes(value as nat, width as nat),
{
    let mut rest: u64 = value;
    let mut i: usize = 0;
    let ghost start = out@;
    while i < width
        invariant
            i <= width,
            out@ + le_bytes(rest as nat, (width - i) as nat) == start + le_bytes(
                value as nat,
                width as nat,
            ),
        decreases width - i,
    {
        let ghost before = out@;
        let digit: u8 = (rest % 256) as u8;
        out.push(digit);
        proof {
            let w = (width - i) as nat;
            assert(le_bytes(rest as nat, w) == seq![digit] + le_bytes(
                (rest / 256) as nat,
                (w - 1) as nat,
            ));
            assert(out@ + le_bytes((rest / 256) as nat, (w - 1) as nat) =~= before + le_bytes(
                rest as nat,
                w,
            ));
        }
        rest = rest / 256;
        i = i + 1;
    }
    assert(out@ + le_bytes(rest as nat, 0) =~= out@);
}

/// Appends `value` in `width` bytes, most significant first.
pub fn put_be(out: &mut Vec<u8>, value: u64, width: usize)
    requires
        width <= 8,
    ensures
        final(out)@ == old(out)@ + be_bytes(value as nat, width as nat),
{
    let mut digits: Vec<u8> = Vec::new();
    put_le(&mut digits, value, width);
    assert(digits@ =~= le_bytes(value as nat, width as nat));
    proof {
        lemma_le_bytes_len(value as nat, width as nat);
    }
    let ghost start = out@;
    let mut i: usize = width;
    while i > 0
        invariant
            i <= width,
            digits@.len() == width,
            out@ == start + digits@.reverse().take(width - i),
        decreases i,
    {
        i = i - 1;
        let ghost before = out@;
        out.push(digits[i]);
        assert(out@ =~= start + digits@.reverse().take(width - i));
    }
    assert(digits@.reverse().take(width as int) =~= digits@.reverse());
}

/// The number that `bytes` spell, least significant byte first.
pub fn get_le(bytes: &[u8]) -> (value: u64)
    requires
        bytes@.len() <= 8,
    ensures
        value == le_value(bytes@),
{
    let n = bytes.len();
    let mut value: u64 = 0;
    let mut i: usize = n;
    proof {
        assert(bytes@.skip(n as int) =~= Seq::<u8>::empty());
        lemma_radix_values();
    }
    while i > 0
        invariant
            i <= n,
            n == bytes@.len(),
            n <= 8,
            value == le_value(bytes@.skip(i as int)),
        decreases i,
    {
        i = i - 1;
        proof {
            let tail = bytes@.skip(i as int);
            assert(tail.skip(1) =~= bytes@.skip(i + 1));
            assert(tail[0] == bytes@[i as int]);
            lemma_le_value_bound(tail.skip(1));
            lemma_le_value_bound(tail);
            lemma_radix_le(tail.len(), 8);
            lemma_radix_values();
        }
        value = value * 256 + bytes[i] as u64;
    }
    assert(bytes@.skip(0) =~= bytes@);
    value
}

/// The number that `bytes` spell, most significant byte first.
pub fn get_be(bytes: &[u8]) -> (value: u64)
    requires
        bytes@.len() <= 8,
    ensures
        value == be_value(bytes@),
{
    let n = bytes.len();
    let mut value: u64 = 0;
    let mut i: usize = 0;
    let ghost rev = bytes@.reverse();
    proof {
        assert(rev.skip(n as int) =~= Seq::<u8>::empty());
    }
    while i < n
        invariant
            i <= n,
            n == bytes@.len(),
            n <= 8,
            rev == bytes@.reverse(),
            value == le_value(rev.skip(n - i)),
        decreases n - i,
    {
        proof {
            let tail = rev.skip(n - i - 1);
            assert(tail.skip(1) =~= rev.skip(n - i));
            assert(tail[0] == bytes@[i as int]);
            lemma_le_value_bound(tail.skip(1));
            lemma_le_value_bound(tail);
            lemma_radix_le(tail.len(), 8);
            lemma_radix_values();
        }
        value = value * 256 + bytes[i] as u64;
        i = i + 1;
    }
    assert(rev.skip(0) =~= rev);
    value
}

pub proof fn lemma_radix_le(a: nat, b: nat)
    requires
        a <= b,
    ensures
        radix(a) <= radix(b),
        radix(a) >= 1,
    decreases b,
{
    if a < b {
        lemma_radix_le(a, (b - 1) as nat);
    } else if a > 0 {
        lemma_radix_le((a - 1) as nat, (a - 1) as nat);
    }
}

/// The two's complement of a 16-bit number.
pub fn twos_of_i16(value: i16) -> (raw: u64)
    ensures
        raw == twos(value as int, 2),
        raw < 0x1_0000,
{
    proof {
        lemma_radix_values();
    }
    if value >= 0 {
        value as u64
    } else {
        (value as i32 + 0x1_0000) as u64
    }
}

/// The 16-bit number with the given two's complement.
pub fn i16_of_twos(raw: u64) -> (value: i16)
    requires
        raw < 0x1_0000,
    ensures
        value == untwos(raw as nat, 2),
{
    proof {
        lemma_radix_values();
    }
    if raw < 0x8000 {
        raw as i16
    } else {
        (raw as i32 - 0x1_0000) as i16
    }
}

/// The two's complement of a 64-bit number.
pub fn twos_of_i64(value: i64) -> (raw: u64)
    ensures
        raw == twos(value as int, 8),
{
    proof {
        lemma_radix_values();
    }
    if value >= 0 {
        value as u64
    } else {
        ((value + i64::MAX + 1) as u64) + 0x8000_0000_0000_0000u64
    }
}

/// The 64-bit number with the given two's complement.
pub fn i64_of_twos(raw: u64) -> (value: i64)
    ensures
        value == untwos(raw as nat, 8),
{
    proof {
        lemma_radix_values();
    }
    if raw < 0x8000_0000_0000_0000u64 {
        raw as i64
    } else {
        ((raw - 0x8000_0000_0000_0000u64) as i64) - i64::MAX - 1
    }
}

} // verus!
