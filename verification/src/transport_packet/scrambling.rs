//! The whitener: each byte on the wire is the sum, modulo 256, of the payload
//! byte and the wire byte before it. Noise is then unlikely to read as a
//! well-formed message, and the transform is undone byte by byte.

use vstd::prelude::*;

verus! {

/// The wire byte for payload byte `plain` after wire byte `carry`.
pub open spec fn mix(carry: u8, plain: u8) -> u8 {
    if plain + carry >= 256 {
        (plain + carry - 256) as u8
    } else {
        (plain + carry) as u8
    }
}

/// The payload byte for wire byte `wire` after wire byte `carry`.
pub open spec fn unmix(carry: u8, wire: u8) -> u8 {
    if wire >= carry {
        (wire - carry) as u8
    } else {
        (wire + 256 - carry) as u8
    }
}

/// The wire bytes of `plain`, where the wire byte before them is `carry`.
pub open spec fn scramble_from(carry: u8, plain: Seq<u8>) -> Seq<u8>
    decreases plain.len(),
{
    if plain.len() == 0 {
        Seq::empty()
    } else {
        let first = mix(carry, plain[0]);
        seq![first] + scramble_from(first, plain.skip(1))
    }
}

/// The payload bytes of `wire`, where the wire byte before them is `carry`.
pub open spec fn unscramble_from(carry: u8, wire: Seq<u8>) -> Seq<u8>
    decreases wire.len(),
{
    if wire.len() == 0 {
        Seq::empty()
    } else {
        seq![unmix(carry, wire[0])] + unscramble_from(wire[0], wire.skip(1))
    }
}

/// The wire form of a payload: the first byte goes out as it is.
pub open spec fn scramble(plain: Seq<u8>) -> Seq<u8> {
    scramble_from(0, plain)
}

/// The payload of a wire form.
pub open spec fn unscramble(wire: Seq<u8>) -> Seq<u8> {
    unscramble_from(0, wire)
}

/// The last wire byte after `wire` went out, `carry` if none did.
pub open spec fn carry_after(carry: u8, wire: Seq<u8>) -> u8 {
    if wire.len() == 0 {
        carry
    } else {
        wire.last()
    }
}

pub proof fn lemma_scramble_len(carry: u8, plain: Seq<u8>)
    ensures
        scramble_from(carry, plain).len() == plain.len(),
    decreases plain.len(),
{
    if plain.len() > 0 {
        lemma_scramble_len(mix(carry, plain[0]), plain.skip(1));
    }
}

pub proof fn lemma_unscramble_len(carry: u8, wire: Seq<u8>)
    ensures
        unscramble_from(carry, wire).len() == wire.len(),
    decreases wire.len(),
{
    if wire.len() > 0 {
        lemma_unscramble_len(wire[0], wire.skip(1));
    }
}

/// Unscrambling undoes scrambling.
pub proof fn lemma_unscramble_scramble(carry: u8, plain: Seq<u8>)
    ensures
        unscramble_from(carry, scramble_from(carry, plain)) == plain,
    decreases plain.len(),
{
    if plain.len() > 0 {
        let first = mix(carry, plain[0]);
        let wire = scramble_from(carry, plain);
        assert(wire.skip(1) =~= scramble_from(first, plain.skip(1)));
        lemma_unscramble_scramble(first, plain.skip(1));
        assert(unmix(carry, first) == plain[0]);
        assert(unscramble_from(carry, wire) =~= plain);
    } else {
        assert(unscramble_from(carry, scramble_from(carry, plain)) =~= plain);
    }
}

/// Scrambling undoes unscrambling.
pub proof fn lemma_scramble_unscramble(carry: u8, wire: Seq<u8>)
    ensures
        scramble_from(carry, unscramble_from(carry, wire)) == wire,
    decreases wire.len(),
{
    if wire.len() > 0 {
        let plain = unscramble_from(carry, wire);
        assert(plain.skip(1) =~= unscramble_from(wire[0], wire.skip(1)));
        lemma_scramble_unscramble(wire[0], wire.skip(1));
        assert(mix(carry, unmix(carry, wire[0])) == wire[0]);
        assert(scramble_from(carry, plain) =~= wire);
    } else {
        assert(scramble_from(carry, unscramble_from(carry, wire)) =~= wire);
    }
}

/// Scrambling a payload piece by piece gives the wire form of the whole.
pub proof fn lemma_scramble_concat(carry: u8, a: Seq<u8>, b: Seq<u8>)
    ensures
        scramble_from(carry, a + b) == scramble_from(carry, a) + scramble_from(
            carry_after(carry, scramble_from(carry, a)),
            b,
        ),
    decreases a.len(),
{
    if a.len() == 0 {
        assert(a + b =~= b);
        assert(scramble_from(carry, a) + scramble_from(carry, b) =~= scramble_from(carry, b));
    } else {
        let first = mix(carry, a[0]);
        assert((a + b).skip(1) =~= a.skip(1) + b);
        lemma_scramble_concat(first, a.skip(1), b);
        lemma_scramble_len(first, a.skip(1));
        let tail = scramble_from(first, a.skip(1));
        let whole = scramble_from(carry, a);
        assert(whole =~= seq![first] + tail);
        assert(carry_after(carry, whole) == carry_after(first, tail));
        assert(scramble_from(carry, a + b) =~= whole + scramble_from(
            carry_after(carry, whole),
            b,
        ));
    }
}

/// Unscrambling a wire form piece by piece gives the payload of the whole.
pub proof fn lemma_unscramble_concat(carry: u8, a: Seq<u8>, b: Seq<u8>)
    ensures
        unscramble_from(carry, a + b) == unscramble_from(carry, a) + unscramble_from(
            carry_after(carry, a),
            b,
        ),
    decreases a.len(),
{
    if a.len() == 0 {
        assert(a + b =~= b);
        assert(unscramble_from(carry, a) + unscramble_from(carry, b) =~= unscramble_from(
            carry,
            b,
        ));
    } else {
        assert((a + b).skip(1) =~= a.skip(1) + b);
        lemma_unscramble_concat(a[0], a.skip(1), b);
        assert(carry_after(carry, a) == carry_after(a[0], a.skip(1)));
        assert(unscramble_from(carry, a + b) =~= unscramble_from(carry, a) + unscramble_from(
            carry_after(carry, a),
            b,
        ));
    }
}

/// Scrambles what is written to it and appends the result to a byte buffer.
pub struct ScramblingWriter {
    writer: Vec<u8>,
    cum_sum: u8,
}

impl ScramblingWriter {
    /// The buffer as it stands.
    pub closed spec fn output(&self) -> Seq<u8> {
        self.writer@
    }

    /// The wire byte that went out last, 0 before the first.
    pub closed spec fn carry(&self) -> u8 {
        self.cum_sum
    }

    pub fn new(writer: Vec<u8>) -> (w: Self)
        ensures
            w.output() == writer@,
            w.carry() == 0,
    {
        ScramblingWriter { writer, cum_sum: 0 }
    }

    /// Appends the wire form of `buf`, continuing from what went before.
    pub fn write(&mut self, buf: &[u8])
        ensures
            final(self).output() == old(self).output() + scramble_from(old(self).carry(), buf@),
            final(self).carry() == carry_after(
                old(self).carry(),
                scramble_from(old(self).carry(), buf@),
            ),
    {
        let ghost start_carry = self.cum_sum;
        let ghost start_out = self.writer@;
        let mut i: usize = 0;
        while i < buf.len()
            invariant
                i <= buf.len(),
                self.writer@ == start_out + scramble_from(start_carry, buf@.take(i as int)),
                self.cum_sum == carry_after(
                    start_carry,
                    scramble_from(start_carry, buf@.take(i as int)),
                ),
            decreases buf.len() - i,
        {
            let next = buf[i].wrapping_add(self.cum_sum);
            proof {
                let done = buf@.take(i as int);
                let one = seq![buf@[i as int]];
                assert(buf@.take(i + 1) =~= done + one);
                lemma_scramble_concat(start_carry, done, one);
                assert(one.skip(1) =~= Seq::<u8>::empty());
                assert(next == mix(self.cum_sum, one[0]));
                assert(scramble_from(next, one.skip(1)) =~= Seq::<u8>::empty());
                assert(scramble_from(self.cum_sum, one) =~= seq![next]);
            }
            self.writer.push(next);
            self.cum_sum = next;
            i = i + 1;
        }
        assert(buf@.take(buf.len() as int) =~= buf@);
    }

    /// Gives the buffer back.
    pub fn into_inner(self) -> (writer: Vec<u8>)
        ensures
            writer@ == self.output(),
    {
        self.writer
    }
}

/// Unscrambles what it reads from a byte slice.
pub struct UnscramblingReader<'a> {
    reader: &'a [u8],
    cum_sum: u8,
}

impl<'a> UnscramblingReader<'a> {
    /// The payload bytes that are still to come.
    pub closed spec fn unread(&self) -> Seq<u8> {
        unscramble_from(self.cum_sum, self.reader@)
    }

    pub fn new(reader: &'a [u8]) -> (r: Self)
        ensures
            r.unread() == unscramble(reader@),
    {
        UnscramblingReader { reader, cum_sum: 0 }
    }

    /// Reads up to `max` payload bytes: as many as are left, if fewer.
    pub fn read(&mut self, max: usize) -> (got: Vec<u8>)
        ensures
            got@.len() == (if max <= old(self).unread().len() {
                max as nat
            } else {
                old(self).unread().len()
            }),
            got@ == old(self).unread().take(got@.len() as int),
            final(self).unread() == old(self).unread().skip(got@.len() as int),
    {
        proof {
            lemma_unscramble_len(self.cum_sum, self.reader@);
        }
        let n = if max <= self.reader.len() {
            max
        } else {
            self.reader.len()
        };
        let input = self.reader;
        let ghost start_carry = self.cum_sum;
        let mut cum_sum = self.cum_sum;
        let mut got: Vec<u8> = Vec::new();
        let mut i: usize = 0;
        while i < n
            invariant
                i <= n <= input@.len(),
                got@ == unscramble_from(start_carry, input@.take(i as int)),
                cum_sum == carry_after(start_carry, input@.take(i as int)),
            decreases n - i,
        {
            let byte = input[i];
            let next = byte.wrapping_sub(cum_sum);
            proof {
                let done = input@.take(i as int);
                assert(input@.take(i + 1) =~= done + seq![byte]);
                lemma_unscramble_concat(start_carry, done, seq![byte]);
                let one = seq![byte];
                assert(one.skip(1) =~= Seq::<u8>::empty());
                assert(unscramble_from(byte, one.skip(1)) =~= Seq::<u8>::empty());
                assert(unscramble_from(cum_sum, one) =~= seq![next]);
            }
            got.push(next);
            cum_sum = byte;
            i = i + 1;
        }
        proof {
            let head = input@.take(n as int);
            let tail = input@.skip(n as int);
            assert(head + tail =~= input@);
            lemma_unscramble_concat(start_carry, head, tail);
            lemma_unscramble_len(start_carry, head);
            let all = unscramble_from(start_carry, input@);
            assert(all.take(n as int) =~= got@);
            assert(all.skip(n as int) =~= unscramble_from(cum_sum, tail));
        }
        self.reader = vstd::slice::slice_subrange(input, n, input.len());
        self.cum_sum = cum_sum;
        got
    }
}

} // verus!
