//! The checksum of a payload: XXH64 with seed 0, fed in blocks of 16 bytes.

use vstd::prelude::*;
use vstd::slice::slice_subrange;

verus! {

/// `twox_hash::XxHash64`, the streaming XXH64 hasher.
#[verifier::external_type_specification]
#[verifier::external_body]
pub struct ExXxHash64(twox_hash::XxHash64);

/// The seed that a hasher was made with.
pub uninterp spec fn hasher_seed(hasher: twox_hash::XxHash64) -> u64;

/// All the bytes written to a hasher so far, in order.
pub uninterp spec fn hasher_fed(hasher: twox_hash::XxHash64) -> Seq<u8>;

/// The XXH64 digest of `data` under `seed`.
pub uninterp spec fn xxh64(seed: u64, data: Seq<u8>) -> u64;

/// `XxHash64::with_seed`: a hasher with the given seed that has been fed
/// nothing yet.
#[verifier::external_body]
fn xxhash64_with_seed(seed: u64) -> (hasher: twox_hash::XxHash64)
    ensures
        hasher_seed(hasher) == seed,
        hasher_fed(hasher) == Seq::<u8>::empty(),
{
    twox_hash::XxHash64::with_seed(seed)
}

/// `Hasher::write` of `XxHash64`: the hasher has taken `data` after what it
/// had; how the bytes were cut into calls leaves no trace. The hasher counts
/// its input in a `u64`, so the total must fit one.
#[verifier::external_body]
fn xxhash64_write(hasher: &mut twox_hash::XxHash64, data: &[u8])
    requires
        hasher_fed(*old(hasher)).len() + data@.len() <= u64::MAX,
    ensures
        hasher_seed(*final(hasher)) == hasher_seed(*old(hasher)),
        hasher_fed(*final(hasher)) == hasher_fed(*old(hasher)) + data@,
{
    std::hash::Hasher::write(hasher, data)
}

/// `Hasher::finish` of `XxHash64`: the digest of all that was written, under
/// the hasher's seed.
#[verifier::external_body]
fn xxhash64_finish(hasher: &twox_hash::XxHash64) -> (digest: u64)
    ensures
        digest == xxh64(hasher_seed(*hasher), hasher_fed(*hasher)),
{
    std::hash::Hasher::finish(hasher)
}

/// The checksum that a transport packet carries for `payload`.
pub open spec fn checksum(payload: Seq<u8>) -> u64 {
    xxh64(0, payload)
}

/// The size of the blocks in which the hasher is fed.
pub const HASH_WINDOW: usize = 16;

/// Collects what is written into blocks of 16 bytes and feeds the hasher one
/// full block at a time; the last, shorter block goes in at the end.
pub struct ChunkedHasher {
    hasher: twox_hash::XxHash64,
    hash_window: Vec<u8>,
}

impl ChunkedHasher {
    /// All the bytes written so far.
    pub closed spec fn written(&self) -> Seq<u8> {
        hasher_fed(self.hasher) + self.hash_window@
    }

    /// A partly filled block waits; the seed is 0.
    pub closed spec fn wf(&self) -> bool {
        &&& hasher_seed(self.hasher) == 0
        &&& self.hash_window@.len() < HASH_WINDOW
    }

    pub fn new() -> (h: Self)
        ensures
            h.wf(),
            h.written() == Seq::<u8>::empty(),
    {
        let h = ChunkedHasher { hasher: xxhash64_with_seed(0), hash_window: Vec::new() };
        assert(h.written() =~= Seq::<u8>::empty());
        h
    }

    /// Takes `buf` after what was written before.
    pub fn write(&mut self, buf: &[u8])
        requires
            old(self).wf(),
            old(self).written().len() + buf@.len() <= u64::MAX,
        ensures
            final(self).wf(),
            final(self).written() == old(self).written() + buf@,
    {
        let ghost start = self.written();
        let mut buf_pos: usize = 0;
        assert(buf@.take(0) =~= Seq::<u8>::empty());
        while buf_pos < buf.len()
            invariant
                buf_pos <= buf.len(),
                self.wf(),
                self.written() == start + buf@.take(buf_pos as int),
                start.len() + buf@.len() <= u64::MAX,
            decreases buf.len() - buf_pos,
        {
            let remaining_window = HASH_WINDOW - self.hash_window.len();
            let remaining_buf = buf.len() - buf_pos;
            let copy_len = if remaining_window <= remaining_buf {
                remaining_window
            } else {
                remaining_buf
            };
            let piece = slice_subrange(buf, buf_pos, buf_pos + copy_len);
            let ghost before = self.written();
            self.hash_window.extend_from_slice(piece);
            assert(self.written() =~= before + piece@);
            assert(buf@.take(buf_pos + copy_len) =~= buf@.take(buf_pos as int) + piece@);
            buf_pos = buf_pos + copy_len;
            if self.hash_window.len() == HASH_WINDOW {
                let ghost full = self.written();
                xxhash64_write(&mut self.hasher, self.hash_window.as_slice());
                self.hash_window.clear();
                assert(self.written() =~= full);
            }
        }
        assert(buf@.take(buf.len() as int) =~= buf@);
    }

    /// The checksum of all that was written.
    pub fn result(self) -> (digest: u64)
        requires
            self.wf(),
            self.written().len() <= u64::MAX,
        ensures
            digest == checksum(self.written()),
    {
        let mut hasher = self.hasher;
        if self.hash_window.len() > 0 {
            xxhash64_write(&mut hasher, self.hash_window.as_slice());
        } else {
            assert(self.written() =~= hasher_fed(hasher));
        }
        xxhash64_finish(&hasher)
    }
}

/// The checksum of a whole payload.
pub fn checksum_of(payload: &[u8]) -> (digest: u64)
    requires
        payload@.len() <= u64::MAX,
    ensures
        digest == checksum(payload@),
{
    let mut hasher = ChunkedHasher::new();
    hasher.write(payload);
    assert(Seq::<u8>::empty() + payload@ =~= payload@);
    hasher.result()
}

} // verus!
