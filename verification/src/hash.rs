//! A small non-cryptographic hash used to derive a stream of pseudorandom
//! values, e.g. for picking display colors per cluster id.

use vstd::prelude::*;

verus! {

/// Multiplier of the hash round.
pub const FX_MUL: u64 = 0x517cc1b727220a95;

/// Initial state of a hasher obtained through `Default`.
pub const FX_SEED: u64 = 0x4234234234129;

/// One round of the hash: rotate the state left by five bits, fold the input
/// in by xor, and multiply (wrapping) by the fixed odd constant.
pub open spec fn fx_step(h: u64, i: u64) -> u64 {
    (((h << 5u64) | (h >> 59u64)) ^ i).wrapping_mul(FX_MUL)
}

/// State of the hash after absorbing the values `0, 1, ..., count - 1`.
pub open spec fn fx_stream_state(seed: u64, count: nat) -> u64
    decreases count,
{
    if count == 0 {
        seed
    } else {
        fx_step(fx_stream_state(seed, (count - 1) as nat), (count - 1) as u64)
    }
}

/// A fast, non-cryptographic hasher over a single 64-bit word of state.
pub struct FxHasher {
    pub hash: u64,
}

impl FxHasher {
    /// Absorb one value into the state.
    pub fn add_to_hash(&mut self, i: u64)
        ensures
            final(self).hash == fx_step(old(self).hash, i),
    {
        let rotated: u64 = (self.hash << 5u64) | (self.hash >> 59u64);
        self.hash = (rotated ^ i).wrapping_mul(FX_MUL);
    }

    /// The current state as the hash value.
    pub fn finish(&self) -> (r: u64)
        ensures
            r == self.hash,
    {
        self.hash
    }
}

impl Default for FxHasher {
    fn default() -> (r: Self)
        ensures
            r.hash == FX_SEED,
    {
        FxHasher { hash: FX_SEED }
    }
}

/// Produces `count` pseudorandom values from `seed`: the `k`-th entry is the
/// hash state after absorbing `0, 1, ..., k`.
pub fn trivial_random(seed: u64, count: u64) -> (r: Vec<u64>)
    ensures
        r@.len() == count,
        forall|k: int|
            0 <= k < count ==> #[trigger] r@[k] == fx_stream_state(seed, (k + 1) as nat),
{
    let mut hasher = FxHasher { hash: seed };
    let mut out: Vec<u64> = Vec::new();
    let mut x: u64 = 0;
    while x < count
        invariant
            x <= count,
            out@.len() == x,
            hasher.hash == fx_stream_state(seed, x as nat),
            forall|k: int|
                0 <= k < x ==> #[trigger] out@[k] == fx_stream_state(seed, (k + 1) as nat),
        decreases count - x,
    {
        hasher.add_to_hash(x);
        out.push(hasher.finish());
        x = x + 1;
    }
    out
}

} // verus!
