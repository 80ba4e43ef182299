//! Streaming multiply-xor hash for short byte-string keys.
//!
//! The accumulator starts at zero; each chunk of the key (eight bytes,
//! then four, then single bytes) is xor-ed into the state, which is then
//! multiplied by a fixed odd constant with wraparound. The digest is a
//! pure function of the key bytes, which lets the aggregation table
//! compare digests before comparing keys.

use vstd::prelude::*;

verus! {

/// The fixed odd multiplier of the mixing step.
pub const SEED: u64 = 0x517cc1b727220a95;

/// One mixing step: xor the chunk in, multiply by the seed with wraparound.
pub open spec fn mix(state: u64, v: u64) -> u64 {
    (state ^ v).wrapping_mul(SEED)
}

/// Little-endian value of a byte span.
pub open spec fn word_le(bytes: Seq<u8>) -> nat
    decreases bytes.len(),
{
    if bytes.len() == 0 {
        0
    } else {
        (bytes[0] + 256 * word_le(bytes.skip(1))) as nat
    }
}

proof fn lemma_word_le_pow(bytes: Seq<u8>, k: nat, bound: nat)
    requires
        bytes.len() <= k,
        word_le_pow_bound(k) == bound,
    ensures
        word_le(bytes) < bound,
    decreases k,
{
    if bytes.len() > 0 {
        lemma_word_le_pow(bytes.skip(1), (k - 1) as nat, word_le_pow_bound((k - 1) as nat));
    } else {
        lemma_pow_bound_pos(k);
    }
}

/// Two hundred fifty-six to the `k`-th power.
pub open spec fn word_le_pow_bound(k: nat) -> nat
    decreases k,
{
    if k == 0 {
        1
    } else {
        256 * word_le_pow_bound((k - 1) as nat)
    }
}

proof fn lemma_pow_bound_pos(k: nat)
    ensures
        word_le_pow_bound(k) >= 1,
    decreases k,
{
    if k > 0 {
        lemma_pow_bound_pos((k - 1) as nat);
    }
}

/// State of the streaming hasher after feeding `bytes` into `state`,
/// chunked as eight bytes, then four, then one at a time.
pub open spec fn spec_write(state: u64, bytes: Seq<u8>) -> u64
    decreases bytes.len(),
{
    if bytes.len() >= 8 {
        spec_write(mix(state, word_le(bytes.take(8)) as u64), bytes.skip(8))
    } else if bytes.len() >= 4 {
        spec_write(mix(state, word_le(bytes.take(4)) as u64), bytes.skip(4))
    } else if bytes.len() >= 1 {
        spec_write(mix(state, bytes[0] as u64), bytes.skip(1))
    } else {
        state
    }
}

/// Digest of a whole key, from the zero seed.
pub open spec fn spec_hash(key: Seq<u8>) -> u64 {
    spec_write(0, key)
}

/// Loads `n` bytes at `off` as a little-endian word.
fn load_word(bytes: &[u8], off: usize, n: usize) -> (r: u64)
    requires
        n <= 8,
        off + n <= bytes@.len(),
    ensures
        r == word_le(bytes@.subrange(off as int, off + n)),
{
    let blen = bytes.len();
    let mut r: u64 = 0;
    let mut i: usize = n;
    proof {
        assert(bytes@.subrange(off + n, off + n) =~= Seq::<u8>::empty());
    }
    while i > 0
        invariant
            i <= n,
            n <= 8,
            off + n <= blen,
            blen == bytes@.len(),
            r == word_le(bytes@.subrange(off + i, off + n)),
        decreases i,
    {
        i = i - 1;
        let b = bytes[off + i];
        proof {
            let tail = bytes@.subrange(off + i + 1, off + n);
            lemma_word_le_pow(tail, (n - i - 1) as nat, word_le_pow_bound((n - i - 1) as nat));
            lemma_pow_bound_le8((n - i - 1) as nat);
            assert(bytes@.subrange(off + i, off + n).skip(1) =~= tail);
            assert(bytes@.subrange(off + i, off + n)[0] == bytes@[off + i]);
        }
        r = (b as u64) + 256 * r;
    }
    proof {
        assert(bytes@.subrange(off as int, off + n) =~= bytes@.subrange(off + 0, off + n));
    }
    r
}

proof fn lemma_pow_bound_le8(k: nat)
    requires
        k <= 7,
    ensures
        word_le_pow_bound(k) <= 0x1_0000_0000_0000_00,
{
    assert(word_le_pow_bound(0) == 1);
    assert(word_le_pow_bound(1) == 256);
    assert(word_le_pow_bound(2) == 0x1_0000);
    assert(word_le_pow_bound(3) == 0x100_0000);
    assert(word_le_pow_bound(4) == 0x1_0000_0000);
    assert(word_le_pow_bound(5) == 0x100_0000_0000);
    assert(word_le_pow_bound(6) == 0x1_0000_0000_0000);
    assert(word_le_pow_bound(7) == 0x100_0000_0000_0000);
}

/// Streaming multiply-xor hasher.
pub struct MyHasher {
    /// Current accumulator value.
    pub state: u64,
}

impl MyHasher {
    /// Feeds `bytes` into the accumulator, eight bytes at a time, then
    /// four, then one at a time.
    pub fn write(&mut self, bytes: &[u8])
        ensures
            final(self).state == spec_write(old(self).state, bytes@),
    {
        let len = bytes.len();
        let mut off: usize = 0;
        proof {
            assert(bytes@.skip(0) =~= bytes@);
        }
        while len - off >= 8
            invariant
                off <= len,
                len == bytes@.len(),
                spec_write(old(self).state, bytes@) == spec_write(self.state, bytes@.skip(off as int)),
        decreases len - off,
        {
            let w = load_word(bytes, off, 8);
            proof {
                let rest = bytes@.skip(off as int);
                assert(rest.take(8) =~= bytes@.subrange(off as int, off + 8));
                assert(rest.skip(8) =~= bytes@.skip(off + 8));
            }
            self.state = (self.state ^ w).wrapping_mul(SEED);
            off = off + 8;
        }
        if len - off >= 4 {
            let w = load_word(bytes, off, 4);
            proof {
                let rest = bytes@.skip(off as int);
                assert(rest.take(4) =~= bytes@.subrange(off as int, off + 4));
                assert(rest.skip(4) =~= bytes@.skip(off + 4));
            }
            self.state = (self.state ^ w).wrapping_mul(SEED);
            off = off + 4;
        }
        while off < len
            invariant
                off <= len,
                len - off < 4,
                len == bytes@.len(),
                spec_write(old(self).state, bytes@) == spec_write(self.state, bytes@.skip(off as int)),
            decreases len - off,
        {
            let b = bytes[off];
            proof {
                let rest = bytes@.skip(off as int);
                assert(rest[0] == bytes@[off as int]);
                assert(rest.skip(1) =~= bytes@.skip(off + 1));
            }
            self.state = (self.state ^ (b as u64)).wrapping_mul(SEED);
            off = off + 1;
        }
        proof {
            assert(bytes@.skip(len as int) =~= Seq::<u8>::empty());
        }
    }

    /// Returns the accumulated digest.
    pub fn finish(&self) -> (r: u64)
        ensures
            r == self.state,
    {
        self.state
    }
}

/// Builder that seeds every hasher at zero.
pub struct MyHasherBuilder;

impl MyHasherBuilder {
    /// Returns a fresh hasher with a zero accumulator.
    pub fn build_hasher(&self) -> (r: MyHasher)
        ensures
            r.state == 0,
    {
        MyHasher { state: 0 }
    }
}

/// Computes the digest of a key in one call.
pub fn hash_key(key: &[u8]) -> (r: u64)
    ensures
        r == spec_hash(key@),
{
    let builder = MyHasherBuilder;
    let mut h = builder.build_hasher();
    h.write(key);
    h.finish()
}

} // verus!
