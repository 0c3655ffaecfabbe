//! Keyed, counter-based deterministic hashing.
//!
//! Each decision hashes a seed with the keys that identify it, so changing
//! one decision leaves unrelated ones bit-identical:
//!
//! ```text
//! splitmix64_mix(z) = z ^= z >> 30; z *= 0xBF58476D1CE4E5B9;
//!                     z ^= z >> 27; z *= 0x94D049BB133111EB;
//!                     z ^ (z >> 31)                      (wrapping u64 arithmetic)
//! mix(h, k)         = splitmix64_mix(h ^ (k * 0x9E3779B97F4A7C15))
//! hash(seed, keys)  = keys.fold(seed, mix)
//! tag(name)         = FNV-1a 64 over the UTF-8 bytes of name
//! ```

use vstd::prelude::*;
use vstd::string::StringSliceAdditionalSpecFns;
use vstd::wrapping::u64_specs::{wrapping_add, wrapping_mul};

verus! {

/// The multiplier applied to each key before it is folded in.
pub open spec fn golden_gamma() -> u64 {
    0x9E37_79B9_7F4A_7C15
}

/// The FNV-1a 64-bit offset basis.
pub open spec fn fnv_offset_basis() -> u64 {
    0xcbf2_9ce4_8422_2325
}

/// The FNV-1a 64-bit prime.
pub open spec fn fnv_prime() -> u64 {
    0x0000_0100_0000_01b3
}

/// The SplitMix64 output finalizer, in wrapping `u64` arithmetic.
pub open spec fn finalized(z: u64) -> u64 {
    let a = wrapping_mul(z ^ (z >> 30u64), 0xBF58_476D_1CE4_E5B9u64);
    let b = wrapping_mul(a ^ (a >> 27u64), 0x94D0_49BB_1331_11EBu64);
    b ^ (b >> 31u64)
}

/// One key folded into a hash state.
pub open spec fn mixed(h: u64, k: u64) -> u64 {
    finalized(h ^ wrapping_mul(k, golden_gamma()))
}

/// `keys` folded from the left into `seed` with [`mixed`].
pub open spec fn folded(seed: u64, keys: Seq<u64>) -> u64
    decreases keys.len(),
{
    if keys.len() == 0 {
        seed
    } else {
        mixed(folded(seed, keys.drop_last()), keys.last())
    }
}

/// 64-bit FNV-1a over a byte sequence.
pub open spec fn fnv1a(bytes: Seq<u8>) -> u64
    decreases bytes.len(),
{
    if bytes.len() == 0 {
        fnv_offset_basis()
    } else {
        wrapping_mul(fnv1a(bytes.drop_last()) ^ (bytes.last() as u64), fnv_prime())
    }
}

/// The output finalizer of SplitMix64.
pub fn splitmix64_mix(z: u64) -> (r: u64)
    ensures
        r == finalized(z),
{
    let a = (z ^ (z >> 30u64)).wrapping_mul(0xBF58_476D_1CE4_E5B9u64);
    let b = (a ^ (a >> 27u64)).wrapping_mul(0x94D0_49BB_1331_11EBu64);
    b ^ (b >> 31u64)
}

/// Folds one key into a hash state.
pub fn mix(h: u64, k: u64) -> (r: u64)
    ensures
        r == mixed(h, k),
{
    splitmix64_mix(h ^ k.wrapping_mul(0x9E37_79B9_7F4A_7C15u64))
}

/// Folds `keys` left into `seed` with [`mix`].
pub fn hash(seed: u64, keys: &[u64]) -> (r: u64)
    ensures
        r == folded(seed, keys@),
{
    let mut h = seed;
    let mut i: usize = 0;
    while i < keys.len()
        invariant
            i <= keys.len(),
            h == folded(seed, keys@.take(i as int)),
        decreases keys.len() - i,
    {
        proof {
            assert(keys@.take(i as int + 1).drop_last() =~= keys@.take(i as int));
        }
        h = mix(h, keys[i]);
        i += 1;
    }
    proof {
        assert(keys@.take(keys@.len() as int) =~= keys@);
    }
    h
}

/// A purpose key from a name: 64-bit FNV-1a over its UTF-8 bytes.
pub fn tag(name: &str) -> (r: u64)
    ensures
        r == fnv1a(name.spec_bytes()),
{
    let bytes = name.as_bytes();
    let mut h: u64 = 0xcbf2_9ce4_8422_2325u64;
    let mut i: usize = 0;
    while i < bytes.len()
        invariant
            i <= bytes.len(),
            bytes@ == name.spec_bytes(),
            h == fnv1a(bytes@.take(i as int)),
        decreases bytes.len() - i,
    {
        proof {
            assert(bytes@.take(i as int + 1).drop_last() =~= bytes@.take(i as int));
        }
        h = h ^ (bytes[i] as u64);
        h = h.wrapping_mul(0x0000_0100_0000_01b3u64);
        i += 1;
    }
    proof {
        assert(bytes@.take(bytes@.len() as int) =~= bytes@);
    }
    h
}

/// A hash state that accumulates keys, then yields its bits.
///
/// `Key::new(seed).with(a).with(b)` equals `hash(seed, &[a, b])`.
#[derive(Copy, Clone, Debug, Eq, Hash, PartialEq, Structural)]
pub struct Key(u64);

impl View for Key {
    type V = u64;

    closed spec fn view(&self) -> u64 {
        self.0
    }
}

impl Key {
    /// Starts from a seed.
    pub fn new(seed: u64) -> (r: Self)
        ensures
            r@ == seed,
    {
        Key(seed)
    }

    /// Folds in one more key.
    pub fn with(self, key: u64) -> (r: Self)
        ensures
            r@ == mixed(self@, key),
    {
        Key(mix(self.0, key))
    }

    /// The raw 64-bit hash.
    pub fn bits(self) -> (r: u64)
        ensures
            r == self@,
    {
        self.0
    }
}

/// A sequential SplitMix64 stream: each draw advances the state by the
/// golden gamma and finalizes it.
#[derive(Copy, Clone, Debug, Eq, PartialEq, Structural)]
pub struct Stream(pub u64);

impl Stream {
    /// Draws the next value.
    pub fn next(&mut self) -> (r: u64)
        ensures
            final(self).0 == wrapping_add(old(self).0, golden_gamma()),
            r == finalized(final(self).0),
    {
        self.0 = self.0.wrapping_add(0x9E37_79B9_7F4A_7C15u64);
        splitmix64_mix(self.0)
    }
}

/// Hashing no keys gives back the seed.
pub proof fn lemma_hash_of_no_keys(seed: u64)
    ensures
        folded(seed, Seq::<u64>::empty()) == seed,
{
}

/// Hashing is a left fold: one more key is one more [`mixed`] step.
pub proof fn lemma_hash_one_more_key(seed: u64, keys: Seq<u64>, k: u64)
    ensures
        folded(seed, keys.push(k)) == mixed(folded(seed, keys), k),
{
    assert(keys.push(k).drop_last() =~= keys);
}

/// Hashing a concatenation continues from the hash of the prefix:
/// `hash(seed, a ++ b) == hash(hash(seed, a), b)`.
pub proof fn lemma_hash_concat(seed: u64, a: Seq<u64>, b: Seq<u64>)
    ensures
        folded(seed, a + b) == folded(folded(seed, a), b),
    decreases b.len(),
{
    if b.len() == 0 {
        assert(a + b =~= a);
    } else {
        lemma_hash_concat(seed, a, b.drop_last());
        assert((a + b).drop_last() =~= a + b.drop_last());
        assert((a + b).last() == b.last());
    }
}

/// The finalizer maps zero to zero.
pub proof fn lemma_finalized_zero()
    ensures
        finalized(0) == 0,
{
    assert(0u64 ^ (0u64 >> 30u64) == 0u64) by (bit_vector);
    assert(0u64 ^ (0u64 >> 27u64) == 0u64) by (bit_vector);
    assert(0u64 ^ (0u64 >> 31u64) == 0u64) by (bit_vector);
    assert(wrapping_mul(0, 0xBF58_476D_1CE4_E5B9u64) == 0);
    assert(wrapping_mul(0, 0x94D0_49BB_1331_11EBu64) == 0);
}

/// `mix(h, k)` is zero whenever `h` equals `k * 0x9E3779B97F4A7C15`
/// (wrapping); in particular `mix(0, 0) == 0`.
pub proof fn lemma_mix_zero_fixed_point(h: u64, k: u64)
    requires
        h == wrapping_mul(k, golden_gamma()),
    ensures
        mixed(h, k) == 0,
{
    let g = wrapping_mul(k, golden_gamma());
    assert(g ^ g == 0u64) by (bit_vector);
    lemma_finalized_zero();
}

} // verus!
