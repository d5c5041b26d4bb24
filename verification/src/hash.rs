//! A fast, deterministic hasher for the shell's own byte-string keys
//! (variable, alias and function names, path components): a rotate, xor
//! and multiply mixer over 8-byte words and a splitmix64 finalizer.

use vstd::prelude::*;

verus! {

/// The multiplier of the mixer, a high-entropy odd constant.
pub const MUL: u64 = 0x517c_c1b7_2722_0a95;

/// The state every hasher starts from.
pub const SEED: u64 = 0x2432_f6a8_8848_5a30;

/// `x` rotated left by 5 bits.
pub open spec fn spec_rotl5(x: u64) -> u64 {
    (x << 5u64) | (x >> 59u64)
}

/// The state after mixing `word` into `state`.
pub open spec fn spec_mix(state: u64, word: u64) -> u64 {
    spec_rotl5(state) ^ vstd::wrapping::u64_specs::wrapping_mul(word, MUL)
}

/// The little-endian value of the bytes `b[i..i+n]`, `n` at most 8.
pub open spec fn spec_le(b: Seq<u8>, i: int, n: int) -> u64
    decreases n,
{
    if n <= 0 {
        0
    } else {
        (spec_le(b, i, n - 1) | ((b[i + n - 1] as u64) << ((8 * (n - 1)) as u64))) as u64
    }
}

/// The word that 1 to 7 trailing bytes are folded into: for four or
/// more, the first and last four bytes (overlapping); for fewer, the
/// first, middle and last byte.
pub open spec fn spec_short_tail(b: Seq<u8>) -> u64 {
    let len = b.len() as int;
    if len >= 4 {
        spec_le(b, 0, 4) | ((spec_le(b, len - 4, 4) << ((8 * (len - 4)) as u64)) as u64)
    } else {
        (b[0] as u64) | ((b[len / 2] as u64) << 8u64) | ((b[len - 1] as u64) << 16u64)
    }
}

/// The state after writing the bytes `b[i..]`: each whole 8-byte word
/// mixed in order, then the tail if any.
pub open spec fn spec_write_state(state: u64, b: Seq<u8>, i: int) -> u64
    decreases b.len() - i,
{
    if i < 0 || i >= b.len() {
        state
    } else if b.len() - i >= 8 {
        spec_write_state(spec_mix(state, spec_le(b, i, 8)), b, i + 8)
    } else {
        spec_mix(state, spec_short_tail(b.subrange(i, b.len() as int)))
    }
}

/// The first multiplier of the finalizer.
pub const FIN_MUL1: u64 = 0xbf58_476d_1ce4_e5b9;

/// The second multiplier of the finalizer.
pub const FIN_MUL2: u64 = 0x94d0_49bb_1331_11eb;

/// The splitmix64 finalizer over the state with the length folded in.
pub open spec fn spec_finish(state: u64, length: u64) -> u64 {
    let h0 = state ^ length;
    let h1 = vstd::wrapping::u64_specs::wrapping_mul(h0 ^ (h0 >> 30u64), FIN_MUL1);
    let h2 = vstd::wrapping::u64_specs::wrapping_mul(h1 ^ (h1 >> 27u64), FIN_MUL2);
    h2 ^ (h2 >> 31u64)
}

/// A hasher for short byte strings: the running state and the number of
/// bytes written, which `finish` folds in so that trailing zero bytes
/// still change the hash.
#[derive(Clone, Copy, Debug)]
pub struct ShellHasher {
    pub state: u64,
    pub length: u64,
}

/// `x` rotated left by 5 bits.
pub fn rotl5(x: u64) -> (r: u64)
    ensures
        r == spec_rotl5(x),
{
    (x << 5u64) | (x >> 59u64)
}

/// The little-endian value of `b[i..i+n]`.
pub fn read_le(b: &[u8], i: usize, n: usize) -> (r: u64)
    requires
        n <= 8,
        i + n <= b@.len(),
    ensures
        r == spec_le(b@, i as int, n as int),
{
    let mut r: u64 = 0;
    let mut k: usize = 0;
    let blen = b.len();
    while k < n
        invariant
            k <= n <= 8,
            i + n <= blen,
            blen == b@.len(),
            r == spec_le(b@, i as int, k as int),
        decreases n - k,
    {
        let shift: u64 = (8 * k) as u64;
        r = r | ((b[i + k] as u64) << shift);
        k += 1;
    }
    r
}

/// The word that 1 to 7 trailing bytes are folded into.
pub fn read_short_tail(bytes: &[u8]) -> (r: u64)
    requires
        1 <= bytes@.len() < 8,
    ensures
        r == spec_short_tail(bytes@),
{
    let len = bytes.len();
    if len >= 4 {
        let lo = read_le(bytes, 0, 4);
        let hi = read_le(bytes, len - 4, 4);
        let shift: u64 = ((len - 4) * 8) as u64;
        lo | (hi << shift)
    } else {
        let b0 = bytes[0] as u64;
        let bmid = bytes[len / 2] as u64;
        let blast = bytes[len - 1] as u64;
        b0 | (bmid << 8u64) | (blast << 16u64)
    }
}

impl ShellHasher {
    /// A hasher in its initial state.
    pub fn new() -> (h: Self)
        ensures
            h.state == SEED,
            h.length == 0,
    {
        ShellHasher { state: SEED, length: 0 }
    }

    /// Mixes one word into the state.
    pub fn mix(&mut self, word: u64)
        ensures
            final(self).state == spec_mix(old(self).state, word),
            final(self).length == old(self).length,
    {
        self.state = rotl5(self.state) ^ word.wrapping_mul(MUL);
    }

    /// Feeds bytes to the hasher.
    pub fn write_bytes(&mut self, bytes: &[u8])
        ensures
            final(self).state == spec_write_state(old(self).state, bytes@, 0),
            final(self).length == vstd::wrapping::u64_specs::wrapping_add(old(self).length, bytes@.len() as u64),
    {
        self.length = self.length.wrapping_add(bytes.len() as u64);
        let mut i: usize = 0;
        while bytes.len() - i >= 8
            invariant
                i <= bytes@.len(),
                spec_write_state(old(self).state, bytes@, 0) == spec_write_state(self.state, bytes@, i as int),
                self.length == vstd::wrapping::u64_specs::wrapping_add(old(self).length, bytes@.len() as u64),
            decreases bytes@.len() - i,
        {
            let word = read_le(bytes, i, 8);
            self.mix(word);
            i += 8;
        }
        if i < bytes.len() {
            let tail = vstd::slice::slice_subrange(bytes, i, bytes.len());
            let t = read_short_tail(tail);
            self.mix(t);
        }
    }

    /// The hash of everything written so far.
    pub fn finish_hash(&self) -> (r: u64)
        ensures
            r == spec_finish(self.state, self.length),
    {
        let mut h = self.state ^ self.length;
        h = (h ^ (h >> 30u64)).wrapping_mul(FIN_MUL1);
        h = (h ^ (h >> 27u64)).wrapping_mul(FIN_MUL2);
        h ^ (h >> 31u64)
    }

    /// Feeds a 32-bit integer as one word.
    pub fn write_u32_word(&mut self, n: u32)
        ensures
            final(self).state == spec_mix(old(self).state, n as u64),
            final(self).length == old(self).length,
    {
        self.mix(n as u64);
    }

    /// Feeds a 64-bit integer as one word.
    pub fn write_u64_word(&mut self, n: u64)
        ensures
            final(self).state == spec_mix(old(self).state, n),
            final(self).length == old(self).length,
    {
        self.mix(n);
    }
}

impl Default for ShellHasher {
    fn default() -> (h: Self)
        ensures
            h.state == SEED,
            h.length == 0,
    {
        ShellHasher::new()
    }
}

impl std::hash::Hasher for ShellHasher {
    fn write(&mut self, bytes: &[u8])
        ensures
            final(self).state == spec_write_state(old(self).state, bytes@, 0),
            final(self).length == vstd::wrapping::u64_specs::wrapping_add(old(self).length, bytes@.len() as u64),
    {
        self.write_bytes(bytes);
    }

    fn finish(&self) -> (r: u64)
        ensures
            r == spec_finish(self.state, self.length),
    {
        self.finish_hash()
    }

    fn write_u32(&mut self, n: u32)
        ensures
            final(self).state == spec_mix(old(self).state, n as u64),
            final(self).length == old(self).length,
    {
        self.write_u32_word(n);
    }

    fn write_u64(&mut self, n: u64)
        ensures
            final(self).state == spec_mix(old(self).state, n),
            final(self).length == old(self).length,
    {
        self.write_u64_word(n);
    }

    fn write_usize(&mut self, n: usize)
        ensures
            final(self).state == spec_mix(old(self).state, n as u64),
            final(self).length == old(self).length,
    {
        self.write_u64_word(n as u64);
    }
}

/// Builds `ShellHasher`s in their initial state.
pub type ShellBuildHasher = std::hash::BuildHasherDefault<ShellHasher>;

/// A hash map keyed by the shell's own byte strings.
pub type ShellMap<K, V> = std::collections::HashMap<K, V, ShellBuildHasher>;

/// A hash set of the shell's own byte strings.
pub type ShellSet<K> = std::collections::HashSet<K, ShellBuildHasher>;

// ---------------------------------------------------------------------
// The finalizer keeps inputs apart
// ---------------------------------------------------------------------

proof fn lemma_mul1_injective(x: u64, y: u64)
    ensures
        x != y ==> vstd::wrapping::u64_specs::wrapping_mul(x, FIN_MUL1) != vstd::wrapping::u64_specs::wrapping_mul(y, FIN_MUL1),
{
    assert(((((x * 0xbf58_476d_1ce4_e5b9u64) % 0x1_0000_0000_0000_0000) as u64) * 0x96de_1b17_3f11_9089u64)
        % 0x1_0000_0000_0000_0000 == x) by (bit_vector);
    assert(((((y * 0xbf58_476d_1ce4_e5b9u64) % 0x1_0000_0000_0000_0000) as u64) * 0x96de_1b17_3f11_9089u64)
        % 0x1_0000_0000_0000_0000 == y) by (bit_vector);
}

proof fn lemma_mul2_injective(x: u64, y: u64)
    ensures
        x != y ==> vstd::wrapping::u64_specs::wrapping_mul(x, FIN_MUL2) != vstd::wrapping::u64_specs::wrapping_mul(y, FIN_MUL2),
{
    assert(((((x * 0x94d0_49bb_1331_11ebu64) % 0x1_0000_0000_0000_0000) as u64) * 0x3196_42b2_d24d_8ec3u64)
        % 0x1_0000_0000_0000_0000 == x) by (bit_vector);
    assert(((((y * 0x94d0_49bb_1331_11ebu64) % 0x1_0000_0000_0000_0000) as u64) * 0x3196_42b2_d24d_8ec3u64)
        % 0x1_0000_0000_0000_0000 == y) by (bit_vector);
}

proof fn lemma_xorshifts_injective(x: u64, y: u64)
    ensures
        x != y ==> (x ^ (x >> 30u64)) != (y ^ (y >> 30u64)),
        x != y ==> (x ^ (x >> 27u64)) != (y ^ (y >> 27u64)),
        x != y ==> (x ^ (x >> 31u64)) != (y ^ (y >> 31u64)),
{
    assert(x != y ==> (x ^ (x >> 30u64)) != (y ^ (y >> 30u64))) by (bit_vector);
    assert(x != y ==> (x ^ (x >> 27u64)) != (y ^ (y >> 27u64))) by (bit_vector);
    assert(x != y ==> (x ^ (x >> 31u64)) != (y ^ (y >> 31u64))) by (bit_vector);
}

/// The finalizer keeps distinct lengths apart: two hashers in the same
/// state that were fed different numbers of bytes (`PATH` and `PATH\0`)
/// finish with different hashes.
pub proof fn law_length_keeps_hashes_apart(state: u64, l1: u64, l2: u64)
    requires
        l1 != l2,
    ensures
        spec_finish(state, l1) != spec_finish(state, l2),
{
    let a0 = state ^ l1;
    let b0 = state ^ l2;
    assert(a0 != b0) by (bit_vector)
        requires
            l1 != l2,
            a0 == state ^ l1,
            b0 == state ^ l2,
    ;
    lemma_xorshifts_injective(a0, b0);
    let a1 = vstd::wrapping::u64_specs::wrapping_mul(a0 ^ (a0 >> 30u64), FIN_MUL1);
    let b1 = vstd::wrapping::u64_specs::wrapping_mul(b0 ^ (b0 >> 30u64), FIN_MUL1);
    lemma_mul1_injective(a0 ^ (a0 >> 30u64), b0 ^ (b0 >> 30u64));
    lemma_xorshifts_injective(a1, b1);
    let a2 = vstd::wrapping::u64_specs::wrapping_mul(a1 ^ (a1 >> 27u64), FIN_MUL2);
    let b2 = vstd::wrapping::u64_specs::wrapping_mul(b1 ^ (b1 >> 27u64), FIN_MUL2);
    lemma_mul2_injective(a1 ^ (a1 >> 27u64), b1 ^ (b1 >> 27u64));
    lemma_xorshifts_injective(a2, b2);
}

} // verus!
