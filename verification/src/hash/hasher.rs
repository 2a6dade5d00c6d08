use crate::bytes::codec::{le_value, lemma_le_value_bound};
use vstd::prelude::*;

verus! {

/// The multiplier of the Fx hash on 64-bit targets.
pub const FX_SEED: u64 = 0x517cc1b727220a95;

/// The multiplier of the Fx hash on 32-bit targets.
pub const FX_SEED_32: u32 = 0x9e3779b9;

/// Rotates a 64-bit word left by five bits.
pub open spec fn rotl5(h: u64) -> u64 {
    (h << 5u64) | (h >> 59u64)
}

/// Rotates a 32-bit word left by five bits.
pub open spec fn rotl5_32(h: u32) -> u32 {
    (h << 5u32) | (h >> 27u32)
}

/// One Fx mixing step on a machine word: rotate, fold in the word, multiply
/// (wrapping). On 32-bit targets the state and the word are 32 bits wide.
pub open spec fn fx_mix(h: u64, w: u64) -> u64 {
    if usize::BITS == 32 {
        (rotl5_32(h as u32) ^ (w as u32)).wrapping_mul(FX_SEED_32) as u64
    } else {
        (rotl5(h) ^ w).wrapping_mul(FX_SEED)
    }
}

/// Feeding a 64-bit word: one step on 64-bit targets; on 32-bit targets its low half,
/// then its high half.
pub open spec fn fx_mix_u64(h: u64, w: u64) -> u64 {
    if usize::BITS == 32 {
        fx_mix(fx_mix(h, w), w >> 32u64)
    } else {
        fx_mix(h, w)
    }
}

/// The number of bytes in a machine word.
pub open spec fn word_bytes() -> nat {
    if usize::BITS == 32 {
        4
    } else {
        8
    }
}

/// The state after feeding `bytes` to an Fx hasher in state `h`: whole machine words
/// first (little-endian), then the remaining bytes one at a time.
pub open spec fn fx_write(h: u64, bytes: Seq<u8>) -> u64
    decreases bytes.len(),
{
    if bytes.len() >= word_bytes() {
        fx_write(fx_mix(h, le_value(bytes.take(word_bytes() as int)) as u64), bytes.skip(word_bytes() as int))
    } else if bytes.len() > 0 {
        fx_write(fx_mix(h, bytes[0] as u64), bytes.skip(1))
    } else {
        h
    }
}

/// Writing nothing leaves the state as it is, and a slice shorter than a machine word
/// is folded in one byte at a time, in order: writing it and then one more byte (still
/// short of a word) is one more mixing step, so each trailing byte changes the state as
/// `write_u8` would.
pub proof fn law_short_write_mixes_each_byte(h: u64, s: Seq<u8>, b: u8)
    requires
        s.len() + 1 < word_bytes(),
    ensures
        fx_write(h, Seq::<u8>::empty()) == h,
        fx_write(h, s.push(b)) == fx_mix(fx_write(h, s), b as u64),
        fx_write(h, seq![b]) == fx_mix(h, b as u64),
    decreases s.len(),
{
    assert(word_bytes() >= 4);
    let one = seq![b];
    assert(one.skip(1) =~= Seq::<u8>::empty());
    assert(one.len() == 1 && one[0] == b);
    assert(fx_write(fx_mix(h, b as u64), Seq::<u8>::empty()) == fx_mix(h, b as u64));
    assert(fx_write(h, one) == fx_write(fx_mix(h, b as u64), one.skip(1)));
    if s.len() == 0 {
        assert(s.push(b) =~= one);
        assert(fx_write(h, s) == h);
    } else {
        let t = s.push(b);
        assert(t[0] == s[0]);
        assert(t.skip(1) =~= s.skip(1).push(b));
        assert(fx_write(h, t) == fx_write(fx_mix(h, s[0] as u64), t.skip(1)));
        assert(fx_write(h, s) == fx_write(fx_mix(h, s[0] as u64), s.skip(1)));
        law_short_write_mixes_each_byte(fx_mix(h, s[0] as u64), s.skip(1), b);
    }
}

/// A non-empty slice shorter than a machine word folds in its first byte, then the rest.
pub proof fn law_short_write_starts_with_first_byte(h: u64, s: Seq<u8>)
    requires
        0 < s.len() < word_bytes(),
    ensures
        fx_write(h, s) == fx_write(fx_mix(h, s[0] as u64), s.skip(1)),
{
}

/// A fast, non-cryptographic hasher (the Fx hash): each machine word is folded in by a
/// rotate, an exclusive or and a wrapping multiplication.
pub struct FxHasher {
    hash: u64,
}

impl View for FxHasher {
    type V = u64;

    closed spec fn view(&self) -> u64 {
        self.hash
    }
}

impl FxHasher {
    /// Creates a hasher in the zero state.
    pub fn new() -> (h: Self)
        ensures
            h@ == 0,
    {
        FxHasher { hash: 0 }
    }

    /// Creates a hasher in the given state.
    pub fn with_state(hash: u64) -> (h: Self)
        ensures
            h@ == hash,
    {
        FxHasher { hash }
    }

    /// Returns the hash of everything written so far.
    pub fn finish(&self) -> (r: u64)
        ensures
            r == self@,
    {
        self.hash
    }

    fn mix(&mut self, w: u64)
        ensures
            final(self)@ == fx_mix(old(self)@, w),
    {
        if usize::BITS == 32 {
            let h = #[verifier::truncate] (self.hash as u32);
            let rotated = (h << 5u32) | (h >> 27u32);
            let folded = rotated ^ (#[verifier::truncate] (w as u32));
            self.hash = folded.wrapping_mul(FX_SEED_32) as u64;
        } else {
            let h = self.hash;
            let rotated = (h << 5u64) | (h >> 59u64);
            self.hash = (rotated ^ w).wrapping_mul(FX_SEED);
        }
    }

    /// Feeds a byte slice: whole little-endian machine words first, then single bytes.
    pub fn write(&mut self, bytes: &[u8])
        ensures
            final(self)@ == fx_write(old(self)@, bytes@),
    {
        let size: usize = if usize::BITS == 32 {
            4
        } else {
            8
        };
        assert(size == word_bytes());
        let mut i: usize = 0;
        let n = bytes.len();
        assert(bytes@.skip(0) =~= bytes@);
        while n - i >= size
            invariant
                i <= n,
                n == bytes@.len(),
                size == word_bytes(),
                fx_write(self@, bytes@.skip(i as int)) == fx_write(old(self)@, bytes@),
            decreases n - i,
        {
            let mut chunk: u64 = 0;
            let mut j: usize = size;
            while j > 0
                invariant
                    j <= size,
                    size <= 8,
                    i + size <= n,
                    n == bytes@.len(),
                    chunk == le_value(bytes@.subrange(i + j, i + size)),
                decreases j,
            {
                j = j - 1;
                proof {
                    let s = bytes@.subrange(i + j, i + size);
                    assert(s.skip(1) =~= bytes@.subrange(i + j + 1, i + size));
                    lemma_le_value_bound(s.skip(1));
                    lemma_le_value_bound(s);
                }
                chunk = chunk * 256 + bytes[i + j] as u64;
            }
            proof {
                let rest = bytes@.skip(i as int);
                assert(rest.take(size as int) =~= bytes@.subrange(i as int, i + size));
                assert(rest.skip(size as int) =~= bytes@.skip(i + size));
            }
            self.mix(chunk);
            i = i + size;
        }
        while i < n
            invariant
                i <= n,
                n - i < word_bytes(),
                n == bytes@.len(),
                fx_write(self@, bytes@.skip(i as int)) == fx_write(old(self)@, bytes@),
            decreases n - i,
        {
            proof {
                let rest = bytes@.skip(i as int);
                assert(rest.skip(1) =~= bytes@.skip(i + 1));
            }
            self.mix(bytes[i] as u64);
            i = i + 1;
        }
        assert(bytes@.skip(n as int) =~= Seq::<u8>::empty());
    }

    /// Feeds one byte.
    pub fn write_u8(&mut self, i: u8)
        ensures
            final(self)@ == fx_mix(old(self)@, i as u64),
    {
        self.mix(i as u64);
    }

    /// Feeds a 16-bit word.
    pub fn write_u16(&mut self, i: u16)
        ensures
            final(self)@ == fx_mix(old(self)@, i as u64),
    {
        self.mix(i as u64);
    }

    /// Feeds a 32-bit word.
    pub fn write_u32(&mut self, i: u32)
        ensures
            final(self)@ == fx_mix(old(self)@, i as u64),
    {
        self.mix(i as u64);
    }

    /// Feeds a 64-bit word: in one step on 64-bit targets, as two 32-bit halves (low
    /// first) on 32-bit targets.
    pub fn write_u64(&mut self, i: u64)
        ensures
            final(self)@ == fx_mix_u64(old(self)@, i),
    {
        if usize::BITS == 32 {
            self.mix(i);
            self.mix(i >> 32u64);
        } else {
            self.mix(i);
        }
    }

    /// Feeds a machine word.
    pub fn write_usize(&mut self, i: usize)
        ensures
            final(self)@ == fx_mix(old(self)@, i as u64),
    {
        self.mix(i as u64);
    }
}

impl Default for FxHasher {
    fn default() -> (h: Self)
        ensures
            h@ == 0,
    {
        FxHasher::new()
    }
}

/// Builds the hasher that a hash table feeds its keys to.
pub trait BuildHasher {
    /// The state of the hashers this builder makes.
    spec fn spec_initial(&self) -> u64;

    /// Makes a fresh hasher.
    fn build_hasher(&self) -> (h: FxHasher)
        ensures
            h@ == self.spec_initial(),
    ;
}

/// The builder of zero-state [`FxHasher`]s.
#[derive(Default, Clone, Copy, Debug)]
pub struct BuildFxHasher;

impl BuildHasher for BuildFxHasher {
    open spec fn spec_initial(&self) -> u64 {
        0
    }

    fn build_hasher(&self) -> (h: FxHasher) {
        FxHasher::new()
    }
}

/// A key of a hash table: it feeds a deterministic function of its value to a hasher,
/// and its equality is the equality of its value.
pub trait HashKey: View {
    /// The hasher state after feeding a key with value `k` to a hasher in state `h`.
    spec fn spec_hash(k: Self::V, h: u64) -> u64;

    /// Feeds the key to a hasher.
    fn hash(&self, state: &mut FxHasher)
        ensures
            final(state)@ == Self::spec_hash(self@, old(state)@),
    ;

    /// Tests two keys for equality.
    fn key_eq(&self, other: &Self) -> (r: bool)
        ensures
            r == (self@ == other@),
    ;
}

impl HashKey for u8 {
    open spec fn spec_hash(k: u8, h: u64) -> u64 {
        fx_mix(h, k as u64)
    }

    fn hash(&self, state: &mut FxHasher) {
        state.write_u8(*self);
    }

    fn key_eq(&self, other: &Self) -> (r: bool) {
        *self == *other
    }
}

impl HashKey for u16 {
    open spec fn spec_hash(k: u16, h: u64) -> u64 {
        fx_mix(h, k as u64)
    }

    fn hash(&self, state: &mut FxHasher) {
        state.write_u16(*self);
    }

    fn key_eq(&self, other: &Self) -> (r: bool) {
        *self == *other
    }
}

impl HashKey for u32 {
    open spec fn spec_hash(k: u32, h: u64) -> u64 {
        fx_mix(h, k as u64)
    }

    fn hash(&self, state: &mut FxHasher) {
        state.write_u32(*self);
    }

    fn key_eq(&self, other: &Self) -> (r: bool) {
        *self == *other
    }
}

impl HashKey for u64 {
    open spec fn spec_hash(k: u64, h: u64) -> u64 {
        fx_mix_u64(h, k)
    }

    fn hash(&self, state: &mut FxHasher) {
        state.write_u64(*self);
    }

    fn key_eq(&self, other: &Self) -> (r: bool) {
        *self == *other
    }
}

impl HashKey for usize {
    open spec fn spec_hash(k: usize, h: u64) -> u64 {
        fx_mix(h, k as u64)
    }

    fn hash(&self, state: &mut FxHasher) {
        state.write_usize(*self);
    }

    fn key_eq(&self, other: &Self) -> (r: bool) {
        *self == *other
    }
}

impl HashKey for i8 {
    open spec fn spec_hash(k: i8, h: u64) -> u64 {
        fx_mix(h, k as u8 as u64)
    }

    fn hash(&self, state: &mut FxHasher) {
        state.write_u8(*self as u8);
    }

    fn key_eq(&self, other: &Self) -> (r: bool) {
        *self == *other
    }
}

impl HashKey for i16 {
    open spec fn spec_hash(k: i16, h: u64) -> u64 {
        fx_mix(h, k as u16 as u64)
    }

    fn hash(&self, state: &mut FxHasher) {
        state.write_u16(*self as u16);
    }

    fn key_eq(&self, other: &Self) -> (r: bool) {
        *self == *other
    }
}

impl HashKey for i32 {
    open spec fn spec_hash(k: i32, h: u64) -> u64 {
        fx_mix(h, k as u32 as u64)
    }

    fn hash(&self, state: &mut FxHasher) {
        state.write_u32(*self as u32);
    }

    fn key_eq(&self, other: &Self) -> (r: bool) {
        *self == *other
    }
}

impl HashKey for i64 {
    open spec fn spec_hash(k: i64, h: u64) -> u64 {
        fx_mix_u64(h, k as u64)
    }

    fn hash(&self, state: &mut FxHasher) {
        state.write_u64(*self as u64);
    }

    fn key_eq(&self, other: &Self) -> (r: bool) {
        *self == *other
    }
}

impl HashKey for isize {
    open spec fn spec_hash(k: isize, h: u64) -> u64 {
        fx_mix(h, k as usize as u64)
    }

    fn hash(&self, state: &mut FxHasher) {
        state.write_usize(*self as usize);
    }

    fn key_eq(&self, other: &Self) -> (r: bool) {
        *self == *other
    }
}

impl HashKey for bool {
    open spec fn spec_hash(k: bool, h: u64) -> u64 {
        fx_mix(h, if k { 1u64 } else { 0u64 })
    }

    fn hash(&self, state: &mut FxHasher) {
        state.write_u8(if *self { 1u8 } else { 0u8 });
    }

    fn key_eq(&self, other: &Self) -> (r: bool) {
        *self == *other
    }
}

impl HashKey for char {
    open spec fn spec_hash(k: char, h: u64) -> u64 {
        fx_mix(h, k as u32 as u64)
    }

    fn hash(&self, state: &mut FxHasher) {
        state.write_u32(*self as u32);
    }

    fn key_eq(&self, other: &Self) -> (r: bool) {
        *self == *other
    }
}

/// Whether two byte slices hold the same bytes.
pub fn bytes_eq(a: &[u8], b: &[u8]) -> (r: bool)
    ensures
        r == (a@ == b@),
{
    if a.len() != b.len() {
        return false;
    }
    let mut i: usize = 0;
    while i < a.len()
        invariant
            i <= a@.len(),
            a@.len() == b@.len(),
            forall|k: int| 0 <= k < i ==> a@[k] == b@[k],
        decreases a@.len() - i,
    {
        if a[i] != b[i] {
            return false;
        }
        i = i + 1;
    }
    assert(a@ =~= b@);
    true
}

impl<'a> HashKey for &'a str {
    open spec fn spec_hash(k: Seq<char>, h: u64) -> u64 {
        fx_mix(fx_write(h, vstd::utf8::encode_utf8(k)), 0xff)
    }

    fn hash(&self, state: &mut FxHasher) {
        state.write(self.as_bytes());
        state.write_u8(0xff);
    }

    fn key_eq(&self, other: &Self) -> (r: bool) {
        proof {
            vstd::utf8::encode_utf8_decode_utf8(self@);
            vstd::utf8::encode_utf8_decode_utf8(other@);
        }
        bytes_eq(self.as_bytes(), other.as_bytes())
    }
}

impl HashKey for String {
    open spec fn spec_hash(k: Seq<char>, h: u64) -> u64 {
        fx_mix(fx_write(h, vstd::utf8::encode_utf8(k)), 0xff)
    }

    fn hash(&self, state: &mut FxHasher) {
        let s: &str = self.as_str();
        state.write(s.as_bytes());
        state.write_u8(0xff);
    }

    fn key_eq(&self, other: &Self) -> (r: bool) {
        let a: &str = self.as_str();
        let b: &str = other.as_str();
        proof {
            vstd::utf8::encode_utf8_decode_utf8(a@);
            vstd::utf8::encode_utf8_decode_utf8(b@);
        }
        bytes_eq(a.as_bytes(), b.as_bytes())
    }
}

} // verus!
