use vstd::prelude::*;

verus! {

/// Powers of 256.
pub open spec fn pow256(n: nat) -> int
    decreases n,
{
    if n == 0 {
        1
    } else {
        256 * pow256((n - 1) as nat)
    }
}

/// The little-endian value of a byte sequence.
pub open spec fn le_value(s: Seq<u8>) -> int
    decreases s.len(),
{
    if s.len() == 0 {
        0
    } else {
        s[0] + 256 * le_value(s.skip(1))
    }
}

/// The big-endian value of a byte sequence.
pub open spec fn be_value(s: Seq<u8>) -> int {
    le_value(s.reverse())
}

/// The `n` low bytes of `v`, least significant first.
pub open spec fn le_bytes(v: nat, n: nat) -> Seq<u8> {
    Seq::new(n, |i: int| ((v / (pow256(i as nat) as nat)) % 256) as u8)
}

/// The `n` low bytes of `v`, most significant first.
pub open spec fn be_bytes(v: nat, n: nat) -> Seq<u8> {
    le_bytes(v, n).reverse()
}

pub proof fn lemma_pow256_mono(a: nat, b: nat)
    requires
        a <= b,
    ensures
        1 <= pow256(a) <= pow256(b),
    decreases b,
{
    if a < b {
        lemma_pow256_mono(a, (b - 1) as nat);
    } else if a > 0 {
        lemma_pow256_mono((a - 1) as nat, (a - 1) as nat);
    }
}

/// The powers of 256 that bound the fixed-width integers.
pub proof fn lemma_pow256_values()
    ensures
        pow256(1) == 0x100,
        pow256(2) == 0x1_0000,
        pow256(4) == 0x1_0000_0000,
        pow256(7) == 0x100_0000_0000_0000,
        pow256(8) == 0x1_0000_0000_0000_0000,
{
    reveal_with_fuel(pow256, 9);
}

/// A sequence of `n` bytes has a little-endian value below `256^n`.
pub proof fn lemma_le_value_bound(s: Seq<u8>)
    ensures
        0 <= le_value(s) < pow256(s.len()),
        s.len() <= 7 ==> le_value(s) < 0x100_0000_0000_0000,
        s.len() <= 8 ==> le_value(s) < 0x1_0000_0000_0000_0000,
    decreases s.len(),
{
    if s.len() > 0 {
        lemma_le_value_bound(s.skip(1));
    }
    lemma_pow256_values();
    if s.len() <= 7 {
        lemma_pow256_mono(s.len(), 7);
    }
    if s.len() <= 8 {
        lemma_pow256_mono(s.len(), 8);
    }
}

/// Dropping the lowest byte of an encoding is encoding the value divided by 256.
proof fn lemma_le_bytes_step(v: nat, n: nat)
    requires
        n > 0,
    ensures
        le_bytes(v, n)[0] == (v % 256) as u8,
        le_bytes(v, n).skip(1) == le_bytes(v / 256, (n - 1) as nat),
{
    let s = le_bytes(v, n);
    let t = le_bytes(v / 256, (n - 1) as nat);
    assert(pow256(0) == 1);
    assert(v / 1nat == v) by (nonlinear_arith);
    assert forall|i: int| 0 <= i < n - 1 implies s.skip(1)[i] == t[i] by {
        lemma_pow256_mono(0, i as nat);
        vstd::arithmetic::div_mod::lemma_div_denominator(v as int, 256, pow256(i as nat));
        assert(pow256((i + 1) as nat) == 256 * pow256(i as nat));
    }
    assert(s.skip(1) =~= t);
}

/// Decoding the little-endian encoding of a value that fits gives the value back.
pub proof fn lemma_le_round_trip(v: nat, n: nat)
    requires
        v < pow256(n),
    ensures
        le_bytes(v, n).len() == n,
        le_value(le_bytes(v, n)) == v,
    decreases n,
{
    if n == 0 {
        assert(le_bytes(v, n) =~= Seq::<u8>::empty());
    } else {
        lemma_le_bytes_step(v, n);
        lemma_le_round_trip(v / 256, (n - 1) as nat);
    }
}

/// Decoding the big-endian encoding of a value that fits gives the value back.
pub proof fn lemma_be_round_trip(v: nat, n: nat)
    requires
        v < pow256(n),
    ensures
        be_bytes(v, n).len() == n,
        be_value(be_bytes(v, n)) == v,
{
    lemma_le_round_trip(v, n);
    assert(be_bytes(v, n).reverse() =~= le_bytes(v, n));
}

/// The value of `bytes` read least significant byte first.
pub fn decode_le(bytes: &[u8]) -> (r: u64)
    requires
        bytes@.len() <= 8,
    ensures
        r == le_value(bytes@),
{
    let n = bytes.len();
    let mut r: u64 = 0;
    let mut j: usize = n;
    while j > 0
        invariant
            j <= n,
            n == bytes@.len(),
            n <= 8,
            r == le_value(bytes@.subrange(j as int, n as int)),
        decreases j,
    {
        j = j - 1;
        proof {
            let s = bytes@.subrange(j as int, n as int);
            assert(s.skip(1) =~= bytes@.subrange(j + 1, n as int));
            lemma_le_value_bound(s.skip(1));
            lemma_le_value_bound(s);
        }
        r = r * 256 + bytes[j] as u64;
    }
    assert(bytes@.subrange(0, n as int) =~= bytes@);
    r
}

/// The value of `bytes` read most significant byte first.
pub fn decode_be(bytes: &[u8]) -> (r: u64)
    requires
        bytes@.len() <= 8,
    ensures
        r == be_value(bytes@),
{
    let n = bytes.len();
    let mut r: u64 = 0;
    let mut j: usize = 0;
    while j < n
        invariant
            j <= n,
            n == bytes@.len(),
            n <= 8,
            r == le_value(bytes@.subrange(0, j as int).reverse()),
        decreases n - j,
    {
        proof {
            let s = bytes@.subrange(0, j + 1).reverse();
            assert(s.skip(1) =~= bytes@.subrange(0, j as int).reverse());
            lemma_le_value_bound(s.skip(1));
            lemma_le_value_bound(s);
        }
        r = r * 256 + bytes[j] as u64;
        j = j + 1;
    }
    assert(bytes@.subrange(0, n as int) =~= bytes@);
    r
}

/// The `n` low bytes of `v`, least significant first.
pub fn encode_le(v: u64, n: usize) -> (r: Vec<u8>)
    requires
        n <= 8,
    ensures
        r@ == le_bytes(v as nat, n as nat),
{
    let mut r: Vec<u8> = Vec::new();
    let mut x: u64 = v;
    let mut i: usize = 0;
    assert(pow256(0) == 1);
    assert(v as nat / 1nat == v) by (nonlinear_arith);
    while i < n
        invariant
            i <= n,
            x == v as nat / (pow256(i as nat) as nat),
            r@ == le_bytes(v as nat, n as nat).take(i as int),
        decreases n - i,
    {
        proof {
            lemma_pow256_mono(0, i as nat);
            vstd::arithmetic::div_mod::lemma_div_denominator(v as int, pow256(i as nat), 256);
            assert(pow256((i + 1) as nat) == pow256(i as nat) * 256) by (nonlinear_arith)
                requires
                    pow256((i + 1) as nat) == 256 * pow256(i as nat),
            ;
        }
        r.push((x % 256) as u8);
        x = x / 256;
        assert(r@ =~= le_bytes(v as nat, n as nat).take(i + 1));
        i = i + 1;
    }
    assert(le_bytes(v as nat, n as nat).take(n as int) =~= le_bytes(v as nat, n as nat));
    r
}

/// The `n` low bytes of `v`, most significant first.
pub fn encode_be(v: u64, n: usize) -> (r: Vec<u8>)
    requires
        n <= 8,
    ensures
        r@ == be_bytes(v as nat, n as nat),
{
    let le = encode_le(v, n);
    let mut r: Vec<u8> = Vec::new();
    let mut i: usize = n;
    while i > 0
        invariant
            i <= n,
            le@ == le_bytes(v as nat, n as nat),
            le@.len() == n,
            r@ == le@.subrange(i as int, n as int).reverse(),
        decreases i,
    {
        i = i - 1;
        r.push(le[i]);
        assert(r@ =~= le@.subrange(i as int, n as int).reverse());
    }
    assert(le@.subrange(0, n as int) =~= le@);
    r
}

/// What a writer writes for a `u16`, `u32` or `u64` is read back as the same value,
/// in either byte order.
pub proof fn law_unsigned_round_trip(v16: u16, v32: u32, v64: u64)
    ensures
        le_value(le_bytes(v16 as nat, 2)) == v16,
        be_value(be_bytes(v16 as nat, 2)) == v16,
        le_value(le_bytes(v32 as nat, 4)) == v32,
        be_value(be_bytes(v32 as nat, 4)) == v32,
        le_value(le_bytes(v64 as nat, 8)) == v64,
        be_value(be_bytes(v64 as nat, 8)) == v64,
{
    lemma_pow256_values();
    lemma_le_round_trip(v16 as nat, 2);
    lemma_be_round_trip(v16 as nat, 2);
    lemma_le_round_trip(v32 as nat, 4);
    lemma_be_round_trip(v32 as nat, 4);
    lemma_le_round_trip(v64 as nat, 8);
    lemma_be_round_trip(v64 as nat, 8);
}

/// What a writer writes for an `i32` or `i64` (two's complement) is read back as the
/// same value, in either byte order.
pub proof fn law_signed_round_trip(v32: i32, v64: i64)
    ensures
        (le_value(le_bytes((v32 as u32) as nat, 4)) as u32) as i32 == v32,
        (be_value(be_bytes((v32 as u32) as nat, 4)) as u32) as i32 == v32,
        (le_value(le_bytes((v64 as u64) as nat, 8)) as u64) as i64 == v64,
        (be_value(be_bytes((v64 as u64) as nat, 8)) as u64) as i64 == v64,
{
    law_unsigned_round_trip(0, v32 as u32, v64 as u64);
    assert(((v32 as u32) as i32) == v32) by (bit_vector);
    assert(((v64 as u64) as i64) == v64) by (bit_vector);
}

} // verus!
