//! Deterministic fixture data: an integer hash of (index, salt) into one of
//! 2003 buckets, the same on every platform and device.

use vstd::prelude::*;

use vstd::arithmetic::div_mod::{lemma_mod_multiples_vanish, lemma_mul_mod_noop_left, lemma_small_mod};

verus! {

/// Number of buckets of the fixture hash.
pub const BUCKETS: u64 = 2003;

/// `2^64`.
pub open spec fn word() -> int {
    0x1_0000_0000_0000_0000int
}

/// Multiplication modulo `2^64`.
pub open spec fn wmul(x: u64, y: u64) -> u64 {
    ((x as nat * y as nat) % 0x1_0000_0000_0000_0000nat) as u64
}

/// The 64-bit state of the fixture hash before the remainder: SplitMix-style
/// mixing of the whole index with the salt.
pub open spec fn spec_mix(i: u64, salt: u64) -> u64 {
    let x0 = wmul(i, 0x9E37_79B9_7F4A_7C15u64) ^ wmul(salt, 0xD1B5_4A32_D192_ED03u64);
    let x1 = x0 ^ (x0 >> 30u64);
    let x2 = wmul(x1, 0xBF58_476D_1CE4_E5B9u64);
    x2 ^ (x2 >> 27u64)
}

/// The fixture hash: the mixed state modulo 2003.
pub open spec fn spec_gen_bucket(i: u64, salt: u64) -> u64 {
    spec_mix(i, salt) % 2003
}

/// Bucket of element `i` of the buffer with salt `salt`; the fixture value is
/// `bucket / 2003 - 0.5`, in `[-0.5, 0.5)`.
pub fn gen_bucket(i: usize, salt: usize) -> (r: u64)
    ensures
        r == spec_gen_bucket(i as u64, salt as u64),
        r == spec_mix(i as u64, salt as u64) % BUCKETS,
        r < BUCKETS,
{
    let mut x: u64 = (i as u64).wrapping_mul(0x9E37_79B9_7F4A_7C15u64) ^ (salt as u64).wrapping_mul(
        0xD1B5_4A32_D192_ED03u64,
    );
    x = x ^ (x >> 30u64);
    x = x.wrapping_mul(0xBF58_476D_1CE4_E5B9u64);
    x = x ^ (x >> 27u64);
    x % BUCKETS
}

/// Multiplying by `c` modulo `2^64` is undone by multiplying by `inv`, when
/// `c * inv` is 1 modulo `2^64`.
proof fn lemma_wmul_cancel(x: u64, c: u64, inv: u64, k: int)
    requires
        k >= 0,
        c as int * inv as int == 1 + k * word(),
    ensures
        wmul(wmul(x, c), inv) == x,
{
    let m = word();
    let p = x as int * c as int;
    lemma_mul_mod_noop_left(p, inv as int, m);
    assert(p * inv as int == m * (x as int * k) + x as int) by (nonlinear_arith)
        requires
            p == x as int * c as int,
            c as int * inv as int == 1 + k * m,
    ;
    lemma_mod_multiples_vanish(x as int * k, x as int, m);
    lemma_small_mod(x as nat, m as nat);
    assert(wmul(x, c) as int == p % m);
}

/// Multiplying by an odd constant modulo `2^64` loses nothing.
proof fn lemma_wmul_injective(a: u64, b: u64, c: u64, inv: u64, k: int)
    requires
        k >= 0,
        c as int * inv as int == 1 + k * word(),
        wmul(a, c) == wmul(b, c),
    ensures
        a == b,
{
    lemma_wmul_cancel(a, c, inv, k);
    lemma_wmul_cancel(b, c, inv, k);
}

proof fn lemma_xorshift30_injective(a: u64, b: u64)
    by (bit_vector)
    requires
        a ^ (a >> 30u64) == b ^ (b >> 30u64),
    ensures
        a == b,
{
}

proof fn lemma_xorshift27_injective(a: u64, b: u64)
    by (bit_vector)
    requires
        a ^ (a >> 27u64) == b ^ (b >> 27u64),
    ensures
        a == b,
{
}

proof fn lemma_xor_cancel(a: u64, b: u64, k: u64)
    by (bit_vector)
    requires
        a ^ k == b ^ k,
    ensures
        a == b,
{
}

proof fn lemma_xor_cancel_left(k: u64, a: u64, b: u64)
    by (bit_vector)
    requires
        k ^ a == k ^ b,
    ensures
        a == b,
{
}

/// The mixing loses no bit of the index nor of the salt: for one salt, two
/// different indices (anywhere in the 64-bit range) give different states,
/// and for one index, two different salts do.
pub proof fn law_mix_injective(i1: u64, i2: u64, s1: u64, s2: u64)
    requires
        i1 == i2 || s1 == s2,
        spec_mix(i1, s1) == spec_mix(i2, s2),
    ensures
        i1 == i2,
        s1 == s2,
{
    let a0 = wmul(i1, 0x9E37_79B9_7F4A_7C15u64) ^ wmul(s1, 0xD1B5_4A32_D192_ED03u64);
    let b0 = wmul(i2, 0x9E37_79B9_7F4A_7C15u64) ^ wmul(s2, 0xD1B5_4A32_D192_ED03u64);
    let a1 = a0 ^ (a0 >> 30u64);
    let b1 = b0 ^ (b0 >> 30u64);
    let a2 = wmul(a1, 0xBF58_476D_1CE4_E5B9u64);
    let b2 = wmul(b1, 0xBF58_476D_1CE4_E5B9u64);
    lemma_xorshift27_injective(a2, b2);
    lemma_wmul_injective(a1, b1, 0xBF58_476D_1CE4_E5B9u64, 0x96de1b173f119089u64, 0x70c3bca78f27f46cint);
    lemma_xorshift30_injective(a0, b0);
    if s1 == s2 {
        lemma_xor_cancel(wmul(i1, 0x9E37_79B9_7F4A_7C15u64), wmul(i2, 0x9E37_79B9_7F4A_7C15u64), wmul(s1, 0xD1B5_4A32_D192_ED03u64));
        lemma_wmul_injective(i1, i2, 0x9E37_79B9_7F4A_7C15u64, 0xf1de83e19937733du64, 0x957bbf35006ed677int);
    } else {
        lemma_xor_cancel_left(wmul(i1, 0x9E37_79B9_7F4A_7C15u64), wmul(s1, 0xD1B5_4A32_D192_ED03u64), wmul(s2, 0xD1B5_4A32_D192_ED03u64));
        lemma_wmul_injective(s1, s2, 0xD1B5_4A32_D192_ED03u64, 0x06106ccfa448e5abu64, 0x04f7b434678ed4e7int);
    }
}

} // verus!
