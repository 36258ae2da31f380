//! Power-of-two arithmetic shared by the memory map and the buddy allocator.

use vstd::prelude::*;

verus! {

use vstd::arithmetic::power2::{pow2, lemma_pow2_adds, lemma_pow2_pos, lemma_pow2_strictly_increases};
use vstd::arithmetic::div_mod::{lemma_fundamental_div_mod_converse, lemma_fundamental_div_mod};

/// `a` is a multiple of `2^e`.
pub open spec fn aligned_to_pow2(a: int, e: nat) -> bool {
    a % (pow2(e) as int) == 0
}

/// Computes `2^e` as a machine word.
pub fn pow2_usize(e: u8) -> (r: usize)
    requires
        pow2(e as nat) <= usize::MAX,
    ensures
        r == pow2(e as nat),
{
    let mut r: usize = 1;
    let mut i: u8 = 0;
    proof {
        vstd::arithmetic::power2::lemma2_to64();
    }
    while i < e
        invariant
            i <= e,
            r == pow2(i as nat),
            pow2(e as nat) <= usize::MAX,
        decreases e - i,
    {
        proof {
            lemma_pow2_adds(i as nat, 1);
            vstd::arithmetic::power2::lemma2_to64();
            if i as nat + 1 < e as nat {
                lemma_pow2_strictly_increases((i + 1) as nat, e as nat);
            }
        }
        r = r * 2;
        i = i + 1;
    }
    r
}

/// Largest `e` with `2^e <= n`.
pub fn log2_floor(n: usize) -> (r: u8)
    requires
        n >= 1,
        n < pow2(64),
    ensures
        pow2(r as nat) <= n < pow2((r + 1) as nat),
        r == spec_log2_floor(n as nat),
        r < 64,
{
    let mut e: u8 = 0;
    let mut p: usize = 1;
    proof {
        vstd::arithmetic::power2::lemma2_to64();
    }
    while p <= n / 2
        invariant
            1 <= n < pow2(64),
            p == pow2(e as nat),
            p <= n,
            e < 64,
        decreases n - p,
    {
        proof {
            lemma_pow2_pos(e as nat);
            lemma_pow2_adds(e as nat, 1);
            vstd::arithmetic::power2::lemma2_to64();
            assert(2 * p <= n);
            if e as nat + 1 >= 64 {
                if e as nat + 1 > 64 {
                    lemma_pow2_strictly_increases(64, (e + 1) as nat);
                }
                assert(pow2((e + 1) as nat) >= pow2(64));
                assert(false);
            }
        }
        p = p * 2;
        e = e + 1;
    }
    proof {
        lemma_pow2_adds(e as nat, 1);
        vstd::arithmetic::power2::lemma2_to64();
        lemma_log2_floor_unique(n as nat, e as nat);
    }
    e
}

/// Mathematical floor of the base-2 logarithm.
pub open spec fn spec_log2_floor(n: nat) -> nat
    decreases n,
{
    if n <= 1 {
        0
    } else {
        1 + spec_log2_floor(n / 2)
    }
}

/// The floor logarithm sits in its power-of-two sandwich.
pub proof fn lemma_log2_floor_bounds(n: nat)
    requires
        1 <= n,
    ensures
        pow2(spec_log2_floor(n)) <= n < pow2((spec_log2_floor(n) + 1) as nat),
    decreases n,
{
    vstd::arithmetic::power2::lemma2_to64();
    if n <= 1 {
    } else {
        lemma_log2_floor_bounds(n / 2);
        let l = spec_log2_floor(n / 2);
        lemma_pow2_adds(l, 1);
        lemma_pow2_adds((l + 1) as nat, 1);
    }
}

/// The power-of-two sandwich pins the floor logarithm down.
pub proof fn lemma_log2_floor_unique(n: nat, e: nat)
    requires
        1 <= n,
        pow2(e) <= n < pow2((e + 1) as nat),
    ensures
        e == spec_log2_floor(n),
    decreases e,
{
    vstd::arithmetic::power2::lemma2_to64();
    if e == 0 {
        assert(n == 1);
    } else {
        lemma_pow2_adds((e - 1) as nat, 1);
        lemma_pow2_adds(e as nat, 1);
        assert(pow2(e) == 2 * pow2((e - 1) as nat));
        assert(pow2((e + 1) as nat) == 2 * pow2(e));
        assert(pow2((e - 1) as nat) <= n / 2 < pow2(e)) by {
            assert(n >= 2 * pow2((e - 1) as nat));
            assert(n < 2 * pow2(e));
        };
        lemma_pow2_pos((e - 1) as nat);
        assert(n / 2 >= 1);
        lemma_log2_floor_unique(n / 2, (e - 1) as nat);
        assert(n >= 2);
        assert(spec_log2_floor(n) == 1 + spec_log2_floor(n / 2));
    }
}

/// Differences of multiples of `m` are multiples of `m`.
pub proof fn lemma_mod_diff_zero(a: int, b: int, m: int)
    requires
        m > 0,
        0 <= b <= a,
        a % m == 0,
        b % m == 0,
    ensures
        (a - b) % m == 0,
{
    lemma_fundamental_div_mod(a, m);
    lemma_fundamental_div_mod(b, m);
    let q1 = a / m;
    let q2 = b / m;
    assert(a == m * q1);
    assert(b == m * q2);
    assert(a - b == (q1 - q2) * m) by (nonlinear_arith)
        requires a == m * q1 && b == m * q2,
    ;
    lemma_fundamental_div_mod_converse(a - b, m, q1 - q2, 0);
}

/// A multiple of a larger power of two is a multiple of a smaller one.
pub proof fn lemma_aligned_weaken(a: int, e1: nat, e2: nat)
    requires
        aligned_to_pow2(a, e1),
        e2 <= e1,
        a >= 0,
    ensures
        aligned_to_pow2(a, e2),
{
    lemma_pow2_adds(e2, (e1 - e2) as nat);
    lemma_pow2_pos(e1);
    lemma_pow2_pos(e2);
    let q = a / (pow2(e1) as int);
    lemma_fundamental_div_mod(a, pow2(e1) as int);
    assert(a == q * pow2(e1));
    assert(q * (pow2(e2) * pow2((e1 - e2) as nat)) == (q * pow2((e1 - e2) as nat)) * pow2(e2))
        by (nonlinear_arith);
    lemma_fundamental_div_mod_converse(a, pow2(e2) as int, q * pow2((e1 - e2) as nat), 0);
}

/// Bit-level core of `lemma_buddy_xor`, phrased over masks.
proof fn lemma_buddy_xor_bits(a: u64, e: u64)
    by (bit_vector)
    requires
        e < 63,
        a & (((1u64 << e) - 1) as u64) == 0,
    ensures
        ((a ^ (1u64 << e)) & (((1u64 << e) - 1) as u64)) == 0,
        a ^ (1u64 << e) != a,
        (a ^ (1u64 << e)) ^ (1u64 << e) == a,
        a & (1u64 << e) == 0 ==> a ^ (1u64 << e) == a + (1u64 << e),
        a & (1u64 << e) != 0 ==> a == (a ^ (1u64 << e)) + (1u64 << e),
        a & (1u64 << e) == 0 ==> (a & (((1u64 << ((e + 1) as u64)) - 1) as u64)) == 0,
        a & (1u64 << e) != 0 ==> ((a ^ (1u64 << e)) & (((1u64 << ((e + 1) as u64)) - 1) as u64))
            == 0,
{
}

/// Equates the remainder by `2^e` with the low-bit mask of width `e`.
proof fn lemma_mask_is_mod(x: u64, e: nat)
    requires
        e < 64,
    ensures
        (x & (((1u64 << (e as u64)) - 1) as u64)) == x % (pow2(e) as u64),
{
    lemma_shl_pow2_u64(e as u64);
    vstd::bits::lemma_u64_pow2_no_overflow(e);
    vstd::bits::lemma_u64_low_bits_mask_is_mod(x, e);
    assert(vstd::bits::low_bits_mask(e) as u64 == ((1u64 << (e as u64)) - 1) as u64);
}

/// The buddy of an aligned block: flipping bit `e` of an address that is a
/// multiple of `2^e` either adds or subtracts `2^e`, the pair is symmetric,
/// and the lower of the two is aligned to `2^(e+1)`.
pub proof fn lemma_buddy_xor(a: u64, e: nat)
    requires
        e < 63,
        a % (pow2(e) as u64) == 0,
    ensures
        (a ^ (pow2(e) as u64)) % (pow2(e) as u64) == 0,
        a ^ (pow2(e) as u64) != a,
        (a ^ (pow2(e) as u64)) ^ (pow2(e) as u64) == a,
        (a ^ (pow2(e) as u64)) > a ==> a ^ (pow2(e) as u64) == a + pow2(e)
            && a % (pow2((e + 1) as nat) as u64) == 0,
        (a ^ (pow2(e) as u64)) < a ==> a == (a ^ (pow2(e) as u64)) + pow2(e)
            && (a ^ (pow2(e) as u64)) % (pow2((e + 1) as nat) as u64) == 0,
{
    lemma_shl_pow2_u64(e as u64);
    lemma_shl_pow2_u64((e + 1) as u64);
    vstd::bits::lemma_u64_pow2_no_overflow(e);
    vstd::bits::lemma_u64_pow2_no_overflow((e + 1) as nat);
    let m = (1u64 << (e as u64));
    let b = a ^ m;
    lemma_mask_is_mod(a, e);
    lemma_buddy_xor_bits(a, e as u64);
    lemma_mask_is_mod(b, e);
    lemma_mask_is_mod(a, (e + 1) as nat);
    lemma_mask_is_mod(b, (e + 1) as nat);
    if a & m == 0 {
        assert(b == a + m);
    } else {
        assert(a == b + m);
    }
}

/// Bridges the machine-word shift in `lemma_buddy_xor` to `pow2`.
pub proof fn lemma_shl_pow2_u64(e: u64)
    requires
        e < 64,
    ensures
        (1u64 << e) == pow2(e as nat),
{
    vstd::bits::lemma_u64_pow2_no_overflow(e as nat);
    vstd::bits::lemma_u64_shl_is_mul(1, e);
}

/// Splitting an aligned block in half leaves both halves aligned and makes
/// them buddies of each other at the lower order.
pub proof fn lemma_split_halves(a: int, e: nat)
    requires
        e >= 1,
        e < 64,
        a >= 0,
        aligned_to_pow2(a, e),
    ensures
        aligned_to_pow2(a, (e - 1) as nat),
        aligned_to_pow2(a + pow2((e - 1) as nat), (e - 1) as nat),
        pow2((e - 1) as nat) + pow2((e - 1) as nat) == pow2(e),
{
    lemma_aligned_weaken(a, e, (e - 1) as nat);
    lemma_pow2_pos((e - 1) as nat);
    let h = pow2((e - 1) as nat) as int;
    lemma_fundamental_div_mod(a, h);
    assert((a / h + 1) * h == (a / h) * h + h) by (nonlinear_arith);
    lemma_fundamental_div_mod_converse(a + h, h, a / h + 1, 0);
    lemma_pow2_adds((e - 1) as nat, 1);
    vstd::arithmetic::power2::lemma2_to64();
}

} // verus!
