//! Power-of-two arithmetic underlying the buddy system: size classes,
//! rounding of requests, and alignment facts about multiples of powers
//! of two.

use vstd::prelude::*;

verus! {

use vstd::arithmetic::power2::pow2;
use vstd::arithmetic::power2::lemma_pow2_adds;
use vstd::arithmetic::power2::lemma_pow2_pos;
use vstd::arithmetic::power2::lemma_pow2_strictly_increases;
use vstd::arithmetic::power2::lemma2_to64;
use vstd::arithmetic::div_mod::lemma_fundamental_div_mod;
use vstd::arithmetic::div_mod::lemma_mod_multiples_basic;
use vstd::arithmetic::div_mod::lemma_add_mod_noop;
use vstd::arithmetic::mul::lemma_mul_is_associative;

/// Size in bytes of one machine word; range ends and allocation sizes are
/// rounded to this granularity.
pub const WORD_SIZE: usize = 8;

/// Number of size classes: class `c` holds free blocks of `2^c` bytes.
pub const CLASS_COUNT: usize = 32;

/// Size of a block of the largest class, `2^31` bytes.
pub const MAX_BLOCK_SIZE: usize = 0x8000_0000;

/// Base-2 logarithm, rounded down; `log2(n) == 0` for `n <= 1`.
pub open spec fn log2(n: int) -> nat
    decreases n,
{
    if n <= 1 {
        0
    } else {
        (1 + log2(n / 2)) as nat
    }
}

/// `n` is an exact power of two.
pub open spec fn is_power_of_two(n: int) -> bool {
    n >= 1 && pow2(log2(n)) == n
}

/// Smallest power of two `>= n` among `p`, `2p`, `4p`, ... for `p >= 1`.
pub open spec fn next_pow2_from(n: int, p: int) -> int
    decreases (if p >= n { 0int } else { n - p }) when 1 <= p
{
    if p >= n {
        p
    } else {
        next_pow2_from(n, 2 * p)
    }
}

/// Smallest power of two that is at least `max(n, 1)`.
pub open spec fn spec_next_pow2(n: int) -> int {
    next_pow2_from(n, 1)
}

/// `pow2(e + 1) == 2 * pow2(e)`.
pub proof fn lemma_pow2_succ(e: nat)
    ensures
        pow2(e + 1) == 2 * pow2(e),
{
    lemma_pow2_adds(e, 1);
    lemma2_to64();
}

/// Powers of two are monotone in the exponent.
pub proof fn lemma_pow2_le(e1: nat, e2: nat)
    requires
        e1 <= e2,
    ensures
        pow2(e1) <= pow2(e2),
{
    if e1 < e2 {
        lemma_pow2_strictly_increases(e1, e2);
    }
}

/// The logarithm inverts `pow2`.
pub proof fn lemma_log2_pow2(e: nat)
    ensures
        log2(pow2(e) as int) == e,
    decreases e,
{
    lemma_pow2_pos(e);
    if e == 0 {
        assert(pow2(0) == 1) by { lemma2_to64(); }
    } else {
        lemma_pow2_succ((e - 1) as nat);
        lemma_pow2_pos((e - 1) as nat);
        lemma_log2_pow2((e - 1) as nat);
        assert(pow2(e) as int / 2 == pow2((e - 1) as nat) as int);
    }
}

/// Every `pow2(e)` is a power of two in the sense of `is_power_of_two`.
pub proof fn lemma_pow2_is_power_of_two(e: nat)
    ensures
        is_power_of_two(pow2(e) as int),
{
    lemma_pow2_pos(e);
    lemma_log2_pow2(e);
}

/// Doubling preserves being a power of two and bumps the logarithm.
pub proof fn lemma_pow2_double(n: int)
    requires
        is_power_of_two(n),
    ensures
        is_power_of_two(2 * n),
        log2(2 * n) == log2(n) + 1,
{
    let k = log2(n);
    lemma_pow2_succ(k);
    lemma_log2_pow2(k + 1);
    lemma_pow2_pos(k + 1);
}

/// Halving an even power of two `>= 2` gives the next power of two down.
pub proof fn lemma_pow2_half(n: int)
    requires
        is_power_of_two(n),
        n >= 2,
    ensures
        n % 2 == 0,
        is_power_of_two(n / 2),
        log2(n / 2) == log2(n) - 1,
{
    let k = log2(n);
    if k == 0 {
        assert(pow2(0) == 1) by { lemma2_to64(); }
    }
    lemma_pow2_succ((k - 1) as nat);
    lemma_pow2_pos((k - 1) as nat);
    lemma_log2_pow2((k - 1) as nat);
}

/// A multiple of a larger power of two is a multiple of any smaller one.
pub proof fn lemma_aligned_weaken(x: int, e1: nat, e2: nat)
    requires
        e1 <= e2,
        x % (pow2(e2) as int) == 0,
    ensures
        x % (pow2(e1) as int) == 0,
{
    let m1 = pow2(e1) as int;
    let m2 = pow2(e2) as int;
    let d = pow2((e2 - e1) as nat) as int;
    lemma_pow2_pos(e1);
    lemma_pow2_pos(e2);
    lemma_pow2_pos((e2 - e1) as nat);
    lemma_pow2_adds(e1, (e2 - e1) as nat);
    lemma_fundamental_div_mod(x, m2);
    let q = x / m2;
    assert(x == (m1 * d) * q);
    lemma_mul_is_associative(m1, d, q);
    assert(x == (d * q) * m1) by {
        lemma_mul_is_associative(m1, d, q);
    }
    lemma_mod_multiples_basic(d * q, m1);
}

/// The sum of two multiples of `m` is a multiple of `m`.
pub proof fn lemma_aligned_add(x: int, y: int, m: int)
    requires
        m > 0,
        x % m == 0,
        y % m == 0,
    ensures
        (x + y) % m == 0,
{
    lemma_add_mod_noop(x, y, m);
    vstd::arithmetic::div_mod::lemma_small_mod(0nat, m as nat);
}

/// A multiple of `pow2(e)` is, modulo `pow2(e + 1)`, either `0` or `pow2(e)`.
pub proof fn lemma_mod_pow2_split(x: int, e: nat)
    requires
        x >= 0,
        x % (pow2(e) as int) == 0,
    ensures
        x % (pow2(e + 1) as int) == 0 || x % (pow2(e + 1) as int) == pow2(e) as int,
{
    let m = pow2(e) as int;
    lemma_pow2_pos(e);
    lemma_pow2_succ(e);
    let r = x % (2 * m);
    lemma_fundamental_div_mod(x, 2 * m);
    let q = x / (2 * m);
    assert(x == (2 * m) * q + r);
    assert(0 <= r < 2 * m);
    assert(((2 * m) * q) % m == 0) by {
        lemma_mul_is_associative(2, m, q);
        assert((2 * m) * q == (2 * q) * m) by {
            lemma_mul_is_associative(2, m, q);
            lemma_mul_is_associative(2, q, m);
        }
        lemma_mod_multiples_basic(2 * q, m);
    }
    assert(r % m == 0) by {
        vstd::arithmetic::div_mod::lemma_sub_mod_noop(x, (2 * m) * q, m);
        vstd::arithmetic::div_mod::lemma_small_mod(0nat, m as nat);
        assert(x - (2 * m) * q == r);
    }
    if r != 0 {
        lemma_fundamental_div_mod(r, m);
        let qr = r / m;
        assert(r == m * qr);
        assert(0 <= qr < 2) by {
            if qr >= 2 {
                assert(m * qr >= m * 2) by (nonlinear_arith)
                    requires m > 0 && qr >= 2;
            }
            if qr < 0 {
                assert(m * qr < 0) by (nonlinear_arith)
                    requires m > 0 && qr < 0;
            }
        }
        if qr == 0 {
            assert(r == m * 0) by (nonlinear_arith)
                requires r == m * qr && qr == 0;
        }
        assert(qr == 1);
        assert(r == m * 1) by (nonlinear_arith)
            requires r == m * qr && qr == 1;
        assert(r == m);
    }
    assert(pow2(e + 1) as int == 2 * m);
    assert(x % (pow2(e + 1) as int) == r);
}

/// Largest power of two that is at most `num`.
pub fn prev_power_of_two(num: usize) -> (r: usize)
    requires
        1 <= num,
    ensures
        is_power_of_two(r as int),
        r <= num,
        num < 2 * r,
{
    let mut p: usize = 1;
    proof {
        lemma2_to64();
        lemma_pow2_is_power_of_two(0);
    }
    while p <= num / 2
        invariant
            1 <= p <= num,
            is_power_of_two(p as int),
        decreases num - p,
    {
        proof {
            lemma_pow2_double(p as int);
        }
        p = p * 2;
    }
    p
}

/// Smallest power of two that is at least `max(num, 1)`.
pub fn next_power_of_two(num: usize) -> (r: usize)
    requires
        num <= MAX_BLOCK_SIZE,
    ensures
        r == spec_next_pow2(num as int),
        is_power_of_two(r as int),
        num <= r,
        r <= MAX_BLOCK_SIZE,
{
    let mut p: usize = 1;
    proof {
        lemma2_to64();
        lemma_pow2_is_power_of_two(0);
        assert(pow2(31) == 0x8000_0000) by { lemma2_to64(); vstd::arithmetic::power2::lemma2_to64_rest(); }
    }
    while p < num
        invariant
            1 <= p,
            p <= MAX_BLOCK_SIZE,
            num <= MAX_BLOCK_SIZE,
            is_power_of_two(p as int),
            next_pow2_from(num as int, p as int) == spec_next_pow2(num as int),
        decreases MAX_BLOCK_SIZE - p,
    {
        proof {
            lemma_pow2_double(p as int);
            // p < num <= MAX_BLOCK_SIZE and both p and the bound are powers
            // of two, so doubling p stays within the bound.
            let k = log2(p as int);
            assert(pow2(31) == 0x8000_0000) by { lemma2_to64(); }
            if k >= 31 {
                lemma_pow2_le(31, k);
            }
            assert(k < 31);
            lemma_pow2_succ(k);
            lemma_pow2_le(k + 1, 31);
            assert(next_pow2_from(num as int, p as int)
                == next_pow2_from(num as int, 2 * (p as int)));
        }
        p = p * 2;
    }
    p
}

/// Exact power of two as an executable value.
pub fn pow2_exec(e: usize) -> (r: usize)
    requires
        e <= 31,
    ensures
        r as nat == pow2(e as nat),
        r >= 1,
{
    let mut k: usize = 0;
    let mut p: usize = 1;
    proof {
        lemma2_to64();
    }
    while k < e
        invariant
            k <= e <= 31,
            p as nat == pow2(k as nat),
            p >= 1,
        decreases e - k,
    {
        proof {
            lemma_pow2_succ(k as nat);
            lemma_pow2_le((k + 1) as nat, 31);
            assert(pow2(31) == 0x8000_0000) by { lemma2_to64(); vstd::arithmetic::power2::lemma2_to64_rest(); }
        }
        p = p * 2;
        k = k + 1;
    }
    p
}

/// The size class of a power-of-two block size: its base-2 logarithm.
pub fn class_of(size: usize) -> (r: usize)
    requires
        is_power_of_two(size as int),
        size <= MAX_BLOCK_SIZE,
    ensures
        r == log2(size as int),
        pow2(r as nat) == size,
        r <= 31,
{
    proof {
        // The logarithm of a power of two below the largest block is a class.
        assert(log2(size as int) <= 31) by {
            assert(pow2(31) == 0x8000_0000) by { lemma2_to64(); }
            if log2(size as int) > 31 {
                lemma_pow2_strictly_increases(31, log2(size as int));
            }
        }
    }
    let mut c: usize = 0;
    let mut s = size;
    while s > 1
        invariant
            1 <= s <= size,
            is_power_of_two(s as int),
            log2(size as int) == c + log2(s as int),
            log2(size as int) <= 31,
        decreases s,
    {
        proof {
            lemma_pow2_half(s as int);
        }
        s = s / 2;
        c = c + 1;
    }
    c
}

} // verus!
