//! How long the generator draws without coming back to where it began.
//!
//! A step of the generator is linear over the field of two elements. So the
//! states that follow a seed are what polynomials in the step make of it, and
//! where 65 states in a row depend on each other, polynomials below degree 64
//! are enough: a polynomial stands here as its 64 coefficients, the constant one
//! in the lowest bit. Squaring such polynomials leaps far ahead, which shows
//! where the generator stands after 2^64 draws.

use vstd::arithmetic::power2::{lemma2_to64, lemma2_to64_rest, lemma_pow2_unfold, pow2};
use vstd::prelude::*;

use crate::classifier::{law_generator_never_reaches_zero, nth_draw, xorshift};

verus! {

/// The seed of the content of a benchmark.
pub const BENCH_SEED: u64 = 0x9e37_79b9_7f4a_7c15;

/// The polynomial of which the 64th step from the seed is the value.
pub const RELATION: u64 = 0x013e_d4a3_5891_3201;

/// The first `n` coefficients of a polynomial in the step, applied to a state.
pub open spec fn applied(c: u64, state: u64, n: int) -> u64
    decreases n,
{
    if n <= 0 {
        0
    } else {
        xorshift(applied(c >> 1, state, n - 1)) ^ if c & 1 == 1 {
            state
        } else {
            0
        }
    }
}

/// A polynomial times the step, with the 64th power replaced by its equal.
pub open spec fn stepped(c: u64) -> u64 {
    (c << 1) ^ if c >> 63 == 1 {
        RELATION
    } else {
        0
    }
}

/// The product of the first `n` coefficients of a polynomial and another one.
pub open spec fn product(c: u64, d: u64, n: int) -> u64
    decreases n,
{
    if n <= 0 {
        0
    } else {
        stepped(product(c >> 1, d, n - 1)) ^ if c & 1 == 1 {
            d
        } else {
            0
        }
    }
}

/// The polynomial of the step squared `k` times.
pub open spec fn squared(k: int) -> u64
    decreases k,
{
    if k <= 0 {
        2
    } else {
        let c = squared(k - 1);
        product(c, c, 64)
    }
}

proof fn lemma_linear(a: u64, b: u64)
    ensures
        xorshift(a ^ b) == xorshift(a) ^ xorshift(b),
        xorshift(0) == 0,
        a ^ 0 == a,
        a ^ a == 0,
        a ^ b == b ^ a,
        a != b ==> a ^ b != 0,
{
    assert(xorshift(a ^ b) == xorshift(a) ^ xorshift(b)) by (bit_vector);
    assert(xorshift(0) == 0) by (bit_vector);
    assert(a ^ 0 == a && a ^ a == 0 && a ^ b == b ^ a && (a != b ==> a ^ b != 0)) by (bit_vector);
}

/// Different states are followed by different states.
pub proof fn law_generator_is_injective(a: u64, b: u64)
    requires
        a != b,
    ensures
        xorshift(a) != xorshift(b),
{
    lemma_linear(a, b);
    law_generator_never_reaches_zero(a ^ b);
    lemma_linear(xorshift(a), xorshift(b));
}

/// Different states stay different, however long they go on.
proof fn lemma_draws_injective(a: u64, b: u64, n: int)
    requires
        a != b,
    ensures
        nth_draw(a, n) != nth_draw(b, n),
    decreases n,
{
    if n > 0 {
        lemma_draws_injective(a, b, n - 1);
        law_generator_is_injective(nth_draw(a, n - 1), nth_draw(b, n - 1));
    }
}

/// Some draws and then some more are as many together.
proof fn lemma_draws_add(state: u64, m: int, n: int)
    requires
        0 <= m,
        0 <= n,
    ensures
        nth_draw(nth_draw(state, m), n) == nth_draw(state, m + n),
    decreases n,
{
    if n > 0 {
        lemma_draws_add(state, m, n - 1);
    }
}

proof fn lemma_bits(a: u64, b: u64)
    ensures
        (a ^ b) >> 1 == (a >> 1) ^ (b >> 1),
        (a ^ b) & 1 == 1 <==> (a & 1 == 1) != (b & 1 == 1),
{
    assert((a ^ b) >> 1 == (a >> 1) ^ (b >> 1)) by (bit_vector);
    assert((a ^ b) & 1 == 1 <==> (a & 1 == 1) != (b & 1 == 1)) by (bit_vector);
}

/// Pairs can be exchanged in a sum of four.
proof fn lemma_sum_of_four(a: u64, b: u64, c: u64, d: u64)
    ensures
        (a ^ b) ^ (c ^ d) == (a ^ c) ^ (b ^ d),
{
    assert((a ^ b) ^ (c ^ d) == (a ^ c) ^ (b ^ d)) by (bit_vector);
}

/// The sum of two polynomials is applied as the two.
proof fn lemma_applied_sum(c: u64, d: u64, state: u64, n: int)
    ensures
        applied(c ^ d, state, n) == applied(c, state, n) ^ applied(d, state, n),
    decreases n,
{
    if n <= 0 {
        lemma_linear(0, 0);
    } else {
        lemma_applied_sum(c >> 1, d >> 1, state, n - 1);
        lemma_bits(c, d);
        let x = applied(c >> 1, state, n - 1);
        let y = applied(d >> 1, state, n - 1);
        let e = if c & 1 == 1 {
            state
        } else {
            0u64
        };
        let f = if d & 1 == 1 {
            state
        } else {
            0u64
        };
        lemma_linear(x, y);
        lemma_linear(e, f);
        lemma_linear(state, 0);
        lemma_linear(0, 0);
        lemma_sum_of_four(xorshift(x), xorshift(y), e, f);
    }
}

/// A polynomial commutes with the step.
proof fn lemma_applied_commutes(c: u64, state: u64, n: int)
    ensures
        applied(c, xorshift(state), n) == xorshift(applied(c, state, n)),
    decreases n,
{
    lemma_linear(0, 0);
    if n > 0 {
        lemma_applied_commutes(c >> 1, state, n - 1);
        lemma_linear(
            xorshift(applied(c >> 1, state, n - 1)),
            if c & 1 == 1 {
                state
            } else {
                0
            },
        );
    }
}

/// A polynomial commutes with any number of draws.
proof fn lemma_applied_commutes_with_draws(c: u64, state: u64, m: int)
    ensures
        applied(c, nth_draw(state, m), 64) == nth_draw(applied(c, state, 64), m),
    decreases m,
{
    if m > 0 {
        lemma_applied_commutes_with_draws(c, state, m - 1);
        lemma_applied_commutes(c, nth_draw(state, m - 1), 64);
    }
}

/// Coefficients of zero do not count.
proof fn lemma_applied_short(c: u64, state: u64, n: u64)
    requires
        n < 64,
        c >> n == 0,
    ensures
        applied(c, state, n + 1) == applied(c, state, n as int),
    decreases n,
{
    lemma_linear(0, 0);
    if n == 0 {
        assert(c >> 0 == c && 0u64 >> 1 == 0 && 0u64 & 1 == 0) by (bit_vector);
        assert(applied(0, state, 0) == 0);
    } else {
        let m = (n - 1) as u64;
        assert((c >> 1) >> m == 0) by (bit_vector)
            requires
                c >> n == 0,
                n < 64,
                0 < n,
                m == n - 1,
        ;
        lemma_applied_short(c >> 1, state, m);
    }
}

/// A polynomial times the step is applied as the one after the other.
proof fn lemma_applied_step(c: u64)
    ensures
        applied(stepped(c), BENCH_SEED, 64) == xorshift(applied(c, BENCH_SEED, 64)),
{
    let s = BENCH_SEED;
    let low = c & 0x7fff_ffff_ffff_ffff;
    let high = c & 0x8000_0000_0000_0000;
    assert(c == low ^ high && low >> 63 == 0 && (c << 1) >> 1 == low && (c << 1) & 1 == 0
        && high == if c >> 63 == 1 {
        0x8000_0000_0000_0000
    } else {
        0u64
    }) by (bit_vector)
        requires
            low == c & 0x7fff_ffff_ffff_ffff,
            high == c & 0x8000_0000_0000_0000,
    ;
    lemma_applied_sum(low, high, s, 64);
    lemma_applied_short(low, s, 63);
    lemma_linear(applied(low, s, 64), applied(high, s, 64));
    lemma_linear(xorshift(applied(low, s, 63)), 0);
    assert(applied(c << 1, s, 64) == xorshift(applied(low, s, 63)));
    assert(xorshift(applied(0x8000_0000_0000_0000, BENCH_SEED, 64)) == applied(
        RELATION,
        BENCH_SEED,
        64,
    )) by (bit_vector);
    assert(applied(0, BENCH_SEED, 64) == 0) by (bit_vector);
    lemma_applied_sum(
        c << 1,
        if c >> 63 == 1 {
            RELATION
        } else {
            0
        },
        s,
        64,
    );
}

/// The product of two polynomials is applied as the one after the other.
proof fn lemma_applied_product(c: u64, d: u64, n: int)
    ensures
        applied(product(c, d, n), BENCH_SEED, 64) == applied(c, applied(d, BENCH_SEED, 64), n),
    decreases n,
{
    assert(applied(0, BENCH_SEED, 64) == 0) by (bit_vector);
    if n > 0 {
        lemma_applied_product(c >> 1, d, n - 1);
        let before = product(c >> 1, d, n - 1);
        lemma_applied_step(before);
        lemma_applied_sum(
            stepped(before),
            if c & 1 == 1 {
                d
            } else {
                0
            },
            BENCH_SEED,
            64,
        );
    }
}

/// A polynomial leads as far ahead of the seed as `n` draws.
spec fn leads_to(c: u64, n: int) -> bool {
    applied(c, BENCH_SEED, 64) == nth_draw(BENCH_SEED, n)
}

proof fn lemma_product_leads(c: u64, m: int, d: u64, n: int)
    requires
        0 <= m,
        0 <= n,
        leads_to(c, m),
        leads_to(d, n),
    ensures
        leads_to(product(c, d, 64), m + n),
{
    lemma_applied_product(c, d, 64);
    lemma_applied_commutes_with_draws(c, BENCH_SEED, n);
    lemma_draws_add(BENCH_SEED, m, n);
}

proof fn lemma_squared_leads(k: int)
    requires
        0 <= k,
    ensures
        leads_to(squared(k), pow2(k as nat) as int),
    decreases k,
{
    if k == 0 {
        lemma2_to64();
        assert(applied(2, BENCH_SEED, 64) == xorshift(BENCH_SEED)) by (bit_vector);
        assert(nth_draw(BENCH_SEED, 1) == xorshift(nth_draw(BENCH_SEED, 0)));
    } else {
        lemma_squared_leads(k - 1);
        let m = pow2((k - 1) as nat) as int;
        lemma_product_leads(squared(k - 1), m, squared(k - 1), m);
        lemma_pow2_unfold(k as nat);
    }
}

/// After 2^64 - 1 draws the generator is back at the seed.
pub proof fn law_generator_comes_back()
    ensures
        nth_draw(BENCH_SEED, u64::MAX as int) == BENCH_SEED,
{
    lemma_squared_leads(64);
    lemma2_to64();
    assert(squared(64) == 2) by (bit_vector);
    lemma_squared_leads(0);
    assert(squared(0) == 2);
    let far = nth_draw(BENCH_SEED, u64::MAX as int);
    lemma_draws_add(BENCH_SEED, u64::MAX as int, 1);
    assert(nth_draw(far, 1) == xorshift(nth_draw(far, 0)));
    assert(nth_draw(BENCH_SEED, 1) == xorshift(nth_draw(BENCH_SEED, 0)));
    if far != BENCH_SEED {
        law_generator_is_injective(far, BENCH_SEED);
    }
}

/// The 65537th part of all draws before the generator is back, 8192 times.
const PART: u64 = 2_305_807_825_378_467_840;

proof fn lemma_part_does_not_come_back()
    ensures
        nth_draw(BENCH_SEED, PART as int) != BENCH_SEED,
{
    lemma2_to64();
    lemma2_to64_rest();
    lemma_squared_leads(61);
    lemma_squared_leads(29);
    lemma_squared_leads(45);
    lemma_squared_leads(13);
    let far = pow2(61) as int + pow2(29) as int;
    let near = pow2(45) as int + pow2(13) as int;
    lemma_product_leads(squared(61), pow2(61) as int, squared(29), pow2(29) as int);
    lemma_product_leads(squared(45), pow2(45) as int, squared(13), pow2(13) as int);
    assert(applied(product(squared(61), squared(29), 64), BENCH_SEED, 64) != applied(
        product(squared(45), squared(13), 64),
        BENCH_SEED,
        64,
    )) by (bit_vector);
    lemma_draws_add(BENCH_SEED, PART as int, near);
    assert(PART + near == far);
}

/// Where some draws lead back to the seed, so do they many times over.
proof fn lemma_multiple_comes_back(n: int, k: int)
    requires
        0 <= n,
        0 <= k,
        nth_draw(BENCH_SEED, n) == BENCH_SEED,
    ensures
        nth_draw(BENCH_SEED, n * k) == BENCH_SEED,
    decreases k,
{
    if k > 0 {
        lemma_multiple_comes_back(n, k - 1);
        assert(n * k == n * (k - 1) + n) by (nonlinear_arith);
        assert(n * (k - 1) >= 0) by (nonlinear_arith)
            requires
                0 <= n,
                0 < k,
        ;
        lemma_draws_add(BENCH_SEED, n * (k - 1), n);
    } else {
        assert(n * k == 0) by (nonlinear_arith)
            requires
                k == 0,
        ;
    }
}

/// A number of parts below 16384 does not lead back to the seed: 65537 is
/// prime, so that one part would lead back too.
proof fn lemma_parts_do_not_come_back(a: int)
    requires
        1 <= a < 16384,
    ensures
        nth_draw(BENCH_SEED, PART * a) != BENCH_SEED,
    decreases a,
{
    if a == 1 {
        lemma_part_does_not_come_back();
    } else if nth_draw(BENCH_SEED, PART * a) == BENCH_SEED {
        let x = a as u32;
        assert(2 <= x && x < 16384 ==> 65537u32 % x != 0) by (bit_vector);
        let r: int = 65537int % a;
        let q: int = 65537int / a;
        assert(r == 65537 - a * q && 0 < r < a && 0 <= q) by (nonlinear_arith)
            requires
                r == 65537int % a,
                q == 65537int / a,
                2 <= a,
                65537int % a != 0,
        ;
        law_generator_comes_back();
        lemma_multiple_comes_back(u64::MAX as int, 8192);
        lemma_multiple_comes_back(PART * a, q);
        assert(PART * 65537 == u64::MAX * 8192);
        assert((PART * a) * q + PART * r == PART * 65537) by (nonlinear_arith)
            requires
                r == 65537 - a * q,
        ;
        assert((PART * a) * q >= 0) by (nonlinear_arith)
            requires
                a >= 0,
                q >= 0,
        ;
        lemma_draws_add(BENCH_SEED, (PART * a) * q, PART * r);
        lemma_parts_do_not_come_back(r);
    }
}

/// From the seed on, the generator does not draw the same at two of the first
/// 16384 places that are 8192 draws apart.
pub proof fn law_distant_draws_differ(first: int, a: int, b: int)
    requires
        0 <= first,
        0 <= a < b < 16384,
    ensures
        nth_draw(BENCH_SEED, 8192 * a + first) != nth_draw(BENCH_SEED, 8192 * b + first),
{
    if nth_draw(BENCH_SEED, 8192 * a + first) == nth_draw(BENCH_SEED, 8192 * b + first) {
        let j = b - a;
        let back = nth_draw(BENCH_SEED, 8192 * j);
        lemma_draws_add(BENCH_SEED, 8192 * j, 8192 * a + first);
        if back != BENCH_SEED {
            lemma_draws_injective(back, BENCH_SEED, 8192 * a + first);
        }
        let q: int = 281_470_681_808_895;
        lemma_multiple_comes_back(8192 * j, q);
        assert((8192 * j) * q == PART * j) by (nonlinear_arith)
            requires
                PART == 8192 * q,
        ;
        lemma_parts_do_not_come_back(j);
    }
}

} // verus!
