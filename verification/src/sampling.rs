//! Integer random draws for the Poisson arrival stream.
//!
//! The arrival generator draws a uniform value `u` in (0, 1] — represented in
//! fixed point over 2^32 — and turns it into an exponentially distributed
//! inter-arrival interval `-ln(u) * avg` by an integer fixed-point logarithm,
//! so no floating point is involved anywhere.

use vstd::prelude::*;

verus! {

/// Relies on rand::random: a uniformly distributed 64-bit value from the
/// thread-local generator. Nothing is promised of the result; callers state
/// what holds of every outcome.
#[verifier::external_body]
fn random_u64() -> u64 {
    rand::random::<u64>()
}

/// ln(2) in Q16 fixed point, rounded to the nearest integer.
const LN2_Q16: u64 = 45426;

/// How many halvings bring `x` under 2^17: the integer part of the base-two
/// logarithm of the Q16 fixed-point value `x`.
pub open spec fn halvings(x: int) -> int
    decreases x,
{
    if x < 131072 {
        0
    } else {
        1 + halvings(x / 2)
    }
}

/// What is left of `x` after those halvings: the Q16 mantissa in [1, 2).
pub open spec fn mantissa(x: int) -> int
    decreases x,
{
    if x < 131072 {
        x
    } else {
        mantissa(x / 2)
    }
}

/// One squaring step of the fixed-point logarithm: square the Q16 mantissa,
/// renormalize, and shift the extracted bit into the fraction.
pub open spec fn square_step(p: (int, int)) -> (int, int) {
    let sq = (p.0 * p.0) / 65536;
    if sq >= 131072 {
        (sq / 2, p.1 * 2 + 1)
    } else {
        (sq, p.1 * 2)
    }
}

/// `n` squaring steps from the pair (mantissa, fraction so far).
pub open spec fn square_iter(p: (int, int), n: nat) -> (int, int)
    decreases n,
{
    if n == 0 {
        p
    } else {
        square_iter(square_step(p), (n - 1) as nat)
    }
}

/// Applying one more squaring step last is the same as applying it first:
/// lets a loop that steps forward meet the recursive definition.
proof fn lemma_square_iter_snoc(p: (int, int), n: nat)
    ensures
        square_iter(p, n + 1) == square_step(square_iter(p, n)),
    decreases n,
{
    if n == 0 {
        assert(square_iter(p, 1) == square_iter(square_step(p), 0));
    } else {
        lemma_square_iter_snoc(square_step(p), (n - 1) as nat);
        assert(square_iter(p, n + 1) == square_iter(square_step(p), n));
        assert(square_iter(p, n) == square_iter(square_step(p), (n - 1) as nat));
    }
}

/// The value `neg_ln_q16` computes, defined over the integers: the base-two
/// logarithm of 2^32 / u in Q16 — integer part by halving, sixteen fraction
/// bits by repeated squaring — scaled by ln(2).
pub open spec fn neg_ln_q16_spec(u: int) -> int {
    let x0 = 281474976710656int / u;
    let t = halvings(x0) * 65536 + square_iter((mantissa(x0), 0int), 16).1;
    (t * 45426) / 65536
}

/// −ln(u / 2^32) in Q16 fixed point, for `u` in [1, 2^32].
///
/// Computed entirely in integer arithmetic: let `x` be the Q16 fixed point of
/// `2^32 / u`; halve `x` into [1, 2) to find the integer part of its base-two
/// logarithm, extract sixteen fractional bits by repeated squaring, and scale
/// by ln(2). The contract only bounds the result — the draw it feeds is
/// random anyway — and the bound keeps every caller's arithmetic in `u64`.
fn neg_ln_q16(u: u64) -> (r: u64)
    requires
        1 <= u <= 4294967296,
    ensures
        r == neg_ln_q16_spec(u as int),
        r <= 1_500_000,
{
    let ghost x0 = (281474976710656int / u as int);
    proof {
        broadcast use vstd::arithmetic::div_mod::lemma_div_is_ordered;
        broadcast use vstd::arithmetic::div_mod::lemma_div_by_multiple;
        broadcast use vstd::arithmetic::div_mod::lemma_div_pos_is_pos;
        broadcast use vstd::arithmetic::power2::lemma_pow2_unfold;
        broadcast use vstd::arithmetic::power2::lemma_pow2_pos;

    }
    // Q16 fixed point of 2^32 / u, in [2^16, 2^48].
    let mut x: u64 = 281474976710656u64 / u;
    proof {
        assert(65536int * 4294967296 == 281474976710656);
        assert(x >= 281474976710656u64 / 4294967296) by {
            vstd::arithmetic::div_mod::lemma_div_is_ordered_by_denominator(
                281474976710656,
                u as int,
                4294967296,
            );
        }
    }

    // Bring x into [2^16, 2^17), counting the halvings: k is the integer part
    // of log2(2^32 / u).
    let mut k: u64 = 0;
    proof {
        vstd::arithmetic::power2::lemma2_to64();
        assert(vstd::arithmetic::power2::pow2(0) == 1nat);
    }
    while x >= 131072
        invariant
            65536 <= x <= 281474976710656,
            k <= 32,
            x * vstd::arithmetic::power2::pow2(k as nat) <= 281474976710656,
            halvings(x0) == k + halvings(x as int),
            mantissa(x0) == mantissa(x as int),
        decreases x,
    {
        proof {
            let p = vstd::arithmetic::power2::pow2(k as nat);
            vstd::arithmetic::power2::lemma2_to64();
            vstd::arithmetic::power2::lemma_pow2_pos(k as nat);
            assert(131072 * p <= x * p) by (nonlinear_arith)
                requires
                    131072 <= x,
                    p > 0,
            ;
            if k >= 32 {
                if k > 32 {
                    vstd::arithmetic::power2::lemma_pow2_strictly_increases(32, k as nat);
                }
                assert(131072 * p >= 131072 * 4294967296) by (nonlinear_arith)
                    requires
                        p >= 4294967296,
                ;
                assert(false);
            }
            let pn = vstd::arithmetic::power2::pow2((k + 1) as nat);
            vstd::arithmetic::power2::lemma_pow2_unfold((k + 1) as nat);
            vstd::arithmetic::power2::lemma_pow2_pos(k as nat);
            assert(pn == 2 * p);
            assert(2 * (x as int / 2) <= x as int);
            assert((x as int / 2) * pn == (2 * (x as int / 2)) * p) by (nonlinear_arith)
                requires
                    pn == 2 * p,
            ;
            assert((2 * (x as int / 2)) * p <= x * p) by (nonlinear_arith)
                requires
                    2 * (x as int / 2) <= x as int,
                    p > 0,
            ;
        }
        x = x / 2;
        k = k + 1;
    }
    proof {
        vstd::arithmetic::power2::lemma2_to64();
        assert(65536nat == vstd::arithmetic::power2::pow2(16));
        assert(281474976710656nat == vstd::arithmetic::power2::pow2(48));
        let p = vstd::arithmetic::power2::pow2(k as nat);
        assert(65536 * p <= x * p) by (nonlinear_arith)
            requires
                65536 <= x,
                p > 0,
        ;
        vstd::arithmetic::power2::lemma_pow2_adds(16, k as nat);
        if k > 32 {
            vstd::arithmetic::power2::lemma_pow2_strictly_increases(48, (16 + k) as nat);
        }
        assert(k <= 32);
    }

    // Sixteen fractional bits of log2, by repeated squaring of the mantissa.
    let mut f: u64 = 0;
    let mut i: u64 = 0;
    proof {
        vstd::arithmetic::power2::lemma2_to64();
    }
    let ghost m0 = x as int;
    proof {
        assert(m0 == mantissa(x0));
        assert(square_iter((m0, 0int), 0) == (x as int, f as int));
    }
    while i < 16
        invariant
            65536 <= x < 131072,
            i <= 16,
            f < vstd::arithmetic::power2::pow2(i as nat),
            m0 == mantissa(x0),
            k == halvings(x0),
            square_iter((m0, 0int), i as nat) == (x as int, f as int),
        decreases 16 - i,
    {
        proof {
            lemma_square_iter_snoc((m0, 0int), i as nat);
        }
        proof {
            assert(x * x < 131072 * 131072) by (nonlinear_arith)
                requires
                    0 <= x < 131072,
            ;
            assert(x * x >= 65536 * 65536) by (nonlinear_arith)
                requires
                    x >= 65536,
            ;
            assert((65536int * 65536) / 65536 == 65536int);
            assert((x * x) as int / 65536 >= 65536);
            let p = vstd::arithmetic::power2::pow2(i as nat);
            let pn = vstd::arithmetic::power2::pow2((i + 1) as nat);
            vstd::arithmetic::power2::lemma_pow2_unfold((i + 1) as nat);
            vstd::arithmetic::power2::lemma_pow2_strictly_increases(i as nat, 16);
            vstd::arithmetic::power2::lemma2_to64();
            assert(pn == 2 * p);
            assert(f < 65536);
        }
        x = (x * x) / 65536;
        if x >= 131072 {
            x = x / 2;
            f = f * 2 + 1;
        } else {
            f = f * 2;
        }
        i = i + 1;
    }
    proof {
        vstd::arithmetic::power2::lemma2_to64();
        assert(f < 65536);
    }

    // log2(2^32 / u) in Q16 is k * 2^16 + f; multiply by ln(2).
    let t: u64 = k * 65536 + f;
    proof {
        assert(t <= 32 * 65536 + 65535);
        assert(t * LN2_Q16 <= 2162687 * 45426) by (nonlinear_arith)
            requires
                0 <= t <= 2162687,
        ;
        assert((t * LN2_Q16) as int / 65536 <= 98242462062int / 65536) by {
            broadcast use vstd::arithmetic::div_mod::lemma_div_is_ordered;

        }
    }
    (t * LN2_Q16) / 65536
}

/// One exponentially distributed inter-arrival interval with mean close to
/// `avg`, never zero so that a generated arrival stream always advances.
///
/// The draw is `-ln(u) * avg` for a uniform `u` in (0, 1], computed in fixed
/// point; only bounds are promised, since the value is random.
pub(crate) fn sample_interarrival(avg: u64) -> (r: u64)
    requires
        1 <= avg <= crate::MAX_DURATION,
    ensures
        1 <= r <= 23 * avg,
{
    let raw = random_u64();
    // Uniform in [1, 2^32], standing for a real in (0, 1] over 2^32.
    let u = raw % 4294967296 + 1;
    let l = neg_ln_q16(u);
    proof {
        assert(avg * l <= avg * 1_500_000) by (nonlinear_arith)
            requires
                0 <= l <= 1_500_000,
                avg >= 0,
        ;
        assert(avg * 1_500_000 <= crate::MAX_DURATION * 1_500_000) by (nonlinear_arith)
            requires
                0 <= avg <= crate::MAX_DURATION,
        ;
        broadcast use vstd::arithmetic::div_mod::lemma_div_is_ordered;
        broadcast use vstd::arithmetic::div_mod::lemma_div_pos_is_pos;

        assert((avg * 1_500_000) as int / 65536 <= ((avg * (23int * 65536)) / 65536)) by {
            assert(avg * 1_500_000 <= avg * (23int * 65536)) by (nonlinear_arith)
                requires
                    avg >= 0,
            ;
        }
        assert((avg * (23int * 65536)) / 65536 == avg * 23) by {
            assert(avg * (23int * 65536) == (avg * 23) * 65536) by (nonlinear_arith);
            vstd::arithmetic::div_mod::lemma_div_by_multiple(avg * 23, 65536);
        }
    }
    let interval = (avg * l) / 65536;
    if interval == 0 {
        1
    } else {
        interval
    }
}

/// One service time drawn uniformly from [min_service, max_service].
///
/// Only the range is promised, since the value is random.
pub(crate) fn sample_service_time(min_service: u64, max_service: u64) -> (r: u64)
    requires
        1 <= min_service <= max_service <= crate::MAX_DURATION,
    ensures
        min_service <= r <= max_service,
{
    let raw = random_u64();
    let span = max_service - min_service + 1;
    min_service + raw % span
}

} // verus!
