use vstd::prelude::*;

use vstd::arithmetic::div_mod::{
    lemma_div_is_ordered, lemma_div_is_ordered_by_denominator, lemma_div_multiples_vanish,
    lemma_fundamental_div_mod,
};
use vstd::arithmetic::power2::{lemma2_to64, lemma_pow2_adds, lemma_pow2_pos,
    lemma_pow2_strictly_increases, pow2};

verus! {

/// Fixed-point scale: one, carried with twenty fractional bits.
pub const FP_SCALE: u64 = 1048576;

/// The natural logarithm of two in fixed point:
/// the nearest integer to ln(2) * FP_SCALE.
pub const LN2_FP: u64 = 726817;

/// The integer part of the base-two logarithm.
pub open spec fn spec_ilog2(x: nat) -> nat
    decreases x,
{
    if x < 2 {
        0
    } else {
        1 + spec_ilog2(x / 2)
    }
}

/// The fractional bits of the base-two logarithm of a mantissa
/// `z` in `[FP_SCALE, 2 * FP_SCALE)`, most significant bit first:
/// each step squares the mantissa and shifts out the integer bit.
pub open spec fn spec_log2_frac(z: nat, steps: nat) -> nat
    decreases steps,
{
    if steps == 0 {
        0
    } else {
        let sq = (z * z) / (FP_SCALE as nat);
        if sq >= 2 * FP_SCALE {
            pow2((steps - 1) as nat) + spec_log2_frac(sq / 2, (steps - 1) as nat)
        } else {
            spec_log2_frac(sq, (steps - 1) as nat)
        }
    }
}

/// The base-two logarithm in fixed point: the integer part shifted up
/// by the scale, plus twenty fractional bits.
pub open spec fn spec_log2_fp(x: nat) -> nat {
    spec_ilog2(x) * (FP_SCALE as nat) + spec_log2_frac(
        (x * (FP_SCALE as nat)) / pow2(spec_ilog2(x)),
        20,
    )
}

/// The natural logarithm in fixed point, as the base-two logarithm
/// rescaled by ln(2).
pub open spec fn spec_ln_fp(x: nat) -> nat {
    (spec_log2_fp(x) * (LN2_FP as nat)) / (FP_SCALE as nat)
}

/// The integer square root, halving the argument's bits recursively.
pub open spec fn spec_isqrt(x: nat) -> nat
    decreases x,
{
    if x == 0 {
        0
    } else {
        let r = 2 * spec_isqrt(x / 4);
        if (r + 1) * (r + 1) <= x {
            r + 1
        } else {
            r
        }
    }
}

/// The UCT score of a child in fixed point: the exploitation mean
/// `wins / visits` plus the exploration bonus
/// `sqrt(2 * ln(parent_visits) / visits)`. Wins are counted in
/// half-points, so the mean divides by twice the visit count.
pub open spec fn uct_score(parent_visits: nat, wins: nat, visits: nat) -> nat
    recommends
        parent_visits >= 1,
        visits >= 1,
{
    (wins * (FP_SCALE as nat)) / (2 * visits) + spec_isqrt(
        (2 * spec_ln_fp(parent_visits) * (FP_SCALE as nat)) / visits,
    )
}

/// `spec_isqrt` really is the integer square root.
pub proof fn lemma_isqrt_bounds(x: nat)
    ensures
        spec_isqrt(x) * spec_isqrt(x) <= x,
        x < (spec_isqrt(x) + 1) * (spec_isqrt(x) + 1),
    decreases x,
{
    if x > 0 {
        lemma_isqrt_bounds(x / 4);
        let q = spec_isqrt(x / 4);
        let r = 2 * q;
        lemma_fundamental_div_mod(x as int, 4);
        assert(r * r <= x) by (nonlinear_arith)
            requires
                q * q <= x / 4,
                r == 2 * q,
                x >= 4 * (x / 4),
        ;
        assert(x < (r + 2) * (r + 2)) by (nonlinear_arith)
            requires
                x / 4 < (q + 1) * (q + 1),
                r == 2 * q,
                x < 4 * (x / 4) + 4,
        ;
        let s = spec_isqrt(x);
        if (r + 1) * (r + 1) <= x {
            assert(s == r + 1);
            assert(s * s <= x && x < (s + 1) * (s + 1)) by (nonlinear_arith)
                requires
                    s == r + 1,
                    (r + 1) * (r + 1) <= x,
                    x < (r + 2) * (r + 2),
            ;
        } else {
            assert(s == r);
            assert(s * s <= x && x < (s + 1) * (s + 1)) by (nonlinear_arith)
                requires
                    s == r,
                    r * r <= x,
                    !((r + 1) * (r + 1) <= x),
            ;
        }
    } else {
        let s = spec_isqrt(x);
        assert(s == 0);
        assert(s * s <= x && x < (s + 1) * (s + 1)) by (nonlinear_arith)
            requires
                s == 0,
                x == 0,
        ;
    }
}

/// Any value with the square-root bounds is the square root.
pub proof fn lemma_isqrt_unique(x: nat, r: nat)
    requires
        r * r <= x,
        x < (r + 1) * (r + 1),
    ensures
        r == spec_isqrt(x),
{
    let s = spec_isqrt(x);
    lemma_isqrt_bounds(x);
    if r < s {
        assert(false) by (nonlinear_arith)
            requires
                r < s,
                s * s <= x,
                x < (r + 1) * (r + 1),
        ;
    }
    if s < r {
        assert(false) by (nonlinear_arith)
            requires
                s < r,
                r * r <= x,
                x < (s + 1) * (s + 1),
        ;
    }
}

/// The integer square root never decreases.
pub proof fn lemma_isqrt_monotonic(x: nat, y: nat)
    requires
        x <= y,
    ensures
        spec_isqrt(x) <= spec_isqrt(y),
{
    lemma_isqrt_bounds(x);
    lemma_isqrt_bounds(y);
    let sx = spec_isqrt(x);
    let sy = spec_isqrt(y);
    if sy < sx {
        assert(false) by (nonlinear_arith)
            requires
                sy < sx,
                sx * sx <= x,
                y < (sy + 1) * (sy + 1),
                x <= y,
        ;
    }
}

/// The integer square root, by binary search.
pub fn isqrt(x: u64) -> (r: u64)
    ensures
        r == spec_isqrt(x as nat),
{
    if x == 0 {
        assert(spec_isqrt(0) == 0);
        return 0;
    }
    let mut lo: u64 = 0;
    let mut hi: u64 = 0x1_0000_0000;
    while lo + 1 < hi
        invariant
            lo < hi <= 0x1_0000_0000,
            (lo as nat) * (lo as nat) <= x as nat,
            (x as nat) < (hi as nat) * (hi as nat),
        decreases hi - lo,
    {
        let mid = lo + (hi - lo) / 2;
        assert(lo < mid < hi);
        assert(mid * mid <= 0xffff_ffff * 0xffff_ffff) by (nonlinear_arith)
            requires
                mid <= 0xffff_ffff,
        ;
        let sq = mid * mid;
        if sq <= x {
            lo = mid;
        } else {
            hi = mid;
        }
    }
    proof {
        lemma_isqrt_unique(x as nat, lo as nat);
    }
    lo
}

/// The integer part of the base-two logarithm brackets its argument
/// between two powers of two.
pub proof fn lemma_ilog2_bounds(x: nat)
    requires
        x >= 1,
    ensures
        pow2(spec_ilog2(x)) <= x,
        x < pow2(spec_ilog2(x) + 1),
    decreases x,
{
    if x < 2 {
        lemma2_to64();
    } else {
        lemma_ilog2_bounds(x / 2);
        let b = spec_ilog2(x / 2);
        lemma_pow2_adds(1, b);
        lemma_pow2_adds(1, b + 1);
        lemma2_to64();
        lemma_fundamental_div_mod(x as int, 2);
        assert(pow2(b + 1) == 2 * pow2(b));
        assert(pow2(b + 2) == 2 * pow2(b + 1));
    }
}

/// Below a power of two, the integer base-two logarithm stays below
/// its exponent.
pub proof fn lemma_ilog2_below(x: nat, k: nat)
    requires
        1 <= x,
        x < pow2(k),
    ensures
        spec_ilog2(x) < k,
{
    lemma_ilog2_bounds(x);
    if spec_ilog2(x) >= k {
        if spec_ilog2(x) > k {
            lemma_pow2_strictly_increases(k, spec_ilog2(x));
        }
        assert(pow2(spec_ilog2(x)) >= pow2(k));
    }
}

/// The fractional bits of the base-two logarithm fit below their
/// count.
pub proof fn lemma_log2_frac_bound(z: nat, steps: nat)
    ensures
        spec_log2_frac(z, steps) < pow2(steps),
    decreases steps,
{
    lemma_pow2_pos(steps);
    if steps > 0 {
        let sq = (z * z) / (FP_SCALE as nat);
        lemma_pow2_adds(1, (steps - 1) as nat);
        lemma2_to64();
        if sq >= 2 * FP_SCALE {
            lemma_log2_frac_bound(sq / 2, (steps - 1) as nat);
        } else {
            lemma_log2_frac_bound(sq, (steps - 1) as nat);
            lemma_pow2_strictly_increases((steps - 1) as nat, steps);
        }
    }
}

/// The fixed-point base-two logarithm of a thirty-two-bit value fits
/// in twenty-five bits.
pub proof fn lemma_log2_fp_bound(x: nat)
    requires
        1 <= x < 0x1_0000_0000,
    ensures
        spec_log2_fp(x) < 32 * FP_SCALE,
{
    lemma2_to64();
    lemma_ilog2_below(x, 32);
    lemma_log2_frac_bound((x * (FP_SCALE as nat)) / pow2(spec_ilog2(x)), 20);
    assert(pow2(20) == FP_SCALE);
}

/// The fixed-point natural logarithm of a thirty-two-bit value is
/// below twenty-three units, far inside sixty-four bits.
pub proof fn lemma_ln_fp_bound(x: nat)
    requires
        1 <= x < 0x1_0000_0000,
    ensures
        spec_ln_fp(x) < 23 * FP_SCALE,
{
    lemma_log2_fp_bound(x);
    let l2 = spec_log2_fp(x);
    assert(l2 * LN2_FP <= 32 * FP_SCALE * LN2_FP) by (nonlinear_arith)
        requires
            l2 < 32 * FP_SCALE,
    ;
    lemma_div_is_ordered((l2 * LN2_FP) as int, 32 * FP_SCALE * LN2_FP, FP_SCALE as int);
    lemma_div_multiples_vanish((32 * LN2_FP) as int, FP_SCALE as int);
    assert(32 * FP_SCALE * LN2_FP == (32 * LN2_FP) * FP_SCALE) by (nonlinear_arith);
}

/// The integer part of the base-two logarithm, by repeated halving.
fn ilog2(x: u64) -> (r: u64)
    requires
        1 <= x,
    ensures
        r == spec_ilog2(x as nat),
        r <= 63,
{
    let mut t: u64 = x;
    let mut b: u64 = 0;
    proof {
        lemma2_to64();
    }
    while t >= 2
        invariant
            1 <= t <= x,
            spec_ilog2(x as nat) == b + spec_ilog2(t as nat),
            pow2(b as nat) * t <= x,
            b <= 63,
        decreases t,
    {
        proof {
            lemma_fundamental_div_mod(t as int, 2);
            lemma_pow2_adds(1, b as nat);
            lemma2_to64();
            assert(pow2(b as nat + 1) * (t as nat / 2) <= pow2(b as nat) * t) by (nonlinear_arith)
                requires
                    pow2(b as nat + 1) == 2 * pow2(b as nat),
                    2 * (t as nat / 2) <= t,
            ;
            if b as nat + 1 > 63 {
                lemma_pow2_strictly_increases(63, b as nat + 1);
                lemma_u64_max_pow2();
                assert(pow2(b as nat + 1) * (t as nat / 2) >= pow2(b as nat + 1)) by (nonlinear_arith)
                    requires
                        t as nat / 2 >= 1,
                        pow2(b as nat + 1) >= 0,
                ;
            }
        }
        t = t / 2;
        b = b + 1;
    }
    b
}

/// Sixty-four-bit values stay below the sixty-fourth power of two.
proof fn lemma_u64_max_pow2()
    ensures
        pow2(64) > u64::MAX,
{
    vstd::arithmetic::power2::lemma2_to64_rest();
}


/// Two raised to a small power.
fn pow2_u64(e: u64) -> (r: u64)
    requires
        e <= 63,
    ensures
        r == pow2(e as nat),
{
    proof {
        lemma2_to64();
    }
    let mut p: u64 = 1;
    let mut i: u64 = 0;
    while i < e
        invariant
            i <= e <= 63,
            p == pow2(i as nat),
        decreases e - i,
    {
        proof {
            lemma_pow2_adds(1, i as nat);
            lemma2_to64();
            if i as nat + 1 <= 63 {
                lemma_pow2_within_u64(i as nat + 1);
            }
        }
        p = p * 2;
        i = i + 1;
    }
    p
}

/// Powers of two up to the sixty-third stay within sixty-four bits.
proof fn lemma_pow2_within_u64(e: nat)
    requires
        e <= 63,
    ensures
        pow2(e) <= 0x8000000000000000,
{
    if e < 63 {
        lemma_pow2_strictly_increases(e, 63);
    }
    vstd::arithmetic::power2::lemma2_to64_rest();
}

/// The base-two logarithm in fixed point, with twenty fractional
/// bits computed by mantissa squaring.
fn log2_fp(x: u64) -> (r: u64)
    requires
        1 <= x < 0x1_0000_0000,
    ensures
        r == spec_log2_fp(x as nat),
{
    let b = ilog2(x);
    proof {
        lemma2_to64();
        lemma_ilog2_below(x as nat, 32);
    }
    let p = pow2_u64(b);
    let scaled = x * FP_SCALE;
    let z0 = scaled / p;
    proof {
        lemma_ilog2_bounds(x as nat);
        lemma_log2_fp_entry_bounds(x as nat);
    }
    let mut z: u64 = z0;
    let mut frac: u64 = 0;
    let mut step: u64 = 0;
    while step < 20
        invariant
            step <= 20,
            FP_SCALE <= z < 2 * FP_SCALE,
            frac < pow2(step as nat),
            spec_log2_frac(z0 as nat, 20) == frac * pow2((20 - step) as nat) + spec_log2_frac(
                z as nat,
                (20 - step) as nat,
            ),
        decreases 20 - step,
    {
        proof {
            lemma2_to64();
            assert((z as nat) * (z as nat) < 0x40000000000) by (nonlinear_arith)
                requires
                    z < 2 * FP_SCALE,
                    FP_SCALE == 1048576,
            ;
        }
        let sq = (z * z) / FP_SCALE;
        proof {
            lemma_mantissa_square_bounds(z as nat);
            lemma_pow2_adds(1, (20 - step - 1) as nat);
            assert(spec_log2_frac(z as nat, (20 - step) as nat) == if sq >= 2 * FP_SCALE {
                pow2((20 - step - 1) as nat) + spec_log2_frac(sq as nat / 2, (20 - step - 1) as nat)
            } else {
                spec_log2_frac(sq as nat, (20 - step - 1) as nat)
            });
            assert(frac * pow2((20 - step) as nat) == (2 * frac) * pow2((20 - step - 1) as nat))
                by (nonlinear_arith)
                requires
                    pow2((20 - step) as nat) == 2 * pow2((20 - step - 1) as nat),
            ;
        }
        if sq >= 2 * FP_SCALE {
            frac = frac * 2 + 1;
            z = sq / 2;
            proof {
                assert((frac as nat) * pow2((20 - step - 1) as nat) == (frac as nat - 1) * pow2(
                    (20 - step - 1) as nat,
                ) + pow2((20 - step - 1) as nat)) by (nonlinear_arith);
            }
        } else {
            frac = frac * 2;
            z = sq;
        }
        step = step + 1;
    }
    proof {
        lemma2_to64();
        assert(spec_log2_frac(z as nat, 0) == 0);
        assert((frac as nat) * pow2(0) == frac) by (nonlinear_arith)
            requires
                pow2(0) == 1,
        ;
        assert(frac == spec_log2_frac(z0 as nat, 20));
        assert(pow2(20) == FP_SCALE);
        assert(b * FP_SCALE + frac == spec_log2_fp(x as nat));
    }
    b * FP_SCALE + frac
}

/// The normalized mantissa that the fractional loop starts from lies
/// in `[FP_SCALE, 2 * FP_SCALE)`.
proof fn lemma_log2_fp_entry_bounds(x: nat)
    requires
        1 <= x < 0x1_0000_0000,
    ensures
        FP_SCALE <= (x * (FP_SCALE as nat)) / pow2(spec_ilog2(x)) < 2 * FP_SCALE,
        x * FP_SCALE <= 0x10_0000_0000_0000,
{
    let b = spec_ilog2(x);
    lemma_ilog2_bounds(x);
    lemma_pow2_pos(b);
    let p = pow2(b);
    lemma_pow2_adds(1, b);
    lemma2_to64();
    assert(x < 2 * p);
    assert(x * FP_SCALE >= p * FP_SCALE) by (nonlinear_arith)
        requires
            x >= p,
            FP_SCALE >= 1,
    ;
    lemma_div_is_ordered((p * FP_SCALE) as int, (x * FP_SCALE) as int, p as int);
    lemma_div_multiples_vanish(FP_SCALE as int, p as int);
    assert(p * FP_SCALE == FP_SCALE * p) by (nonlinear_arith);
    assert(x * FP_SCALE < (2 * p) * FP_SCALE) by (nonlinear_arith)
        requires
            x < 2 * p,
            FP_SCALE >= 1,
    ;
    lemma_div_is_ordered((x * FP_SCALE) as int, ((2 * p) * FP_SCALE) as int, p as int);
    lemma_div_multiples_vanish((2 * FP_SCALE) as int, p as int);
    assert((2 * p) * FP_SCALE == (2 * FP_SCALE) * p) by (nonlinear_arith);
    if (x * (FP_SCALE as nat)) / p >= 2 * FP_SCALE {
        lemma_fundamental_div_mod((x * FP_SCALE) as int, p as int);
        assert(false) by (nonlinear_arith)
            requires
                x * FP_SCALE == p * ((x * FP_SCALE) / p as int) + (x * FP_SCALE) % (p as int),
                (x * FP_SCALE) % (p as int) >= 0,
                (x * FP_SCALE) / p as int >= 2 * FP_SCALE,
                x * FP_SCALE < (2 * FP_SCALE) * p,
                p >= 1,
        ;
    }
    assert(x * FP_SCALE <= 0x10_0000_0000_0000) by (nonlinear_arith)
        requires
            x < 0x1_0000_0000,
            FP_SCALE == 1048576,
    ;
}

/// Squaring a mantissa in `[FP_SCALE, 2 * FP_SCALE)` and rescaling
/// lands in `[FP_SCALE, 4 * FP_SCALE)`, so one conditional halving
/// renormalizes it.
proof fn lemma_mantissa_square_bounds(z: nat)
    requires
        FP_SCALE <= z < 2 * FP_SCALE,
    ensures
        FP_SCALE <= (z * z) / (FP_SCALE as nat) < 4 * FP_SCALE,
        (z * z) / (FP_SCALE as nat) >= 2 * FP_SCALE ==> FP_SCALE <= ((z * z) / (FP_SCALE as nat))
            / 2 < 2 * FP_SCALE,
{
    let s = FP_SCALE as nat;
    assert(z * z >= s * s) by (nonlinear_arith)
        requires
            z >= s,
    ;
    lemma_div_is_ordered((s * s) as int, (z * z) as int, s as int);
    lemma_div_multiples_vanish(s as int, s as int);
    assert(s * s == s * s) by (nonlinear_arith);
    assert(z * z < (4 * s) * s) by (nonlinear_arith)
        requires
            z < 2 * s,
    ;
    if (z * z) / s >= 4 * s {
        lemma_fundamental_div_mod((z * z) as int, s as int);
        assert(false) by (nonlinear_arith)
            requires
                (z * z) as int == s * (((z * z) as int) / (s as int)) + ((z * z) as int) % (
                s as int),
                ((z * z) as int) % (s as int) >= 0,
                ((z * z) as int) / (s as int) >= 4 * s,
                z * z < (4 * s) * s,
                s >= 1,
        ;
    }
}

/// The natural logarithm in fixed point.
pub fn ln_fp(x: u64) -> (r: u64)
    requires
        1 <= x < 0x1_0000_0000,
    ensures
        r == spec_ln_fp(x as nat),
        r < 23 * FP_SCALE,
{
    let l2 = log2_fp(x);
    proof {
        lemma_log2_fp_bound(x as nat);
        lemma_ln_fp_bound(x as nat);
        assert(l2 * LN2_FP < 0x8000_0000_0000) by (nonlinear_arith)
            requires
                l2 < 32 * FP_SCALE,
                FP_SCALE == 1048576,
                LN2_FP == 726817,
        ;
    }
    (l2 * LN2_FP) / FP_SCALE
}

/// Raising a child's wins while its visits stand still strictly
/// raises its UCT score, as long as twice the visit count stays
/// within the fixed-point scale.
pub proof fn lemma_uct_score_wins_strict(parent_visits: nat, w1: nat, w2: nat, visits: nat)
    requires
        1 <= visits,
        2 * visits <= FP_SCALE,
        w1 < w2,
    ensures
        uct_score(parent_visits, w1, visits) < uct_score(parent_visits, w2, visits),
{
    let d = 2 * visits;
    assert(w1 * FP_SCALE + d <= w2 * FP_SCALE) by (nonlinear_arith)
        requires
            w1 < w2,
            d <= FP_SCALE,
    ;
    lemma_fundamental_div_mod((w1 * FP_SCALE) as int, d as int);
    lemma_div_is_ordered((w1 * FP_SCALE + d) as int, (w2 * FP_SCALE) as int, d as int);
    assert((w1 * FP_SCALE + d) / (d as int) == (w1 * FP_SCALE) / (d as int) + 1) by {
        lemma_div_multiples_vanish_helper((w1 * FP_SCALE) as int, d as int);
    }
}

/// Adding one denominator to the numerator raises an integer
/// quotient by exactly one.
proof fn lemma_div_multiples_vanish_helper(a: int, d: int)
    requires
        d > 0,
        a >= 0,
    ensures
        (a + d) / d == a / d + 1,
{
    lemma_fundamental_div_mod(a, d);
    vstd::arithmetic::div_mod::lemma_mod_division_less_than_divisor(a, d);
    assert(a + d == (a / d + 1) * d + a % d) by (nonlinear_arith)
        requires
            a == d * (a / d) + a % d,
    ;
    vstd::arithmetic::div_mod::lemma_fundamental_div_mod_converse(a + d, d, a / d + 1, a % d);
}

/// Raising a child's visits while its wins stand still never raises
/// its UCT score: both the mean and the exploration bonus shrink.
pub proof fn lemma_uct_score_visits_antitone(parent_visits: nat, wins: nat, n1: nat, n2: nat)
    requires
        1 <= n1 < n2,
    ensures
        uct_score(parent_visits, wins, n2) <= uct_score(parent_visits, wins, n1),
{
    lemma_div_is_ordered_by_denominator((wins * FP_SCALE) as int, (2 * n1) as int, (2 * n2) as int);
    let a = 2 * spec_ln_fp(parent_visits) * (FP_SCALE as nat);
    lemma_div_is_ordered_by_denominator(a as int, n1 as int, n2 as int);
    lemma_isqrt_monotonic(a / n2, a / n1);
}

} // verus!
