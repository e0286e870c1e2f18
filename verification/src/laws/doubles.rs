//! Rounding, as the doubles promise it.
use vstd::arithmetic::div_mod::{lemma_fundamental_div_mod, lemma_fundamental_div_mod_converse};
use vstd::arithmetic::power2::{lemma_pow2_adds, lemma_pow2_pos, lemma_pow2_strictly_increases, lemma_pow2_unfold, pow2};
use vstd::prelude::*;

use crate::binary64::{binade, half_even, lemma_binade_bound, lemma_units_monotone, nearest, units_of, Double, EXPONENT_STEP, INFINITY, UNIT_EXPONENT};
use crate::collect::processes::in_seconds;

verus! {

/// How far `a` is from `b`.
pub open spec fn distance(a: int, b: int) -> int {
    if a >= b {
        a - b
    } else {
        b - a
    }
}

/// Half-even rounding is off by at most one half.
proof fn lemma_half_even_close(num: nat, den: nat)
    requires
        den > 0,
    ensures
        2 * distance(num as int, (den * half_even(num, den)) as int) <= den,
{
    let q = num / den;
    let r = num % den;
    lemma_fundamental_div_mod(num as int, den as int);
    assert(den * (q + 1) == den * q + den) by (nonlinear_arith);
}

/// No multiple of `den` is closer to `num` than the half-even one.
proof fn lemma_half_even_closest(num: nat, den: nat, t: nat)
    requires
        den > 0,
    ensures
        distance(num as int, (den * half_even(num, den)) as int) <= distance(num as int, (den * t) as int),
{
    let m = half_even(num, den);
    lemma_half_even_close(num, den);
    if t < m {
        assert(den * t + den <= den * m) by (nonlinear_arith)
            requires
                t + 1 <= m,
        ;
    } else if t > m {
        assert(den * m + den <= den * t) by (nonlinear_arith)
            requires
                m + 1 <= t,
        ;
    }
}

proof fn lemma_pow2_52()
    ensures
        pow2(0) == 1,
        pow2(52) == EXPONENT_STEP,
        pow2(53) == 2 * EXPONENT_STEP,
{
    vstd::arithmetic::power2::lemma2_to64();
    vstd::arithmetic::power2::lemma2_to64_rest();
}

/// What `binade` says.
proof fn lemma_binade_range(num: nat, den: nat)
    requires
        den > 0,
    ensures
        num < den * pow2(53 + binade(num, den)),
        binade(num, den) > 0 ==> num >= den * pow2((52 + binade(num, den)) as nat),
    decreases num - den,
{
    lemma_pow2_52();
    if num >= den * 0x20_0000_0000_0000 {
        lemma_binade_range(num, 2 * den);
        let b = binade(num, 2 * den);
        lemma_pow2_unfold(53 + (1 + b));
        lemma_pow2_unfold((52 + (1 + b)) as nat);
        let o = pow2(53 + b);
        let i = pow2((52 + b) as nat);
        assert(den * (2 * o) == (2 * den) * o) by (nonlinear_arith);
        assert(den * (2 * i) == (2 * den) * i) by (nonlinear_arith);
    }
}

/// The size of the encoding that `k` doublings of `m` make up.
proof fn lemma_units_at(k: nat, m: nat)
    requires
        m <= 2 * EXPONENT_STEP,
        k > 0 ==> m >= EXPONENT_STEP,
    ensures
        units_of(k * EXPONENT_STEP as nat + m) == m * pow2(k),
{
    let step = EXPONENT_STEP as nat;
    let mag = k * step + m;
    lemma_pow2_52();
    assert(k * step >= 0) by (nonlinear_arith);
    if m < step {
        assert(k == 0);
        assert(k * step == 0) by (nonlinear_arith)
            requires
                k == 0,
        ;
        assert(m * 1 == m);
    } else if m < 2 * step {
        assert(mag == (k + 1) * step + (m - step)) by (nonlinear_arith)
            requires
                mag == k * step + m,
        ;
        lemma_fundamental_div_mod_converse(mag as int, step as int, k as int + 1, m - step);
    } else {
        assert(mag == (k + 2) * step + 0) by (nonlinear_arith)
            requires
                mag == k * step + m,
                m == 2 * step,
        ;
        lemma_fundamental_div_mod_converse(mag as int, step as int, k as int + 2, 0);
        lemma_pow2_unfold(k + 1);
        let p = pow2(k);
        assert(step * (2 * p) == (2 * step) * p) by (nonlinear_arith);
    }
}

/// The double that stands for a fraction is nearest to it: no other one is
/// closer.
pub proof fn law_nearest_is_nearest(num: nat, den: nat, other: nat)
    requires
        den > 0,
        other <= INFINITY,
    ensures
        distance(num as int, (den * units_of(nearest(num, den))) as int) <= distance(
            num as int,
            (den * units_of(other)) as int,
        ),
{
    let step = EXPONENT_STEP as nat;
    let k = binade(num, den);
    let p = pow2(k);
    let big = den * p;
    let m = half_even(num, big);
    lemma_pow2_52();
    lemma_pow2_pos(k);
    lemma_binade_range(num, den);
    lemma_pow2_adds(53, k);
    lemma_pow2_adds(52, k);
    assert(big > 0) by (nonlinear_arith)
        requires
            den > 0,
            p > 0,
            big == den * p,
    ;
    assert(den * ((2 * step) * p) == big * (2 * step)) by (nonlinear_arith)
        requires
            big == den * p,
    ;
    assert(den * (step * p) == big * step) by (nonlinear_arith)
        requires
            big == den * p,
    ;
    // The mantissa lies in the normal range.
    lemma_half_even_close(num, big);
    assert(m <= 2 * step) by {
        if m > 2 * step {
            assert(big * m >= big * (2 * step) + big) by (nonlinear_arith)
                requires
                    m >= 2 * step + 1,
                    big > 0,
            ;
        }
    }
    assert(k > 0 ==> m >= step) by {
        if k > 0 && m < step {
            assert(big * m + big <= big * step) by (nonlinear_arith)
                requires
                    m + 1 <= step,
                    big > 0,
            ;
        }
    }
    lemma_units_at(k, m);
    let here = den * (m * p);
    assert(here == big * m) by (nonlinear_arith)
        requires
            here == den * (m * p),
            big == den * p,
    ;
    if k * step + m > INFINITY {
        // Beyond every finite double.
        assert(k >= 2046) by {
            if k <= 2045 {
                assert(k * step <= 2045 * step) by (nonlinear_arith)
                    requires
                        k <= 2045,
                ;
            }
        }
        lemma_pow2_pos(2046);
        lemma_units_at(2046, step);
        if k > 2046 {
            lemma_pow2_strictly_increases(2046, k);
        }
        let top = units_of(INFINITY as nat);
        assert(top == step * pow2(2046));
        assert(den * top <= num) by (nonlinear_arith)
            requires
                top == step * pow2(2046),
                pow2(2046) <= p,
                num >= den * (step * p),
        ;
        if other < INFINITY {
            lemma_units_monotone(other, INFINITY as nat);
        }
        let u = units_of(other);
        assert(den * u <= den * top) by (nonlinear_arith)
            requires
                u <= top,
        ;
    } else {
        let j = if other < step {
            0
        } else {
            (other / step - 1) as nat
        };
        let n = if other < step {
            other
        } else {
            other % step + step
        };
        let q = pow2(j);
        lemma_fundamental_div_mod(other as int, step as int);
        assert(units_of(other) == n * q) by {
            assert(n * 1 == n);
        }
        if j >= k {
            let c = pow2((j - k) as nat);
            lemma_pow2_adds((j - k) as nat, k);
            let t = n * c;
            assert(den * (n * q) == big * t) by (nonlinear_arith)
                requires
                    q == c * p,
                    t == n * c,
                    big == den * p,
            ;
            lemma_half_even_closest(num, big, t);
        } else {
            lemma_half_even_closest(num, big, step);
            lemma_pow2_unfold(k);
            if j < k - 1 {
                lemma_pow2_strictly_increases(j, (k - 1) as nat);
            }
            assert(n * q <= step * p) by (nonlinear_arith)
                requires
                    n <= 2 * step,
                    2 * q <= p,
            ;
            let v = n * q;
            assert(den * v <= den * (step * p)) by (nonlinear_arith)
                requires
                    v <= step * p,
            ;
        }
    }
}

/// A finite double stands for itself.
pub proof fn law_doubles_round_to_themselves(mag: nat)
    requires
        mag < INFINITY,
    ensures
        nearest(units_of(mag), 1) == mag,
{
    let r = nearest(units_of(mag), 1);
    law_nearest_is_nearest(units_of(mag), 1, mag);
    assert(1 * units_of(mag) == units_of(mag));
    assert(units_of(r) == units_of(mag));
    if r < mag {
        lemma_units_monotone(r, mag);
    } else if r > mag {
        lemma_units_monotone(mag, r);
    }
}

/// A sum does not depend on the order of its parts.
pub proof fn law_sum_commutes(a: Double, b: Double)
    ensures
        a.sum(b) == b.sum(a),
{
}

/// The double that stands for a fraction below `2^(53 + k)` units is off by at
/// most half of `2^k` units.
proof fn lemma_nearest_error(num: nat, den: nat, k: nat)
    requires
        den > 0,
        num < den * pow2(53 + k),
        k <= 2000,
    ensures
        2 * distance(num as int, (den * units_of(nearest(num, den))) as int) <= den * pow2(k),
        nearest(num, den) < INFINITY,
{
    let step = EXPONENT_STEP as nat;
    let b = binade(num, den);
    let p = pow2(b);
    let big = den * p;
    let m = half_even(num, big);
    lemma_binade_bound(num, den, k);
    lemma_binade_range(num, den);
    lemma_pow2_52();
    lemma_pow2_pos(b);
    lemma_pow2_adds(53, b);
    lemma_pow2_adds(52, b);
    assert(big > 0) by (nonlinear_arith)
        requires
            den > 0,
            p > 0,
            big == den * p,
    ;
    assert(den * ((2 * step) * p) == big * (2 * step)) by (nonlinear_arith)
        requires
            big == den * p,
    ;
    assert(den * (step * p) == big * step) by (nonlinear_arith)
        requires
            big == den * p,
    ;
    lemma_half_even_close(num, big);
    assert(m <= 2 * step) by {
        if m > 2 * step {
            assert(big * m >= big * (2 * step) + big) by (nonlinear_arith)
                requires
                    m >= 2 * step + 1,
                    big > 0,
            ;
        }
    }
    assert(b > 0 ==> m >= step) by {
        if b > 0 && m < step {
            assert(big * m + big <= big * step) by (nonlinear_arith)
                requires
                    m + 1 <= step,
                    big > 0,
            ;
        }
    }
    lemma_units_at(b, m);
    assert(b * step + m < INFINITY) by (nonlinear_arith)
        requires
            b <= 2000,
            m <= 2 * step,
            step == EXPONENT_STEP,
            INFINITY == 2047 * EXPONENT_STEP,
    ;
    let here = den * (m * p);
    assert(here == big * m) by (nonlinear_arith)
        requires
            here == den * (m * p),
            big == den * p,
    ;
    if b < k {
        lemma_pow2_strictly_increases(b, k);
    }
    assert(den * p <= den * pow2(k)) by (nonlinear_arith)
        requires
            p <= pow2(k),
    ;
}

/// A fraction that is a double stands for itself.
proof fn lemma_nearest_hits(num: nat, den: nat, mag: nat)
    requires
        den > 0,
        mag <= INFINITY,
        num == den * units_of(mag),
    ensures
        den * units_of(nearest(num, den)) == num,
{
    law_nearest_is_nearest(num, den, mag);
}

/// A count of at most a thousand units, divided as doubles and then rounded
/// to a whole number, is rounded only once: the result is the exact quotient,
/// ties to even.
pub proof fn law_whole_quotients_round_once(b: nat, unit: nat)
    requires
        0 < unit <= b,
        b < 1000 * unit,
        unit <= 1_000_000_000,
    ensures
        Double::of_whole(b).ratio(Double::of_whole(unit)).fixed(0) == crate::text::decimal(
            half_even(b, unit),
        ),
{
    let u = pow2(UNIT_EXPONENT as nat);
    let e = pow2(1031);
    Double::lemma_of_whole(b);
    Double::lemma_of_whole(unit);
    lemma_pow2_pos(UNIT_EXPONENT as nat);
    lemma_pow2_pos(1031);
    vstd::arithmetic::power2::lemma2_to64_rest();
    vstd::arithmetic::power2::lemma2_to64();
    lemma_pow2_adds(43, 1031);
    assert(u == 0x800_0000_0000 * e);
    let num = b * u;
    assert(b * u > 0 && unit * u > 0) by (nonlinear_arith)
        requires
            b > 0,
            unit > 0,
            u > 0,
    ;
    let quotient = Double::of_whole(b).ratio(Double::of_whole(unit));
    crate::binary64::lemma_nearest_scaled(num, unit, u);
    assert(quotient == Double::signed(false, nearest(num, unit)));
    lemma_pow2_adds(10, UNIT_EXPONENT as nat);
    lemma_pow2_adds(53, 1031);
    assert(pow2(53 + 1031) == 1024 * u) by {
        assert((53 + 1031) as nat == (10 + UNIT_EXPONENT) as nat);
    }
    assert(num < unit * (1024 * u)) by (nonlinear_arith)
        requires
            num == b * u,
            b < 1000 * unit,
            u > 0,
    ;
    lemma_nearest_error(num, unit, 1031);
    let v = units_of(nearest(num, unit));
    assert(quotient.units() == v);
    let h = b / unit;
    let s = b % unit;
    lemma_fundamental_div_mod(b as int, unit as int);
    assert(1 <= h < 1000) by (nonlinear_arith)
        requires
            b == unit * h + s,
            unit <= b,
            b < 1000 * unit,
            0 <= s < unit,
    ;
    assert(num == unit * (h * u) + s * u) by (nonlinear_arith)
        requires
            num == b * u,
            b == unit * h + s,
    ;
    assert(v * 1 == v);
    let lo = h * u;
    let half = u / 2;
    assert(u == 2 * half);
    let miss = unit * v - num;
    assert(-(unit * e) <= 2 * miss <= unit * e);
    if s == 0 {
        Double::lemma_of_whole(h);
        assert(s * u == 0) by (nonlinear_arith)
            requires
                s == 0,
        ;
        lemma_nearest_hits(num, unit, Double::of_whole(h).magnitude());
        assert(v == lo) by (nonlinear_arith)
            requires
                unit * v == unit * lo,
                unit > 0,
        ;
        lemma_fundamental_div_mod_converse(v as int, u as int, h as int, 0);
    } else if 2 * s < unit {
        assert(lo <= v < lo + half) by (nonlinear_arith)
            requires
                unit * v == unit * lo + s * u + miss,
                -(unit * e) <= 2 * miss <= unit * e,
                1 <= s,
                2 * s + 1 <= unit,
                u == 0x800_0000_0000 * e,
                u == 2 * half,
                e > 0,
                0 < unit <= 1_000_000_000,
        {
            assert(unit * e <= 1_000_000_000 * e);
            assert(s * u >= u);
            assert(unit * (v - lo) >= 0);
            assert(2 * (s * u) + u <= unit * u);
            assert(unit * u == 2 * (unit * half));
            assert(unit * (v - lo) < unit * half);
        }
        lemma_fundamental_div_mod_converse(v as int, u as int, h as int, v - lo);
    } else if 2 * s > unit {
        assert(lo + half < v < lo + u) by (nonlinear_arith)
            requires
                unit * v == unit * lo + s * u + miss,
                -(unit * e) <= 2 * miss <= unit * e,
                s + 1 <= unit,
                2 * s >= unit + 1,
                u == 0x800_0000_0000 * e,
                u == 2 * half,
                e > 0,
                0 < unit <= 1_000_000_000,
        {
            assert(unit * e <= 1_000_000_000 * e);
            assert(s * u + u <= unit * u);
            assert(unit * (v - lo) < unit * u);
            assert(2 * (s * u) >= unit * u + u);
            assert(unit * u == 2 * (unit * half));
            assert(unit * (v - lo) > unit * half);
        }
        lemma_fundamental_div_mod_converse(v as int, u as int, h as int, v - lo);
    } else {
        let odd = 2 * h + 1;
        lemma_pow2_unfold(UNIT_EXPONENT as nat);
        assert(half == pow2(1073));
        assert(odd * pow2(52) >= EXPONENT_STEP) by (nonlinear_arith)
            requires
                odd >= 1,
                pow2(52) == EXPONENT_STEP,
        ;
        crate::binary64::lemma_nearest_exact(odd, 1073, 52);
        let mag = nearest(odd * half, 1);
        assert(num == unit * (odd * half)) by (nonlinear_arith)
            requires
                num == unit * (h * u) + s * u,
                unit == 2 * s,
                u == 2 * half,
                odd == 2 * h + 1,
        ;
        lemma_nearest_hits(num, unit, mag);
        assert(v == odd * half) by (nonlinear_arith)
            requires
                unit * v == unit * (odd * half),
                unit > 0,
        ;
        assert(odd * half == h * u + half) by (nonlinear_arith)
            requires
                odd == 2 * h + 1,
                u == 2 * half,
        ;
        lemma_fundamental_div_mod_converse(v as int, u as int, h as int, half as int);
    }
    assert(quotient.scaled_whole(0) == half_even(b, unit));
    reveal_strlit("");
    assert(quotient.fixed(0) =~= crate::text::decimal(half_even(b, unit)));
}

/// A whole number that is as close as the half-even one leaves that one even.
proof fn lemma_half_even_tie(num: nat, den: nat, t: nat)
    requires
        den > 0,
        t != half_even(num, den),
        distance(num as int, (den * half_even(num, den)) as int) == distance(
            num as int,
            (den * t) as int,
        ),
    ensures
        half_even(num, den) % 2 == 0,
{
    let q = num / den;
    let r = num % den;
    let m = half_even(num, den);
    lemma_fundamental_div_mod(num as int, den as int);
    assert(den * (q + 1) == den * q + den) by (nonlinear_arith);
    lemma_half_even_close(num, den);
    if t < m {
        assert(den * t + den <= den * m) by (nonlinear_arith)
            requires
                t + 1 <= m,
        ;
    } else {
        assert(den * m + den <= den * t) by (nonlinear_arith)
            requires
                m + 1 <= t,
        ;
    }
}

/// Of two doubles that are as close, the one with the even encoding is taken.
pub proof fn law_ties_go_to_the_even_double(num: nat, den: nat, other: nat)
    requires
        den > 0,
        other <= INFINITY,
        other != nearest(num, den),
        nearest(num, den) < INFINITY,
        distance(num as int, (den * units_of(nearest(num, den))) as int) == distance(
            num as int,
            (den * units_of(other)) as int,
        ),
    ensures
        nearest(num, den) % 2 == 0,
{
    let step = EXPONENT_STEP as nat;
    let k = binade(num, den);
    let p = pow2(k);
    let big = den * p;
    let m = half_even(num, big);
    lemma_pow2_52();
    lemma_pow2_pos(k);
    lemma_binade_range(num, den);
    lemma_pow2_adds(53, k);
    lemma_pow2_adds(52, k);
    assert(big > 0) by (nonlinear_arith)
        requires
            den > 0,
            p > 0,
            big == den * p,
    ;
    assert(den * ((2 * step) * p) == big * (2 * step)) by (nonlinear_arith)
        requires
            big == den * p,
    ;
    assert(den * (step * p) == big * step) by (nonlinear_arith)
        requires
            big == den * p,
    ;
    lemma_half_even_close(num, big);
    assert(m <= 2 * step) by {
        if m > 2 * step {
            assert(big * m >= big * (2 * step) + big) by (nonlinear_arith)
                requires
                    m >= 2 * step + 1,
                    big > 0,
            ;
        }
    }
    assert(k > 0 ==> m >= step) by {
        if k > 0 && m < step {
            assert(big * m + big <= big * step) by (nonlinear_arith)
                requires
                    m + 1 <= step,
                    big > 0,
            ;
        }
    }
    lemma_units_at(k, m);
    let here = den * (m * p);
    assert(here == big * m) by (nonlinear_arith)
        requires
            here == den * (m * p),
            big == den * p,
    ;
    let mag = nearest(num, den);
    assert(mag == k * step + m);
    assert(units_of(other) != units_of(mag)) by {
        if other < mag {
            lemma_units_monotone(other, mag);
        } else {
            lemma_units_monotone(mag, other);
        }
    }
    let j = if other < step {
        0
    } else {
        (other / step - 1) as nat
    };
    let n = if other < step {
        other
    } else {
        other % step + step
    };
    let q = pow2(j);
    lemma_fundamental_div_mod(other as int, step as int);
    assert(units_of(other) == n * q) by {
        assert(n * 1 == n);
    }
    if j >= k {
        let c = pow2((j - k) as nat);
        lemma_pow2_adds((j - k) as nat, k);
        let t = n * c;
        assert(den * (n * q) == big * t) by (nonlinear_arith)
            requires
                q == c * p,
                t == n * c,
                big == den * p,
        ;
        assert(n * q == t * p) by (nonlinear_arith)
            requires
                q == c * p,
                t == n * c,
        ;
        assert(t != m);
        lemma_half_even_tie(num, big, t);
    } else {
        lemma_half_even_closest(num, big, step);
        lemma_pow2_unfold(k);
        if j < k - 1 {
            lemma_pow2_strictly_increases(j, (k - 1) as nat);
        }
        assert(n * q <= step * p) by (nonlinear_arith)
            requires
                n <= 2 * step,
                2 * q <= p,
        ;
        let v = n * q;
        assert(den * v <= den * (step * p)) by (nonlinear_arith)
            requires
                v <= step * p,
        ;
        if m == step {
            assert(den * v == den * (step * p));
            assert(v == step * p) by (nonlinear_arith)
                requires
                    den * v == den * (step * p),
                    den > 0,
            ;
        } else {
            lemma_half_even_tie(num, big, step);
        }
    }
    let half = step / 2;
    assert(k * step == 2 * (k * half)) by (nonlinear_arith)
        requires
            step == 2 * half,
    ;
}

/// The doubles start at zero and grow by one unit up to the second binade,
/// and by twice as much in each one after that.
pub proof fn law_doubles_grow_by_their_binade(mag: nat)
    requires
        mag < INFINITY,
    ensures
        units_of(0) == 0,
        units_of(mag + 1) - units_of(mag) == pow2(
            if mag < 0x10_0000_0000_0000 {
                0
            } else {
                (mag / 0x10_0000_0000_0000nat - 1) as nat
            },
        ),
{
    let step = EXPONENT_STEP as nat;
    lemma_pow2_52();
    lemma_fundamental_div_mod(mag as int, step as int);
    let e = mag / step;
    let f = mag % step;
    if mag < step {
        if mag + 1 == step {
            lemma_fundamental_div_mod_converse(step as int, step as int, 1, 0);
            assert((0 + step) * 1 == step);
        }
    } else if f + 1 < step {
        lemma_fundamental_div_mod_converse(mag as int + 1, step as int, e as int, f as int + 1);
        let p = pow2((e - 1) as nat);
        assert((f + 1 + step) * p == (f + step) * p + p) by (nonlinear_arith);
    } else {
        assert(step * e + step == step * (e + 1)) by (nonlinear_arith);
        assert((e + 1) * step == step * (e + 1)) by (nonlinear_arith);
        lemma_fundamental_div_mod_converse(mag as int + 1, step as int, e as int + 1, 0);
        lemma_pow2_unfold(e);
        let p = pow2((e - 1) as nat);
        assert((0 + step) * (2 * p) == (f + step) * p + p) by (nonlinear_arith)
            requires
                f + 1 == step,
        ;
    }
}

/// The sum of two finite doubles is the double closest to their exact sum.
pub proof fn law_sums_are_the_nearest(a: Double, b: Double, other: Double)
    requires
        !a.nan() && !a.infinite(),
        !b.nan() && !b.infinite(),
        !other.nan(),
    ensures
        !a.sum(b).nan(),
        distance(a.rank() + b.rank(), a.sum(b).rank()) <= distance(
            a.rank() + b.rank(),
            other.rank(),
        ),
{
    let total = a.rank() + b.rank();
    let size = if total >= 0 {
        total as nat
    } else {
        (-total) as nat
    };
    law_nearest_is_nearest(size, 1, other.magnitude());
    let r = nearest(size, 1);
    assert(1 * units_of(r) == units_of(r));
    assert(1 * units_of(other.magnitude()) == units_of(other.magnitude()));
}

/// The quotient of two finite doubles is the double closest to their exact
/// quotient, and is negative where just one of them is.
pub proof fn law_quotients_are_the_nearest(a: Double, b: Double, other: Double)
    requires
        !a.nan() && !a.infinite(),
        !b.nan() && !b.infinite(),
        b.units() > 0,
        !other.nan(),
    ensures
        ({
            let unit = pow2(UNIT_EXPONENT as nat);
            let num = (a.units() * unit) as int;
            &&& !a.ratio(b).nan()
            &&& a.ratio(b).negative() == (a.negative() != b.negative())
            &&& distance(num, (b.units() * a.ratio(b).units()) as int) <= distance(
                num,
                (b.units() * other.units()) as int,
            )
        }),
{
    let unit = pow2(UNIT_EXPONENT as nat);
    law_nearest_is_nearest(a.units() * unit, b.units(), other.magnitude());
}

/// A whole number becomes the double closest to it, and itself below 2^53.
pub proof fn law_whole_numbers_become_the_nearest(n: nat, other: Double)
    requires
        n < 0x1_0000_0000_0000_0000,
        !other.nan(),
    ensures
        ({
            let unit = pow2(UNIT_EXPONENT as nat);
            let num = (n * unit) as int;
            &&& !Double::of_whole(n).nan() && !Double::of_whole(n).negative()
            &&& distance(num, Double::of_whole(n).units() as int) <= distance(
                num,
                other.units() as int,
            )
            &&& n < 0x20_0000_0000_0000 ==> Double::of_whole(n).units() == num
        }),
{
    let unit = pow2(UNIT_EXPONENT as nat);
    Double::lemma_of_whole_finite(n);
    law_nearest_is_nearest(n * unit, 1, other.magnitude());
    assert(1 * Double::of_whole(n).units() == Double::of_whole(n).units());
    assert(1 * other.units() == other.units());
    if n < 0x20_0000_0000_0000 {
        Double::lemma_of_whole(n);
    }
}

/// What has no bound stays without one, and what is no number stays none.
pub proof fn law_sums_and_quotients_at_the_limits(a: Double, b: Double)
    ensures
        a.nan() || b.nan() ==> a.sum(b).nan() && a.ratio(b).nan(),
        a.infinite() && !b.nan() && !b.infinite() ==> a.sum(b) == a && b.sum(a) == a,
        a.infinite() && b.infinite() ==> a.ratio(b).nan() && (if a.negative() == b.negative() {
            a.sum(b) == a
        } else {
            a.sum(b).nan()
        }),
        !a.nan() && !b.nan() && b.units() == 0 ==> (if a.units() == 0 {
            a.ratio(b).nan()
        } else {
            a.ratio(b).infinite() && a.ratio(b).negative() == (a.negative() != b.negative())
        }),
        !a.nan() && !a.infinite() && b.infinite() ==> a.ratio(b).units() == 0,
{
    lemma_units_monotone(0, INFINITY as nat);
}

/// One double is at least a whole number, or falls short of it, as their
/// values say.
pub proof fn law_comparisons_go_by_value(d: Double, n: nat)
    requires
        n < 0x20_0000_0000_0000,
        !d.nan(),
    ensures
        d.reaches(n) <==> d.rank() >= Double::of_whole(n).rank(),
        d.falls_short(n) <==> d.rank() < Double::of_whole(n).rank(),
        d.positive() <==> d.rank() > 0,
        d.rank() == (if d.bits >= 0x8000_0000_0000_0000 {
            -units_of((d.bits - 0x8000_0000_0000_0000) as nat)
        } else {
            units_of(d.bits as nat) as int
        }),
{
    Double::lemma_of_whole(n);
}

/// The double that stands for a fraction in the normal range is off by at
/// most one part in 2^53.
proof fn lemma_relative_error(num: nat, den: nat)
    requires
        den > 0,
        num >= den * 0x10_0000_0000_0000,
        num < den * pow2(2053),
    ensures
        0x20_0000_0000_0000 * distance(num as int, (den * units_of(nearest(num, den))) as int)
            <= num,
        nearest(num, den) < INFINITY,
{
    let k = binade(num, den);
    lemma_pow2_52();
    lemma_binade_range(num, den);
    lemma_binade_bound(num, den, 2000);
    lemma_nearest_error(num, den, k);
    lemma_pow2_adds(52, k);
    let p = pow2(k);
    let d = distance(num as int, (den * units_of(nearest(num, den))) as int);
    assert(2 * d <= den * p);
    let step = 0x10_0000_0000_0000int;
    assert((2 * step) * d <= step * (den * p)) by (nonlinear_arith)
        requires
            2 * d <= den * p,
            step > 0,
    ;
    assert(step * (den * p) == den * (step * p)) by (nonlinear_arith);
    if k == 0 {
        assert(den * (step * 1) == den * step);
    }
}

/// A time in seconds is its nanoseconds over a billion, to within one part in
/// 2^51; a whole number of seconds is exact.
pub proof fn law_seconds_are_nanoseconds_over_a_billion(nanos: u64)
    ensures
        ({
            let unit = pow2(UNIT_EXPONENT as nat) as int;
            let seconds = in_seconds(nanos);
            &&& !seconds.nan() && !seconds.infinite() && !seconds.negative()
            &&& 0x8_0000_0000_0000 * distance(1_000_000_000int * seconds.units(), nanos * unit)
                <= nanos * unit
            &&& nanos % 1_000_000_000 == 0 ==> seconds.units() == (nanos / 1_000_000_000) * unit
        }),
{
    let u = pow2(UNIT_EXPONENT as nat) as int;
    let s = 1_000_000_000int;
    let secs = (nanos / 1_000_000_000) as int;
    let rest = (nanos % 1_000_000_000) as int;
    let whole = Double::of_whole(secs as nat);
    let quotient = Double::of_whole(rest as nat).ratio(Double::of_whole(s as nat));
    Double::lemma_of_whole(secs as nat);
    Double::lemma_of_whole(rest as nat);
    Double::lemma_of_whole(s as nat);
    lemma_pow2_52();
    lemma_pow2_pos(UNIT_EXPONENT as nat);
    lemma_pow2_adds(100, 974);
    lemma_pow2_adds(52, 48);
    lemma_pow2_pos(974);
    lemma_pow2_pos(48);
    assert(u >= pow2(100)) by (nonlinear_arith)
        requires
            u == pow2(100) * pow2(974),
            pow2(974) > 0,
    ;
    vstd::arithmetic::power2::lemma2_to64_rest();
    let step = 0x10_0000_0000_0000int;
    assert(pow2(48) == 0x1_0000_0000_0000) by {
        vstd::arithmetic::power2::lemma2_to64_rest();
    }
    assert(u >= step * 0x1_0000_0000_0000);
    assert(s * u > 0) by (nonlinear_arith)
        requires
            u > 0,
            s > 0,
    ;
    let num = rest * u * u;
    let den = s * u;
    let q = quotient.units() as int;
    // The rest over a billion.
    if rest == 0 {
        assert(0 * u == 0);
        assert(0 * u * u == 0) by (nonlinear_arith);
        assert(nearest(0, den as nat) == 0) by {
            assert(binade(0, den as nat) == 0);
            assert(den * pow2(0) == den);
            lemma_fundamental_div_mod_converse(0, den, 0, 0);
        }
        assert(q == 0);
    } else {
        assert(num >= den * step) by (nonlinear_arith)
            requires
                num == rest * u * u,
                den == s * u,
                rest >= 1,
                u >= step * 0x1_0000_0000_0000,
                step > 0,
                s <= 0x1_0000_0000_0000,
        ;
        lemma_pow2_adds(1074, 979);
        lemma_pow2_pos(979);
        assert(num < den * pow2(2053)) by {
            let square = u * u;
            let w = pow2(979) as int;
            assert(square > 0) by (nonlinear_arith)
                requires
                    square == u * u,
                    u > 0,
            ;
            assert(num == rest * square) by (nonlinear_arith)
                requires
                    num == rest * u * u,
                    square == u * u,
            ;
            assert(den * (u * w) == (s * square) * w) by (nonlinear_arith)
                requires
                    den == s * u,
                    square == u * u,
            ;
            assert(rest * square < s * square) by (nonlinear_arith)
                requires
                    rest < s,
                    square > 0,
            ;
            let most = s * square;
            assert(most * w >= most) by (nonlinear_arith)
                requires
                    most >= 0,
                    w >= 1,
            ;
        }
        assert((rest * u) * u == num);
        lemma_relative_error(num as nat, den as nat);
        let d = distance(rest * u, s * q);
        assert(distance(num, den * q) == d * u) by (nonlinear_arith)
            requires
                num == rest * u * u,
                den == s * u,
                d == distance(rest * u, s * q),
                u > 0,
                distance(num, den * q) == (if num >= den * q {
                    num - den * q
                } else {
                    den * q - num
                }),
                distance(rest * u, s * q) == (if rest * u >= s * q {
                    rest * u - s * q
                } else {
                    s * q - rest * u
                }),
        ;
        assert((2 * step) * d <= rest * u) by (nonlinear_arith)
            requires
                (2 * step) * (d * u) <= (rest * u) * u,
                u > 0,
        ;
    }
    assert((2 * step) * distance(rest * u, s * q) <= rest * u) by {
        if rest == 0 {
            assert(s * q == 0) by (nonlinear_arith)
                requires
                    q == 0,
            ;
        }
    }
    assert(s * q <= 2 * (rest * u)) by {
        let d = distance(rest * u, s * q);
        assert(d <= rest * u) by (nonlinear_arith)
            requires
                (2 * step) * d <= rest * u,
                step >= 1,
                d >= 0,
        ;
    }
    // The sum of both.
    let total = secs * u + q;
    assert(whole.rank() == secs * u);
    assert(!quotient.negative());
    assert(nanos == secs * s + rest);
    assert(nanos * u == s * (secs * u) + rest * u) by (nonlinear_arith)
        requires
            nanos == secs * s + rest,
    ;
    let t = in_seconds(nanos).units() as int;
    assert(secs * u >= 0 && rest * u >= 0) by (nonlinear_arith)
        requires
            secs >= 0,
            rest >= 0,
            u > 0,
    ;
    if nanos == 0 {
        assert(total == 0) by (nonlinear_arith)
            requires
                secs == 0,
                q == 0,
                total == secs * u + q,
        ;
        assert(t == 0);
        assert(s * 0 == 0);
    } else {
        assert(total >= step) by {
            if secs >= 1 {
                assert(secs * u >= u) by (nonlinear_arith)
                    requires
                        secs >= 1,
                        u > 0,
                ;
            } else {
                assert(rest >= 1);
                let d = distance(rest * u, s * q);
                assert(2 * d <= rest * u) by (nonlinear_arith)
                    requires
                        (2 * step) * d <= rest * u,
                        step >= 1,
                        d >= 0,
                ;
                assert(2 * (s * q) >= rest * u);
                assert(q >= step) by (nonlinear_arith)
                    requires
                        2 * (s * q) >= rest * u,
                        rest >= 1,
                        u >= step * 0x1_0000_0000_0000,
                        s == 1_000_000_000,
                        step > 0,
                ;
            }
        }
        lemma_pow2_adds(1074, 979);
        lemma_pow2_adds(100, 879);
        lemma_pow2_pos(879);
        assert(total < pow2(2053)) by {
            assert(q <= 2 * (rest * u)) by (nonlinear_arith)
                requires
                    s * q <= 2 * (rest * u),
                    s >= 1,
                    q >= 0,
            ;
            assert(total <= (secs + 2 * rest) * u) by (nonlinear_arith)
                requires
                    total == secs * u + q,
                    q <= 2 * (rest * u),
            ;
            assert(pow2(979) >= pow2(100)) by (nonlinear_arith)
                requires
                    pow2(979) == pow2(100) * pow2(879),
                    pow2(879) > 0,
            ;
            assert((secs + 2 * rest) * u < pow2(979) * u) by (nonlinear_arith)
                requires
                    secs + 2 * rest < pow2(979),
                    u > 0,
            ;
            assert(pow2(979) * u == u * pow2(979)) by (nonlinear_arith);
        }
        assert(1 * pow2(2053) == pow2(2053));
        lemma_relative_error(total as nat, 1);
        assert(1 * units_of(nearest(total as nat, 1)) == units_of(nearest(total as nat, 1)));
        assert(t == units_of(nearest(total as nat, 1)));
        let a = distance(total, t);
        let b = distance(rest * u, s * q);
        assert(s * total == s * (secs * u) + s * q) by (nonlinear_arith)
            requires
                total == secs * u + q,
        ;
        let off = distance(s * t, nanos * u);
        assert(off <= s * a + b) by {
            assert(distance(s * total, s * t) == s * a) by (nonlinear_arith)
                requires
                    a == (if total >= t {
                        total - t
                    } else {
                        t - total
                    }),
                    distance(s * total, s * t) == (if s * total >= s * t {
                        s * total - s * t
                    } else {
                        s * t - s * total
                    }),
                    s > 0,
            ;
        }
        assert((2 * step) * (s * a) <= s * total) by (nonlinear_arith)
            requires
                (2 * step) * a <= total,
                s > 0,
        ;
        assert((2 * step) * off <= 4 * (nanos * u)) by (nonlinear_arith)
            requires
                off <= s * a + b,
                (2 * step) * (s * a) <= s * total,
                (2 * step) * b <= rest * u,
                s * total == s * (secs * u) + s * q,
                s * q <= 2 * (rest * u),
                nanos * u == s * (secs * u) + rest * u,
                s * (secs * u) >= 0,
                rest * u >= 0,
                step > 0,
        ;
        if rest == 0 {
            let w = whole.magnitude();
            assert(total == units_of(w));
            law_doubles_round_to_themselves(w);
        }
    }
}

/// The encodings are those of IEEE 754 binary64: the highest bit is the sign,
/// and below it the infinity stands above every finite value and below
/// everything that is no number.
pub proof fn law_encodings_are_binary64(d: Double)
    ensures
        ({
            let size = if d.bits >= 0x8000_0000_0000_0000 {
                d.bits - 0x8000_0000_0000_0000
            } else {
                d.bits as int
            };
            &&& d.negative() <==> d.bits >= 0x8000_0000_0000_0000
            &&& d.nan() <==> size > 0x7FF0_0000_0000_0000
            &&& d.infinite() <==> size == 0x7FF0_0000_0000_0000
            &&& d.units() == units_of(size as nat)
        }),
        (Double { bits: 0x3FF0_0000_0000_0000 }).units() == pow2(1074),
{
    lemma_pow2_52();
    lemma_fundamental_div_mod_converse(0x3FF0_0000_0000_0000, EXPONENT_STEP as int, 1023, 0);
    lemma_pow2_adds(52, 1022);
}

} // verus!
