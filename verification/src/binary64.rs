//! Double-precision numbers as bit patterns, with their arithmetic carried
//! out on integers.
//!
//! A byte rate or an event rate is a double. The library keeps it as the 64
//! bits of its IEEE 754 encoding, and states what every operation gives over
//! whole numbers: each finite double is a multiple of the smallest positive
//! one, so its size is a natural number of such units, and a rounded result
//! is the double nearest to an exact fraction of units, ties to even.
use vstd::arithmetic::div_mod::{lemma_fundamental_div_mod, lemma_fundamental_div_mod_converse};
use vstd::arithmetic::power2::{lemma_pow2_adds, lemma_pow2_pos, lemma_pow2_strictly_increases, lemma_pow2_unfold, pow2};
use vstd::prelude::*;

verus! {

/// The weight of the lowest exponent bit.
pub const EXPONENT_STEP: u64 = 0x0010_0000_0000_0000;

/// The encoding of positive infinity; every larger magnitude is a NaN.
pub const INFINITY: u64 = 0x7FF0_0000_0000_0000;

/// The sign bit.
pub const SIGN: u64 = 0x8000_0000_0000_0000;

/// The encoding that stands for every NaN an operation gives.
pub const QUIET_NAN: u64 = 0x7FF8_0000_0000_0000;

/// How many doublings separate the smallest positive double from one.
pub const UNIT_EXPONENT: u32 = 1074;

/// A double, by its bits.
#[derive(Clone, Copy, Debug, PartialEq, Eq, Structural)]
pub struct Double {
    pub bits: u64,
}

/// The size of the double with the sign-free encoding `mag`, in units of the
/// smallest positive double. Infinity takes the size that the next binade
/// would start at.
pub open spec fn units_of(mag: nat) -> nat {
    if mag < EXPONENT_STEP {
        mag
    } else {
        (mag % (EXPONENT_STEP as nat) + EXPONENT_STEP as nat) * pow2(
            (mag / (EXPONENT_STEP as nat) - 1) as nat,
        )
    }
}

/// `num / den` rounded to a whole number, ties to even.
pub open spec fn half_even(num: nat, den: nat) -> nat {
    let quotient = num / den;
    let twice = 2 * (num % den);
    if twice < den {
        quotient
    } else if twice > den {
        quotient + 1
    } else {
        quotient + quotient % 2
    }
}

/// How often 2^53 has to double until it exceeds `num / den`.
pub open spec fn binade(num: nat, den: nat) -> nat
    decreases num - den,
{
    if den == 0 || num < den * 0x20_0000_0000_0000 {
        0
    } else {
        1 + binade(num, 2 * den)
    }
}

/// The encoding of the double nearest to `num / den` units, ties to even.
pub open spec fn nearest(num: nat, den: nat) -> nat {
    let k = binade(num, den);
    let mag = k * EXPONENT_STEP + half_even(num, den * pow2(k));
    if mag < INFINITY {
        mag as nat
    } else {
        INFINITY as nat
    }
}

pub proof fn lemma_binade(num: nat, den: nat, k: nat)
    requires
        den > 0,
        num < den * pow2(53 + k),
        k > 0 ==> num >= den * pow2((52 + k) as nat),
    ensures
        binade(num, den) == k,
    decreases k,
{
    assert(pow2(53) == 0x20_0000_0000_0000) by {
        vstd::arithmetic::power2::lemma2_to64_rest();
    }
    if k == 0 {
    } else {
        assert(pow2((52 + k) as nat) >= pow2(53)) by {
            if k > 1 {
                lemma_pow2_strictly_increases(53, (52 + k) as nat);
            }
        }
        assert(den * pow2((52 + k) as nat) >= den * pow2(53)) by (nonlinear_arith)
            requires
                pow2((52 + k) as nat) >= pow2(53),
        ;
        lemma_pow2_unfold((53 + k) as nat);
        lemma_pow2_unfold((52 + k) as nat);
        let p = pow2((52 + k) as nat) as int;
        let d = den as int;
        assert(d * (2 * p) == (2 * d) * p) by (nonlinear_arith);
        assert((53 + k - 1) as nat == (52 + k) as nat);
        if k > 1 {
            lemma_pow2_unfold((52 + k) as nat);
            let h = pow2((51 + k) as nat) as int;
            assert(d * (2 * h) == (2 * d) * h) by (nonlinear_arith);
        }
        lemma_binade(num, 2 * den, (k - 1) as nat);
    }
}

pub proof fn lemma_half_even_scaled(num: nat, den: nat, c: nat)
    requires
        den > 0,
        c > 0,
    ensures
        den * c > 0,
        half_even(num * c, den * c) == half_even(num, den),
{
    let q = num as int / den as int;
    let r = num as int % den as int;
    lemma_fundamental_div_mod(num as int, den as int);
    assert(num * c == q * (den * c) + r * c) by (nonlinear_arith)
        requires
            num == den * q + r,
    ;
    assert(0 <= r * c < den * c) by (nonlinear_arith)
        requires
            0 <= r < den,
            c > 0,
    ;
    lemma_fundamental_div_mod_converse((num * c) as int, (den * c) as int, q, r * c);
    assert((2 * r < den) == (2 * (r * c) < den * c) && (2 * r > den) == (2 * (r * c) > den * c))
        by (nonlinear_arith)
        requires
            c > 0,
    ;
}

proof fn lemma_binade_scaled(num: nat, den: nat, c: nat)
    requires
        den > 0,
        c > 0,
    ensures
        binade(num * c, den * c) == binade(num, den),
    decreases num - den,
{
    assert(den * c > 0) by (nonlinear_arith)
        requires
            den > 0,
            c > 0,
    ;
    assert((num < den * 0x20_0000_0000_0000) == (num * c < (den * c) * 0x20_0000_0000_0000)) by (nonlinear_arith)
        requires
            c > 0,
    ;
    assert((2 * den) * c == 2 * (den * c)) by (nonlinear_arith);
    if num >= den * 0x20_0000_0000_0000 {
        lemma_binade_scaled(num, 2 * den, c);
    }
}

/// Scaling a fraction leaves the double nearest to it.
pub proof fn lemma_nearest_scaled(num: nat, den: nat, c: nat)
    requires
        den > 0,
        c > 0,
    ensures
        nearest(num * c, den * c) == nearest(num, den),
{
    lemma_binade_scaled(num, den, c);
    let k = binade(num, den);
    lemma_pow2_pos(k);
    let p = pow2(k);
    assert((den * c) * p == (den * p) * c) by (nonlinear_arith);
    assert(den * p > 0) by (nonlinear_arith)
        requires
            den > 0,
            p > 0,
    ;
    lemma_half_even_scaled(num, den * p, c);
}

/// Rounding a quotient `high * 2 * half + low` with remainder `rest`, once
/// more divided by `2 * half`.
proof fn lemma_half_even_parts(num: nat, den: nat, high: nat, low: nat, rest: nat, half: nat)
    requires
        den > 0,
        half > 0,
        rest < den,
        low < 2 * half,
        num == (high * (2 * half) + low) * den + rest,
    ensures
        half_even(num, den * (2 * half)) == (if low < half {
            high
        } else if low > half || rest > 0 {
            high + 1
        } else {
            high + high % 2
        }),
{
    let p = 2 * half;
    let left = low * den + rest;
    assert(num == high * (den * p) + left) by (nonlinear_arith)
        requires
            num == (high * p + low) * den + rest,
            left == low * den + rest,
    ;
    assert(0 <= left < den * p) by (nonlinear_arith)
        requires
            low + 1 <= p,
            rest < den,
            left == low * den + rest,
    ;
    lemma_fundamental_div_mod_converse(num as int, (den * p) as int, high as int, left as int);
    if low < half {
        assert(2 * left < den * p) by (nonlinear_arith)
            requires
                low + 1 <= half,
                rest < den,
                p == 2 * half,
                left == low * den + rest,
        ;
    } else if low > half {
        assert(2 * left > den * p) by (nonlinear_arith)
            requires
                low >= half + 1,
                den > 0,
                p == 2 * half,
                left == low * den + rest,
        ;
    } else {
        assert(2 * left == den * p + 2 * rest) by (nonlinear_arith)
            requires
                low == half,
                p == 2 * half,
                left == low * den + rest,
        ;
    }
}

/// The exponent offset that keeps scaled fractions whole.
pub const OFFSET: i32 = 4000;

/// The double nearest to `num * 2^exp / den` units.
pub open spec fn nearest_scaled(num: nat, den: nat, exp: int) -> nat {
    nearest(num * pow2((exp + OFFSET) as nat), den * pow2(OFFSET as nat))
}

proof fn lemma_nearest_parts(num: nat, den: nat, exp: int, shift: nat, mantissa: nat)
    requires
        den > 0,
        exp + OFFSET >= 0,
        shift + exp >= 0,
        num < den * pow2(53 + shift),
        shift + exp > 0 ==> num >= den * pow2(52 + shift),
        mantissa == half_even(num, den * pow2(shift)),
    ensures
        ({
            let mag = (shift + exp) * EXPONENT_STEP + mantissa;
            nearest_scaled(num, den, exp) == if mag < INFINITY {
                mag
            } else {
                INFINITY as int
            }
        }),
{
    let k = (shift + exp) as nat;
    let c = pow2((exp + OFFSET) as nat);
    let big = den * pow2(OFFSET as nat);
    lemma_pow2_pos((exp + OFFSET) as nat);
    lemma_pow2_pos(OFFSET as nat);
    lemma_pow2_pos(shift);
    assert(big > 0) by (nonlinear_arith)
        requires
            den > 0,
            pow2(OFFSET as nat) > 0,
            big == den * pow2(OFFSET as nat),
    ;
    lemma_pow2_adds(53 + shift, (exp + OFFSET) as nat);
    lemma_pow2_adds(OFFSET as nat, 53 + k);
    assert(53 + shift + (exp + OFFSET) as nat == OFFSET as nat + (53 + k));
    assert((den * pow2(53 + shift)) * c == big * pow2(53 + k)) by (nonlinear_arith)
        requires
            pow2(53 + shift) * c == pow2(OFFSET as nat) * pow2(53 + k),
            big == den * pow2(OFFSET as nat),
    ;
    assert(num * c < (den * pow2(53 + shift)) * c) by (nonlinear_arith)
        requires
            num < den * pow2(53 + shift),
            c > 0,
    ;
    if k > 0 {
        lemma_pow2_adds(52 + shift, (exp + OFFSET) as nat);
        lemma_pow2_adds(OFFSET as nat, 52 + k);
        assert(52 + shift + (exp + OFFSET) as nat == OFFSET as nat + (52 + k));
        assert((den * pow2(52 + shift)) * c == big * pow2(52 + k)) by (nonlinear_arith)
            requires
                pow2(52 + shift) * c == pow2(OFFSET as nat) * pow2(52 + k),
                big == den * pow2(OFFSET as nat),
        ;
        assert(num * c >= (den * pow2(52 + shift)) * c) by (nonlinear_arith)
            requires
                num >= den * pow2(52 + shift),
                c > 0,
        ;
    }
    lemma_binade(num * c, big, k);
    lemma_pow2_adds(shift, (exp + OFFSET) as nat);
    lemma_pow2_adds(OFFSET as nat, k);
    assert(shift + (exp + OFFSET) as nat == OFFSET as nat + k);
    assert((den * pow2(shift)) * c == big * pow2(k)) by (nonlinear_arith)
        requires
            pow2(shift) * c == pow2(OFFSET as nat) * pow2(k),
            big == den * pow2(OFFSET as nat),
    ;
    assert(den * pow2(shift) > 0) by (nonlinear_arith)
        requires
            den > 0,
            pow2(shift) > 0,
    ;
    lemma_half_even_scaled(num, den * pow2(shift), c);
}

/// Two to the power `exp`.
pub fn power_of_two(exp: u32) -> (power: u128)
    requires
        exp < 128,
    ensures
        power == pow2(exp as nat),
{
    let mut power: u128 = 1;
    let mut i: u32 = 0;
    proof {
        vstd::arithmetic::power2::lemma2_to64();
    }
    while i < exp
        invariant
            i <= exp < 128,
            power == pow2(i as nat),
        decreases exp - i,
    {
        proof {
            lemma_pow2_unfold((i + 1) as nat);
            lemma_pow2_strictly_increases((i + 1) as nat, 128);
            lemma_pow2_128();
        }
        power = power * 2;
        i = i + 1;
    }
    power
}

proof fn lemma_pow2_128()
    ensures
        pow2(52) == 0x10_0000_0000_0000,
        pow2(53) == 0x20_0000_0000_0000,
        pow2(54) == 0x40_0000_0000_0000,
        pow2(62) == 0x4000_0000_0000_0000,
        pow2(64) == 0x1_0000_0000_0000_0000,
        pow2(126) == 0x4000_0000_0000_0000_0000_0000_0000_0000,
        pow2(127) == 0x8000_0000_0000_0000_0000_0000_0000_0000,
        pow2(128) == 0x1_0000_0000_0000_0000_0000_0000_0000_0000,
{
    vstd::arithmetic::power2::lemma2_to64();
    vstd::arithmetic::power2::lemma2_to64_rest();
    lemma_pow2_adds(64, 64);
    lemma_pow2_adds(64, 63);
    lemma_pow2_adds(64, 62);
}

/// The encoding of the double nearest to `num * 2^exp / den` units.
fn round(num: u128, den: u64, exp: i32) -> (mag: u64)
    requires
        num > 0,
        den > 0,
        num < 0x8000_0000_0000_0000_0000_0000_0000_0000,
        -3500 <= exp <= 3500,
    ensures
        mag == nearest_scaled(num as nat, den as nat, exp as int),
        mag <= INFINITY,
{
    let mut n: u128 = num;
    let mut e: i32 = exp;
    proof {
        lemma_pow2_128();
        vstd::arithmetic::power2::lemma2_to64();
    }
    while n < 0x4000_0000_0000_0000_0000_0000_0000_0000
        invariant
            0 < n < 0x8000_0000_0000_0000_0000_0000_0000_0000,
            exp - 127 < e <= exp,
            -3500 <= exp <= 3500,
            pow2((exp - e) as nat) <= n,
            n * pow2((e + OFFSET) as nat) == num * pow2((exp + OFFSET) as nat),
        decreases 0x8000_0000_0000_0000_0000_0000_0000_0000 - n,
    {
        proof {
            lemma_pow2_128();
            if exp - e >= 126 {
                assert(exp - e == 126);
            }
            lemma_pow2_unfold((exp - e + 1) as nat);
            lemma_pow2_unfold((e + OFFSET) as nat);
            let p = pow2((e - 1 + OFFSET) as nat) as int;
            assert(n * (2 * p) == (n * 2) * p) by (nonlinear_arith);
        }
        n = n * 2;
        e = e - 1;
    }
    let q: u128 = n / (den as u128);
    let r: u128 = n % (den as u128);
    proof {
        lemma_fundamental_div_mod(n as int, den as int);
        assert(q >= 0x4000_0000_0000_0000) by (nonlinear_arith)
            requires
                n == den * q + r,
                r < den,
                den < 0x1_0000_0000_0000_0000,
                n >= 0x4000_0000_0000_0000_0000_0000_0000_0000,
        ;
        assert(q <= n) by (nonlinear_arith)
            requires
                n == den * q + r,
                den >= 1,
                r >= 0,
                q >= 0,
        ;
    }
    let start: u32 = if e < -1 {
        (-e) as u32
    } else {
        1
    };
    if start >= 128 {
        proof {
            lemma_pow2_128();
            if start > 128 {
                lemma_pow2_strictly_increases(128, start as nat);
            }
            assert(den * pow2(start as nat) >= pow2(128)) by (nonlinear_arith)
                requires
                    den >= 1,
                    pow2(start as nat) >= pow2(128),
                    pow2(128) > 0,
            ;
            lemma_fundamental_div_mod_converse(
                n as int,
                (den * pow2(start as nat)) as int,
                0,
                n as int,
            );
            lemma_pow2_strictly_increases(start as nat, (53 + start) as nat);
            assert(n < den * pow2((53 + start) as nat)) by (nonlinear_arith)
                requires
                    n < pow2(128),
                    den >= 1,
                    pow2((53 + start) as nat) > pow2(128),
            ;
            lemma_nearest_parts(n as nat, den as nat, e as int, start as nat, 0);
        }
        return 0;
    }
    let mut s: u32 = start;
    let mut p: u128 = power_of_two(s);
    proof {
        lemma_pow2_adds(53, s as nat);
        if s < 74 {
            lemma_pow2_strictly_increases((53 + s) as nat, 127);
        }
    }
    while s < 74 && q >= 0x20_0000_0000_0000 * p
        invariant
            1 <= start <= s < 128,
            p == pow2(s as nat),
            q < 0x8000_0000_0000_0000_0000_0000_0000_0000,
            s > start ==> q >= 0x10_0000_0000_0000 * p,
            s < 74 ==> 0x20_0000_0000_0000 * p < 0x8000_0000_0000_0000_0000_0000_0000_0000,
        decreases 128 - s,
    {
        proof {
            lemma_pow2_128();
            lemma_pow2_unfold((s + 1) as nat);
            lemma_pow2_adds(53, (s + 1) as nat);
            if s + 1 < 74 {
                lemma_pow2_strictly_increases((53 + s + 1) as nat, 127);
            }
        }
        p = p * 2;
        s = s + 1;
    }
    proof {
        lemma_pow2_pos(s as nat);
    }
    let high: u128 = q / p;
    let low: u128 = q % p;
    let half: u128 = p / 2;
    proof {
        lemma_pow2_unfold(s as nat);
        lemma_fundamental_div_mod(q as int, p as int);
        assert(q == high * (2 * half) + low) by (nonlinear_arith)
            requires
                q == p * high + low,
                p == 2 * half,
        ;
        assert(n == (high * (2 * half) + low) * den + r) by (nonlinear_arith)
            requires
                n == den * q + r,
                q == high * (2 * half) + low,
        ;
        lemma_pow2_adds(53, s as nat);
        lemma_pow2_adds(52, s as nat);
        lemma_pow2_128();
        if s >= 74 {
            if s > 74 {
                lemma_pow2_strictly_increases(127, (53 + s) as nat);
            }
        }
        assert(q < 0x20_0000_0000_0000 * p);
        assert(high < 0x20_0000_0000_0000) by (nonlinear_arith)
            requires
                q == p * high + low,
                q < 0x20_0000_0000_0000 * p,
                low >= 0,
                p > 0,
        ;
        assert(n < den * pow2((53 + s) as nat)) by (nonlinear_arith)
            requires
                n == den * q + r,
                r < den,
                q + 1 <= pow2((53 + s) as nat),
        ;
        if s + e > 0 {
            assert(q >= 0x10_0000_0000_0000 * p);
            assert(high >= 0x10_0000_0000_0000) by (nonlinear_arith)
                requires
                    q == p * high + low,
                    q >= 0x10_0000_0000_0000 * p,
                    low < p,
            ;
            assert(n >= den * pow2((52 + s) as nat)) by (nonlinear_arith)
                requires
                    n == den * q + r,
                    r >= 0,
                    q >= pow2((52 + s) as nat),
            ;
        }
        lemma_half_even_parts(n as nat, den as nat, high as nat, low as nat, r as nat, half as nat);
    }
    let mantissa: u64 = if low < half {
        high as u64
    } else if low > half || r > 0 {
        high as u64 + 1
    } else {
        high as u64 + high as u64 % 2
    };
    let k: i32 = s as i32 + e;
    proof {
        lemma_nearest_parts(n as nat, den as nat, e as int, s as nat, mantissa as nat);
    }
    if k > 2045 {
        INFINITY
    } else {
        k as u64 * EXPONENT_STEP + mantissa
    }
}

/// A larger encoding is a larger number.
pub proof fn lemma_units_monotone(a: nat, b: nat)
    requires
        a < b,
    ensures
        units_of(a) < units_of(b),
{
    let step = EXPONENT_STEP as nat;
    lemma_pow2_128();
    vstd::arithmetic::power2::lemma2_to64();
    lemma_fundamental_div_mod(a as int, step as int);
    lemma_fundamental_div_mod(b as int, step as int);
    let i = a / step;
    let j = b / step;
    assert(i <= j) by (nonlinear_arith)
        requires
            a == step * i + a % step,
            b == step * j + b % step,
            a < b,
            0 <= a % step,
            0 <= b % step < step,
    ;
    if b < step {
    } else {
        let p = pow2((j - 1) as nat);
        lemma_pow2_pos((j - 1) as nat);
        assert(units_of(b) >= step * p) by (nonlinear_arith)
            requires
                units_of(b) == (b % step + step) * p,
        ;
        if a < step {
            assert(step * p >= step) by (nonlinear_arith)
                requires
                    p >= 1,
            ;
        } else {
            let o = pow2((i - 1) as nat);
            lemma_pow2_pos((i - 1) as nat);
            if i == j {
                let x = a % step + step;
                let y = b % step + step;
                assert(x * p < y * p) by (nonlinear_arith)
                    requires
                        p > 0,
                        x < y,
                ;
            } else {
                lemma_pow2_unfold(i);
                if i < j - 1 {
                    lemma_pow2_strictly_increases(i, (j - 1) as nat);
                }
                let x = a % step + step;
                assert(x * o < step * p) by (nonlinear_arith)
                    requires
                        x < 2 * step,
                        o > 0,
                        2 * o <= p,
                ;
            }
        }
    }
}

impl Double {
    /// The sign bit is set.
    pub open spec fn negative(self) -> bool {
        self.bits >= SIGN
    }

    /// The encoding without its sign.
    pub open spec fn magnitude(self) -> nat {
        if self.negative() {
            (self.bits - SIGN) as nat
        } else {
            self.bits as nat
        }
    }

    /// Not a number.
    pub open spec fn nan(self) -> bool {
        self.magnitude() > INFINITY
    }

    /// One of the two infinities.
    pub open spec fn infinite(self) -> bool {
        self.magnitude() == INFINITY
    }

    /// The absolute value, in units.
    pub open spec fn units(self) -> nat {
        units_of(self.magnitude())
    }

    /// The value, in units; it orders the doubles that are not NaN.
    pub open spec fn rank(self) -> int {
        if self.negative() {
            -self.units()
        } else {
            self.units() as int
        }
    }

    /// `mag` with a sign.
    pub open spec fn signed(negative: bool, mag: nat) -> Double {
        if negative {
            Double { bits: (mag + SIGN) as u64 }
        } else {
            Double { bits: mag as u64 }
        }
    }

    /// The double nearest to the whole number `n`.
    pub open spec fn of_whole(n: nat) -> Double {
        Double::signed(false, nearest(n * pow2(UNIT_EXPONENT as nat), 1))
    }

    /// The sum, rounded.
    pub open spec fn sum(self, other: Double) -> Double {
        let total = self.rank() + other.rank();
        if self.nan() || other.nan() || self.infinite() && other.infinite() && self.negative()
            != other.negative() {
            Double { bits: QUIET_NAN }
        } else if self.infinite() {
            self
        } else if other.infinite() {
            other
        } else if total == 0 {
            Double::signed(self.negative() && other.negative(), 0)
        } else if total > 0 {
            Double::signed(false, nearest(total as nat, 1))
        } else {
            Double::signed(true, nearest((-total) as nat, 1))
        }
    }

    /// The quotient, rounded.
    pub open spec fn ratio(self, other: Double) -> Double {
        let negative = self.negative() != other.negative();
        if self.nan() || other.nan() || self.infinite() && other.infinite() || self.units() == 0
            && other.units() == 0 {
            Double { bits: QUIET_NAN }
        } else if self.infinite() || other.units() == 0 {
            Double::signed(negative, INFINITY as nat)
        } else if other.infinite() {
            Double::signed(negative, 0)
        } else {
            Double::signed(
                negative,
                nearest(self.units() * pow2(UNIT_EXPONENT as nat), other.units()),
            )
        }
    }

    /// Whether the sign bit is set.
    fn is_negative(self) -> (r: bool)
        ensures
            r == self.negative(),
    {
        self.bits >= SIGN
    }

    /// The encoding without its sign.
    fn size(self) -> (mag: u64)
        ensures
            mag == self.magnitude(),
            mag < SIGN,
    {
        if self.bits >= SIGN {
            self.bits - SIGN
        } else {
            self.bits
        }
    }

    /// Puts a sign on an encoding.
    fn with_sign(negative: bool, mag: u64) -> (r: Double)
        requires
            mag < SIGN,
        ensures
            r == Double::signed(negative, mag as nat),
    {
        if negative {
            Double { bits: mag + SIGN }
        } else {
            Double { bits: mag }
        }
    }

    /// Whether this is not a number.
    pub fn is_nan(self) -> (r: bool)
        ensures
            r == self.nan(),
    {
        self.size() > INFINITY
    }

    /// `self < other`; false where either is a NaN.
    pub fn below(self, other: Double) -> (r: bool)
        ensures
            r == (!self.nan() && !other.nan() && self.rank() < other.rank()),
    {
        let a: u64 = self.size();
        let b: u64 = other.size();
        proof {
            if a < b {
                lemma_units_monotone(a as nat, b as nat);
            } else if b < a {
                lemma_units_monotone(b as nat, a as nat);
            }
            if a > 0 {
                lemma_units_monotone(0, a as nat);
            }
            if b > 0 {
                lemma_units_monotone(0, b as nat);
            }
        }
        if a > INFINITY || b > INFINITY {
            false
        } else if self.is_negative() {
            if other.is_negative() {
                b < a
            } else {
                a > 0 || b > 0
            }
        } else {
            !other.is_negative() && a < b
        }
    }

    /// `self >= other`; false where either is a NaN.
    pub fn at_least(self, other: Double) -> (r: bool)
        ensures
            r == (!self.nan() && !other.nan() && self.rank() >= other.rank()),
    {
        !self.is_nan() && !other.is_nan() && !self.below(other)
    }
}

/// Splits an encoding into a 53-bit mantissa and how often it doubles.
pub fn parts(mag: u64) -> (r: (u64, u32))
    requires
        mag < INFINITY,
    ensures
        units_of(mag as nat) == r.0 * pow2(r.1 as nat),
        r.0 < 0x20_0000_0000_0000,
        r.1 <= 2045,
        r.1 > 0 ==> r.0 >= EXPONENT_STEP,
        mag == r.1 * EXPONENT_STEP + r.0,
        mag > 0 <==> r.0 > 0,
{
    proof {
        vstd::arithmetic::power2::lemma2_to64();
        lemma_fundamental_div_mod(mag as int, EXPONENT_STEP as int);
    }
    if mag < EXPONENT_STEP {
        assert(mag * 1 == mag);
        (mag, 0)
    } else {
        let exp: u64 = mag / EXPONENT_STEP - 1;
        assert((mag as nat / EXPONENT_STEP as nat - 1) as nat == exp as u32 as nat);
        (mag % EXPONENT_STEP + EXPONENT_STEP, exp as u32)
    }
}

proof fn lemma_nearest_whole(num: nat, exp: nat)
    ensures
        nearest_scaled(num, 1, exp as int) == nearest(num * pow2(exp), 1),
{
    lemma_pow2_adds(exp, OFFSET as nat);
    lemma_pow2_pos(OFFSET as nat);
    let p = pow2(exp);
    let o = pow2(OFFSET as nat);
    assert(num * (p * o) == (num * p) * o) by (nonlinear_arith);
    lemma_nearest_scaled(num * p, 1, o);
}

/// A number that differs from a double by less than a quarter of the gap
/// below it rounds back to that double.
proof fn lemma_nearest_close(mantissa: nat, exp: nat, delta: nat, total: nat)
    requires
        EXPONENT_STEP <= mantissa < 0x20_0000_0000_0000,
        2 <= exp <= 2045,
        delta < pow2((exp - 2) as nat),
        total == mantissa * pow2(exp) + delta || total + delta == mantissa * pow2(exp),
    ensures
        nearest(total, 1) == exp * EXPONENT_STEP + mantissa,
{
    let p = pow2(exp);
    let h = pow2((exp - 1) as nat);
    let step = EXPONENT_STEP as nat;
    lemma_pow2_128();
    lemma_pow2_pos(exp);
    lemma_pow2_unfold(exp);
    lemma_pow2_unfold((exp - 1) as nat);
    lemma_pow2_adds(53, exp);
    lemma_pow2_adds(52, exp);
    lemma_pow2_adds(53, (exp - 1) as nat);
    lemma_pow2_adds(52, (exp - 1) as nat);
    assert(4 * delta < p);
    if total == mantissa * p + delta {
        assert(step * p <= total < (2 * step) * p) by (nonlinear_arith)
            requires
                total == mantissa * p + delta,
                step <= mantissa,
                mantissa + 1 <= 2 * step,
                delta < p,
        ;
        lemma_binade(total, 1, exp);
        lemma_fundamental_div_mod_converse(total as int, p as int, mantissa as int, delta as int);
    } else if mantissa > step {
        assert(step * p <= total < (2 * step) * p) by (nonlinear_arith)
            requires
                total == mantissa * p - delta,
                step + 1 <= mantissa,
                mantissa < 2 * step,
                delta < p,
                p > 0,
        ;
        lemma_binade(total, 1, exp);
        assert(total == (mantissa - 1) * p + (p - delta)) by (nonlinear_arith)
            requires
                total == mantissa * p - delta,
        ;
        if delta > 0 {
            lemma_fundamental_div_mod_converse(
                total as int,
                p as int,
                mantissa - 1,
                p - delta,
            );
        } else {
            lemma_fundamental_div_mod_converse(total as int, p as int, mantissa as int, 0);
        }
    } else if delta == 0 {
        assert(step * p <= total < (2 * step) * p) by (nonlinear_arith)
            requires
                total == step * p,
                p > 0,
                step > 0,
        ;
        lemma_binade(total, 1, exp);
        lemma_fundamental_div_mod_converse(total as int, p as int, mantissa as int, 0);
    } else {
        let k = (exp - 1) as nat;
        assert(step * h <= total < (2 * step) * h) by (nonlinear_arith)
            requires
                total == step * p - delta,
                p == 2 * h,
                0 < delta < h,
                step > 1,
        ;
        lemma_binade(total, 1, k);
        assert(total == (2 * step - 1) * h + (h - delta)) by (nonlinear_arith)
            requires
                total == step * p - delta,
                p == 2 * h,
        ;
        lemma_fundamental_div_mod_converse(
            total as int,
            h as int,
            2 * step - 1,
            h - delta,
        );
    }
}

impl Double {
    /// The double nearest to `n`.
    pub fn from_u64(n: u64) -> (r: Double)
        ensures
            r == Double::of_whole(n as nat),
            !r.nan(),
            !r.negative(),
    {
        proof {
            lemma_nearest_whole(n as nat, UNIT_EXPONENT as nat);
        }
        if n == 0 {
            assert(0 * pow2(UNIT_EXPONENT as nat) == 0);
            assert(nearest(0, 1) == 0) by {
                lemma_pow2_128();
                vstd::arithmetic::power2::lemma2_to64();
            }
            Double { bits: 0 }
        } else {
            Double { bits: round(n as u128, 1, UNIT_EXPONENT as i32) }
        }
    }

    /// The sum, rounded to the nearest double.
    pub fn plus(self, other: Double) -> (r: Double)
        ensures
            r == self.sum(other),
    {
        let a: u64 = self.size();
        let b: u64 = other.size();
        if a > INFINITY || b > INFINITY {
            return Double { bits: QUIET_NAN };
        }
        if a == INFINITY {
            if b == INFINITY && self.is_negative() != other.is_negative() {
                return Double { bits: QUIET_NAN };
            }
            return self;
        }
        if b == INFINITY {
            return other;
        }
        if a >= b {
            Double::plus_smaller(self, other)
        } else {
            Double::plus_smaller(other, self)
        }
    }

    /// The sum of two finite doubles, the larger first.
    fn plus_smaller(large: Double, small: Double) -> (r: Double)
        requires
            small.magnitude() <= large.magnitude() < INFINITY,
        ensures
            r == large.sum(small),
    {
        let a: u64 = large.size();
        let b: u64 = small.size();
        let (m, k) = parts(a);
        let (n, l) = parts(b);
        let same: bool = large.is_negative() == small.is_negative();
        proof {
            if b < a {
                lemma_units_monotone(b as nat, a as nat);
            }
            assert(l <= k) by {
                if k < l {
                    assert(k * EXPONENT_STEP + m < (k + 1) * EXPONENT_STEP + EXPONENT_STEP);
                    assert(l * EXPONENT_STEP >= (k + 1) * EXPONENT_STEP);
                }
            }
            lemma_pow2_pos(k as nat);
            lemma_pow2_pos(l as nat);
        }
        let gap: u32 = k - l;
        let ghost total: nat = if same {
            large.units() + small.units()
        } else {
            (large.units() - small.units()) as nat
        };
        if gap > 64 {
            proof {
                lemma_pow2_128();
                let delta = small.units();
                lemma_pow2_adds(53, l as nat);
                assert(n * pow2(l as nat) < 0x20_0000_0000_0000 * pow2(l as nat)) by (nonlinear_arith)
                    requires
                        n < 0x20_0000_0000_0000,
                        pow2(l as nat) > 0,
                ;
                lemma_pow2_strictly_increases((53 + l) as nat, (k - 2) as nat);
                lemma_nearest_close(m as nat, k as nat, delta, total);
                assert(total > 0) by {
                    lemma_units_monotone(b as nat, a as nat);
                    lemma_units_monotone(0, a as nat);
                }
            }
            return Double::with_sign(large.is_negative(), a);
        }
        proof {
            lemma_pow2_128();
            lemma_pow2_adds(gap as nat, l as nat);
            if gap < 64 {
                lemma_pow2_strictly_increases(gap as nat, 64);
            }
            lemma_pow2_pos(gap as nat);
            let g = pow2(gap as nat);
            let p = pow2(l as nat);
            assert(m * (g * p) == (m * g) * p) by (nonlinear_arith);
            assert((m * g) * p + n * p == (m * g + n) * p) by (nonlinear_arith);
            assert((m * g) * p - n * p == (m * g - n) * p) by (nonlinear_arith);
            assert(m * g < 0x20_0000_0000_0000_0000_0000_0000_0000) by (nonlinear_arith)
                requires
                    m < 0x20_0000_0000_0000,
                    0 < g <= 0x1_0000_0000_0000_0000,
            ;
        }
        let shifted: u128 = m as u128 * power_of_two(gap);
        proof {
            let p = pow2(l as nat) as int;
            if !same {
                assert(shifted >= n) by (nonlinear_arith)
                    requires
                        shifted * p >= n * p,
                        p > 0,
                ;
            }
        }
        let num: u128 = if same {
            shifted + n as u128
        } else {
            shifted - n as u128
        };
        assert(total == num * pow2(l as nat));
        proof {
            let p = pow2(l as nat) as int;
            assert((num > 0) == (num * p > 0)) by (nonlinear_arith)
                requires
                    p > 0,
                    num >= 0,
            ;
        }
        if num == 0 {
            return Double::with_sign(large.is_negative() && small.is_negative(), 0);
        }
        proof {
            lemma_nearest_whole(num as nat, l as nat);
        }
        let mag: u64 = round(num, 1, l as i32);
        Double::with_sign(large.is_negative(), mag)
    }

    /// The quotient, rounded to the nearest double.
    pub fn over(self, other: Double) -> (r: Double)
        ensures
            r == self.ratio(other),
    {
        let a: u64 = self.size();
        let b: u64 = other.size();
        let negative: bool = self.is_negative() != other.is_negative();
        proof {
            if a > 0 {
                lemma_units_monotone(0, a as nat);
            }
            if b > 0 {
                lemma_units_monotone(0, b as nat);
            }
        }
        if a > INFINITY || b > INFINITY || a == INFINITY && b == INFINITY || a == 0 && b == 0 {
            return Double { bits: QUIET_NAN };
        }
        if a == INFINITY || b == 0 {
            return Double::with_sign(negative, INFINITY);
        }
        if b == INFINITY {
            return Double::with_sign(negative, 0);
        }
        if a == 0 {
            proof {
                assert(0 * pow2(UNIT_EXPONENT as nat) == 0);
                vstd::arithmetic::power2::lemma2_to64();
                assert(other.units() * 1 == other.units());
            }
            return Double::with_sign(negative, 0);
        }
        let (m, k) = parts(a);
        let (n, l) = parts(b);
        let exp: i32 = k as i32 + UNIT_EXPONENT as i32 - l as i32;
        proof {
            let c = pow2((OFFSET - l) as nat);
            lemma_pow2_pos((OFFSET - l) as nat);
            lemma_pow2_pos(l as nat);
            let x = pow2(k as nat);
            let u = pow2(UNIT_EXPONENT as nat);
            lemma_pow2_adds(k as nat, UNIT_EXPONENT as nat);
            lemma_pow2_adds((k + UNIT_EXPONENT) as nat, (OFFSET - l) as nat);
            lemma_pow2_adds(l as nat, (OFFSET - l) as nat);
            assert((exp + OFFSET) as nat == (k + UNIT_EXPONENT) as nat + (OFFSET - l) as nat);
            assert(((m * x) * u) * c == m * ((x * u) * c)) by (nonlinear_arith);
            let y = pow2(l as nat);
            assert((n * y) * c == n * (y * c)) by (nonlinear_arith);
            lemma_nearest_scaled(self.units() * u, other.units(), c);
        }
        Double::with_sign(negative, round(m as u128, n, exp))
    }
}

/// The encoding that a mantissa and its doublings make up.
proof fn lemma_units_of_parts(mantissa: nat, exp: nat)
    requires
        EXPONENT_STEP <= mantissa < 0x20_0000_0000_0000,
    ensures
        units_of(exp * EXPONENT_STEP as nat + mantissa) == mantissa * pow2(exp),
{
    let step = EXPONENT_STEP as nat;
    let mag = exp * step + mantissa;
    assert(mag == (exp + 1) * step + (mantissa - step)) by (nonlinear_arith)
        requires
            mag == exp * step + mantissa,
    ;
    assert(mag >= step) by (nonlinear_arith)
        requires
            mag == exp * step + mantissa,
            mantissa >= step,
    ;
    lemma_fundamental_div_mod_converse(mag as int, step as int, exp as int + 1, mantissa - step);
}

/// A mantissa shifted by `lead` below the normal range, still exact.
pub proof fn lemma_nearest_exact(mantissa: nat, exp: nat, lead: nat)
    requires
        0 < mantissa < 0x20_0000_0000_0000,
        mantissa * pow2(lead) >= EXPONENT_STEP,
        lead + 2 <= exp <= 2045,
    ensures
        units_of(nearest(mantissa * pow2(exp), 1)) == mantissa * pow2(exp),
        nearest(mantissa * pow2(exp), 1) < INFINITY,
    decreases lead,
{
    if mantissa >= EXPONENT_STEP {
        lemma_pow2_pos((exp - 2) as nat);
        lemma_nearest_close(mantissa, exp, 0, mantissa * pow2(exp));
        lemma_units_of_parts(mantissa, exp);
    } else {
        vstd::arithmetic::power2::lemma2_to64();
        assert(lead > 0) by {
            assert(mantissa * 1 == mantissa);
        }
        lemma_pow2_unfold(lead);
        lemma_pow2_unfold(exp);
        let p = pow2((lead - 1) as nat);
        let o = pow2((exp - 1) as nat);
        assert(mantissa * (2 * p) == (2 * mantissa) * p) by (nonlinear_arith);
        assert(mantissa * (2 * o) == (2 * mantissa) * o) by (nonlinear_arith);
        lemma_nearest_exact(2 * mantissa, (exp - 1) as nat, (lead - 1) as nat);
    }
}

/// What is not zero does not round to zero.
pub proof fn lemma_nearest_positive(num: nat)
    requires
        num > 0,
    ensures
        0 < nearest(num, 1) <= INFINITY,
        units_of(nearest(num, 1)) > 0,
{
    let k = binade(num, 1);
    if k > 0 {
        assert(k * EXPONENT_STEP >= EXPONENT_STEP) by (nonlinear_arith)
            requires
                k > 0,
        ;
    } else {
        vstd::arithmetic::power2::lemma2_to64();
    }
    lemma_units_monotone(0, nearest(num, 1));
}

impl Double {
    /// At least the whole number `n`, and no NaN.
    pub open spec fn reaches(self, n: nat) -> bool {
        !self.nan() && self.rank() >= n * pow2(UNIT_EXPONENT as nat)
    }

    /// Less than the whole number `n`, and no NaN.
    pub open spec fn falls_short(self, n: nat) -> bool {
        !self.nan() && self.rank() < n * pow2(UNIT_EXPONENT as nat)
    }

    /// Greater than zero, and no NaN.
    pub open spec fn positive(self) -> bool {
        !self.nan() && self.rank() > 0
    }

    /// A whole number of at most 53 bits is a double.
    pub proof fn lemma_of_whole(n: nat)
        requires
            n < 0x20_0000_0000_0000,
        ensures
            !Double::of_whole(n).nan(),
            !Double::of_whole(n).infinite(),
            !Double::of_whole(n).negative(),
            Double::of_whole(n).units() == n * pow2(UNIT_EXPONENT as nat),
    {
        lemma_pow2_128();
        if n == 0 {
            assert(0 * pow2(UNIT_EXPONENT as nat) == 0);
            vstd::arithmetic::power2::lemma2_to64();
            assert(nearest(0, 1) == 0);
        } else {
            assert(n * pow2(52) >= EXPONENT_STEP) by (nonlinear_arith)
                requires
                    n >= 1,
                    pow2(52) == EXPONENT_STEP,
            ;
            lemma_nearest_exact(n, UNIT_EXPONENT as nat, 52);
        }
    }

    /// Whether the value is at least `n`.
    pub fn is_at_least(self, n: u64) -> (r: bool)
        requires
            n < 0x20_0000_0000_0000,
        ensures
            r == self.reaches(n as nat),
    {
        proof {
            Double::lemma_of_whole(n as nat);
        }
        self.at_least(Double::from_u64(n))
    }

    /// Whether the value is less than `n`.
    pub fn is_below(self, n: u64) -> (r: bool)
        requires
            n < 0x20_0000_0000_0000,
        ensures
            r == self.falls_short(n as nat),
    {
        proof {
            Double::lemma_of_whole(n as nat);
        }
        self.below(Double::from_u64(n))
    }

    /// Whether the value is greater than zero.
    pub fn is_positive(self) -> (r: bool)
        ensures
            r == self.positive(),
    {
        Double { bits: 0 }.below(self)
    }
}

pub proof fn lemma_binade_bound(num: nat, den: nat, k: nat)
    requires
        den > 0,
        num < den * pow2(53 + k),
    ensures
        binade(num, den) <= k,
        num < den * pow2(53 + binade(num, den)),
    decreases k,
{
    lemma_pow2_128();
    if num < den * 0x20_0000_0000_0000 {
    } else {
        assert(k > 0);
        lemma_pow2_unfold(53 + k);
        let p = pow2((52 + k) as nat);
        assert(den * (2 * p) == (2 * den) * p) by (nonlinear_arith);
        assert((53 + (k - 1)) as nat == (52 + k) as nat);
        lemma_binade_bound(num, 2 * den, (k - 1) as nat);
        let b = binade(num, 2 * den);
        lemma_pow2_unfold(53 + (1 + b));
        let o = pow2(53 + b);
        assert(den * (2 * o) == (2 * den) * o) by (nonlinear_arith);
    }
}

impl Double {
    /// No 64-bit whole number is too large for a double.
    pub proof fn lemma_of_whole_finite(n: nat)
        requires
            n < 0x1_0000_0000_0000_0000,
        ensures
            !Double::of_whole(n).nan(),
            !Double::of_whole(n).infinite(),
            !Double::of_whole(n).negative(),
    {
        let num = n * pow2(UNIT_EXPONENT as nat);
        let u = pow2(UNIT_EXPONENT as nat);
        lemma_pow2_128();
        lemma_pow2_pos(UNIT_EXPONENT as nat);
        lemma_pow2_adds(64, UNIT_EXPONENT as nat);
        assert(num < 0x1_0000_0000_0000_0000 * u) by (nonlinear_arith)
            requires
                n < 0x1_0000_0000_0000_0000,
                num == n * u,
                u > 0,
        ;
        lemma_binade_bound(num, 1, 1085);
        let k = binade(num, 1);
        let p = pow2(k);
        lemma_pow2_pos(k);
        lemma_pow2_adds(53, k);
        lemma_fundamental_div_mod(num as int, p as int);
        assert(num / p < 0x20_0000_0000_0000) by (nonlinear_arith)
            requires
                num == p * (num / p) + num % p,
                num % p >= 0,
                num < 0x20_0000_0000_0000 * p,
                p > 0,
        ;
        assert(half_even(num, p) <= 0x20_0000_0000_0000);
    }

    /// A count over a positive time is no NaN and not negative, and neither
    /// is the sum of two such rates.
    pub proof fn lemma_rates_comparable(a: nat, b: nat, elapsed: Double)
        requires
            a < 0x1_0000_0000_0000_0000,
            b < 0x1_0000_0000_0000_0000,
            elapsed.positive(),
        ensures
            !Double::of_whole(a).ratio(elapsed).sum(Double::of_whole(b).ratio(elapsed)).nan(),
            !Double::of_whole(a).ratio(elapsed).negative(),
            !Double::of_whole(b).ratio(elapsed).negative(),
    {
        Double::lemma_of_whole_finite(a);
        Double::lemma_of_whole_finite(b);
    }
}

} // verus!
