//! Doubles in decimal, with a fixed number of digits behind the point.
use vstd::arithmetic::div_mod::{lemma_fundamental_div_mod, lemma_fundamental_div_mod_converse};
use vstd::arithmetic::power2::{lemma_pow2_adds, lemma_pow2_pos, lemma_pow2_strictly_increases, lemma_pow2_unfold, pow2};
use vstd::prelude::*;

use crate::binary64::{half_even, parts, Double, INFINITY, SIGN, UNIT_EXPONENT};
use crate::text::{are_digits, decimal, digits_value, fixed_point, low_digits, power_of_ten, push_decimal, push_digits, push_low_digits, push_repeated, repeated, double_digits};

verus! {

impl Double {
    /// The value times `10^places` as a whole number, ties to even.
    pub open spec fn scaled_whole(self, places: nat) -> nat {
        half_even(self.units() * power_of_ten(places), pow2(UNIT_EXPONENT as nat))
    }

    /// The value in decimal, rounded to `places` digits behind the point,
    /// ties to even.
    pub open spec fn fixed(self, places: nat) -> Seq<char> {
        let sign = if self.negative() {
            "-"@
        } else {
            ""@
        };
        if self.nan() {
            "NaN"@
        } else if self.infinite() {
            sign + "inf"@
        } else {
            sign + fixed_point(self.scaled_whole(places), places)
        }
    }
}

/// `text`, moved right by spaces until it is `width` wide.
pub open spec fn right_aligned(text: Seq<char>, width: nat) -> Seq<char> {
    if text.len() >= width {
        text
    } else {
        repeated(' ', (width - text.len()) as nat) + text
    }
}

/// Moves `text` right by spaces until it is `width` wide.
pub fn align_right(text: &str, width: usize) -> (r: String)
    ensures
        r@ == right_aligned(text@, width as nat),
{
    let len: usize = text.unicode_len();
    if len >= width {
        text.to_owned()
    } else {
        let mut out: String = String::new();
        push_repeated(&mut out, ' ', width - len);
        out.append(text);
        assert(out@ =~= right_aligned(text@, width as nat));
        out
    }
}

proof fn lemma_low_digits_of_multiple(n: nat, places: nat)
    ensures
        (n * power_of_ten(places)) / power_of_ten(places) == n,
        power_of_ten(places) > 0,
        low_digits(n * power_of_ten(places), places) == repeated('0', places),
    decreases places,
{
    let p = power_of_ten(places);
    if places == 0 {
        assert(n * 1 == n);
        assert(low_digits(n * p, places) =~= repeated('0', places));
    } else {
        let o = power_of_ten((places - 1) as nat);
        lemma_low_digits_of_multiple(n, (places - 1) as nat);
        assert(n * (10 * o) == 10 * (n * o)) by (nonlinear_arith);
        assert((n * p) / 10 == n * o);
        assert((n * p) % 10 == 0);
        assert(low_digits(n * p, places) =~= repeated('0', places));
        lemma_fundamental_div_mod_converse((n * p) as int, p as int, n as int, 0);
    }
}

proof fn lemma_half_even_exact(n: nat, den: nat)
    requires
        den > 0,
    ensures
        half_even(n * den, den) == n,
{
    lemma_fundamental_div_mod_converse((n * den) as int, den as int, n as int, 0);
}

/// The digits of `m * 2^doublings`, the lowest first.
fn big_digits(m: u64, doublings: u32) -> (r: Vec<u8>)
    requires
        m > 0,
    ensures
        are_digits(r@),
        digits_value(r@) == m * pow2(doublings as nat),
{
    let mut digits: Vec<u8> = digits_of(m);
    let mut i: u32 = 0;
    proof {
        vstd::arithmetic::power2::lemma2_to64();
        assert(m * 1 == m);
    }
    while i < doublings
        invariant
            i <= doublings,
            are_digits(digits@),
            digits_value(digits@) == m * pow2(i as nat),
        decreases doublings - i,
    {
        proof {
            lemma_pow2_unfold((i + 1) as nat);
            let p = pow2(i as nat) as int;
            assert(2 * (m * p) == m * (2 * p)) by (nonlinear_arith);
        }
        digits = double_digits(&digits);
        i = i + 1;
    }
    digits
}

/// The digits of `n`, the lowest first.
fn digits_of(n: u64) -> (r: Vec<u8>)
    requires
        n > 0,
    ensures
        are_digits(r@),
        r@.last() > 0,
        digits_value(r@) == n,
    decreases n,
{
    let low: u8 = (n % 10) as u8;
    if n < 10 {
        let mut r: Vec<u8> = Vec::new();
        r.push(low);
        assert(r@.drop_first() =~= seq![]);
        assert(digits_value(r@.drop_first()) == 0);
        r
    } else {
        let rest: Vec<u8> = digits_of(n / 10);
        let mut r: Vec<u8> = rest;
        let ghost high = r@;
        r.insert(0, low);
        assert(r@.drop_first() =~= high);
        assert(r@.last() == high.last());
        assert forall|i: int| 0 <= i < r@.len() implies r@[i] < 10 by {
            if i > 0 {
                assert(r@[i] == high[i - 1]);
            }
        }
        r
    }
}

impl Double {
    /// The value in decimal, rounded to `places` digits behind the point.
    pub fn to_fixed(self, places: u32) -> (r: String)
        requires
            places <= 2,
        ensures
            r@ == self.fixed(places as nat),
    {
        if self.is_nan() {
            return "NaN".to_owned();
        }
        let negative: bool = self.bits >= SIGN;
        let mag: u64 = if negative {
            self.bits - SIGN
        } else {
            self.bits
        };
        let mut out: String = if negative {
            "-".to_owned()
        } else {
            "".to_owned()
        };
        let ghost sign = out@;
        if mag == INFINITY {
            out.append("inf");
            return out;
        }
        let (m, k) = parts(mag);
        let ghost unit = pow2(UNIT_EXPONENT as nat);
        let ghost ten = power_of_ten(places as nat);
        proof {
            lemma_pow2_pos(UNIT_EXPONENT as nat);
            reveal_with_fuel(power_of_ten, 3);
        }
        if k >= UNIT_EXPONENT {
            let digits: Vec<u8> = big_digits(m, k - UNIT_EXPONENT);
            push_digits(&mut out, &digits);
            proof {
                let v = digits_value(digits@);
                let w = pow2((k - UNIT_EXPONENT) as nat);
                lemma_pow2_adds((k - UNIT_EXPONENT) as nat, UNIT_EXPONENT as nat);
                assert((m * (w * unit)) * ten == ((m * w) * ten) * unit) by (nonlinear_arith);
                lemma_half_even_exact(v * ten, unit);
                lemma_low_digits_of_multiple(v, places as nat);
                assert(v * 1 == v);
            }
            if places > 0 {
                out.push('.');
                push_repeated(&mut out, '0', places as usize);
            }
            assert(out@ =~= self.fixed(places as nat));
            return out;
        }
        let below: u32 = UNIT_EXPONENT - k;
        let scale: u64 = if places == 0 {
            1
        } else if places == 1 {
            10
        } else {
            100
        };
        assert(m * scale < 0x4000_0000_0000_0000) by (nonlinear_arith)
            requires
                m < 0x20_0000_0000_0000,
                scale <= 100,
        ;
        let whole: u64 = shrink(m * scale, below);
        proof {
            lemma_pow2_adds(below as nat, k as nat);
            let p = pow2(k as nat);
            lemma_pow2_pos(k as nat);
            lemma_pow2_pos(below as nat);
            assert((m * p) * ten == (m * scale) * p) by (nonlinear_arith)
                requires
                    ten == scale,
            ;
            crate::binary64::lemma_half_even_scaled((m * scale) as nat, pow2(below as nat), p);
        }
        if places == 0 {
            push_decimal(&mut out, whole);
        } else {
            push_decimal(&mut out, whole / scale);
            out.push('.');
            push_low_digits(&mut out, whole, places);
        }
        assert(out@ =~= self.fixed(places as nat));
        out
    }
}

/// `n / 2^exp` as a whole number, ties to even.
fn shrink(n: u64, exp: u32) -> (r: u64)
    requires
        n < 0x4000_0000_0000_0000,
        exp > 0,
    ensures
        r == half_even(n as nat, pow2(exp as nat)),
{
    proof {
        vstd::arithmetic::power2::lemma2_to64();
        vstd::arithmetic::power2::lemma2_to64_rest();
    }
    if exp >= 64 {
        proof {
            if exp > 64 {
                lemma_pow2_strictly_increases(64, exp as nat);
            }
            lemma_fundamental_div_mod_converse(n as int, pow2(exp as nat) as int, 0, n as int);
        }
        return 0;
    }
    let p: u128 = crate::binary64::power_of_two(exp);
    proof {
        lemma_pow2_pos(exp as nat);
        lemma_fundamental_div_mod(n as int, p as int);
        assert(n as u128 / p <= n) by (nonlinear_arith)
            requires
                p >= 1,
        ;
        if exp < 64 {
            lemma_pow2_strictly_increases(exp as nat, 64);
        }
    }
    let q: u64 = (n as u128 / p) as u64;
    let twice: u128 = 2 * (n as u128 % p);
    if twice < p {
        q
    } else if twice > p {
        q + 1
    } else {
        q + q % 2
    }
}

} // verus!
