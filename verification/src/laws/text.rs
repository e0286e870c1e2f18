//! What text promises: numbers that read back, columns that are filled, and
//! cuts that lose nothing but what is cut.
use vstd::arithmetic::div_mod::lemma_fundamental_div_mod;
use vstd::arithmetic::power::pow;
use vstd::arithmetic::power2::{lemma_pow2_pos, pow2};
use vstd::prelude::*;

use crate::binary64::{half_even, Double, UNIT_EXPONENT};
use crate::fixed::right_aligned;
use crate::text::{clipped, decimal, digit, low_digits, power_of_ten, repeated};
use crate::ui::format::{left_column, right_column};

verus! {

/// The number that decimal digits spell, the highest first.
pub open spec fn reads(text: Seq<char>) -> nat
    decreases text.len(),
{
    if text.len() == 0 {
        0
    } else {
        (10 * reads(text.drop_last()) + (text.last() as int - 48)) as nat
    }
}

/// Every character is a decimal digit.
pub open spec fn is_figure(text: Seq<char>) -> bool {
    forall|i: int| 0 <= i < text.len() ==> 48 <= (#[trigger] text[i]) as int <= 57
}

proof fn lemma_digit(d: nat)
    requires
        d < 10,
    ensures
        digit(d) as int == 48 + d,
{
}

/// A number is spelled in digits that read back as that number, without a
/// zero in front.
pub proof fn law_numbers_read_back(n: nat)
    ensures
        reads(decimal(n)) == n,
        is_figure(decimal(n)),
        decimal(n).len() > 0,
        decimal(n).len() > 1 ==> decimal(n)[0] != '0',
    decreases n,
{
    lemma_digit(n % 10);
    if n < 10 {
        assert(decimal(n).drop_last() =~= seq![]);
        assert(reads(decimal(n).drop_last()) == 0);
    } else {
        law_numbers_read_back(n / 10);
        assert(decimal(n).drop_last() =~= decimal(n / 10));
        lemma_digit((n / 10) % 10);
        assert(decimal(n)[0] == decimal(n / 10)[0]);
        if decimal(n / 10).len() == 1 {
            assert(reads(decimal(n / 10).drop_last()) == 0) by {
                assert(decimal(n / 10).drop_last() =~= seq![]);
            }
            assert(decimal(n / 10)[0] as int == 48 + n / 10);
        }
    }
}

/// Digits that are kept to a number of places read back as what is left of
/// the number there.
pub proof fn law_low_digits_read_back(n: nat, places: nat)
    ensures
        low_digits(n, places).len() == places,
        is_figure(low_digits(n, places)),
        reads(low_digits(n, places)) == n % power_of_ten(places),
        power_of_ten(places) == pow(10, places),
        power_of_ten(places) > 0,
    decreases places,
{
    reveal(pow);
    if places == 0 {
        assert(n % 1 == 0);
    } else {
        let o = power_of_ten((places - 1) as nat);
        law_low_digits_read_back(n / 10, (places - 1) as nat);
        lemma_digit(n % 10);
        let text = low_digits(n, places);
        assert(text.drop_last() =~= low_digits(n / 10, (places - 1) as nat));
        let m = (n / 10) % o;
        let q = (n / 10) / o;
        lemma_fundamental_div_mod((n / 10) as int, o as int);
        assert(n == (10 * o) * q + (10 * m + n % 10)) by (nonlinear_arith)
            requires
                n == 10 * (n / 10) + n % 10,
                n / 10 == o * q + m,
        ;
        assert(10 * m + n % 10 < 10 * o);
        assert(q * (10 * o) == (10 * o) * q) by (nonlinear_arith);
        vstd::arithmetic::div_mod::lemma_fundamental_div_mod_converse(
            n as int,
            (10 * o) as int,
            q as int,
            (10 * m + n % 10) as int,
        );
    }
}

/// Rounding to a whole number goes to the nearest one, and to the even one of
/// two that are as near.
pub proof fn law_rounding_goes_to_the_nearest(num: nat, den: nat)
    requires
        den > 0,
    ensures
        ({
            let whole = half_even(num, den);
            let off = num as int - den * whole;
            &&& -(den as int) <= 2 * off <= den
            &&& 2 * off == den || 2 * off == -(den as int) ==> whole % 2 == 0
        }),
{
    let q = num / den;
    lemma_fundamental_div_mod(num as int, den as int);
    assert(den * (q + 1) == den * q + den) by (nonlinear_arith);
}

/// A finite double in decimal is its sign, a whole figure and, behind a
/// point, as many digits as were asked for. Read without the point, they are
/// the value in that many places, rounded to the nearest, ties to even.
pub proof fn law_doubles_are_shown_to_the_nearest_place(d: Double, places: nat) -> (shown: nat)
    requires
        !d.nan(),
        !d.infinite(),
    ensures
        ({
            let unit = pow2(UNIT_EXPONENT as nat);
            let scale = pow(10, places) as nat;
            let off = d.units() * scale - shown * unit;
            let sign = if d.bits >= 0x8000_0000_0000_0000 {
                seq!['-']
            } else {
                seq![]
            };
            &&& -unit <= 2 * off <= unit
            &&& 2 * off == unit || 2 * off == -unit ==> shown % 2 == 0
            &&& places == 0 ==> d.fixed(places) == sign + decimal(shown)
            &&& places > 0 ==> exists|below: Seq<char>|
                below.len() == places && is_figure(below) && #[trigger] reads(below) == shown % scale
                    && d.fixed(places) == sign + decimal(shown / scale) + seq!['.'] + below
        }),
{
    let unit = pow2(UNIT_EXPONENT as nat);
    let shown = d.scaled_whole(places);
    lemma_pow2_pos(UNIT_EXPONENT as nat);
    law_low_digits_read_back(shown, places);
    law_rounding_goes_to_the_nearest(d.units() * power_of_ten(places), unit);
    reveal_strlit("-");
    reveal_strlit("");
    let sign = if d.bits >= 0x8000_0000_0000_0000 {
        seq!['-']
    } else {
        seq![]
    };
    assert(sign =~= (if d.negative() {
        "-"@
    } else {
        ""@
    }));
    assert(unit * shown == shown * unit) by (nonlinear_arith);
    if places > 0 {
        let below = low_digits(shown, places);
        assert(d.fixed(places) =~= sign + decimal(shown / power_of_ten(places)) + seq!['.'] + below);
    }
    shown
}

/// What is no number and what has no bound are named, not counted.
pub proof fn law_doubles_without_a_figure_are_named(d: Double, places: nat)
    ensures
        d.nan() ==> d.fixed(places) == seq!['N', 'a', 'N'],
        d.bits == 0x7FF0_0000_0000_0000 ==> d.fixed(places) == seq!['i', 'n', 'f'],
        d.bits == 0xFFF0_0000_0000_0000 ==> d.fixed(places) == seq!['-', 'i', 'n', 'f'],
{
    reveal_strlit("NaN");
    reveal_strlit("inf");
    reveal_strlit("-");
    reveal_strlit("");
    assert("NaN"@ =~= seq!['N', 'a', 'N']);
    assert(""@ + "inf"@ =~= seq!['i', 'n', 'f']);
    assert("-"@ + "inf"@ =~= seq!['-', 'i', 'n', 'f']);
}

/// Clipped text is the front of the text, as much of it as there is room for.
pub proof fn law_clipped_text_is_the_front(s: Seq<char>, n: nat)
    ensures
        clipped(s, n).is_prefix_of(s),
        clipped(s, n).len() == if s.len() < n {
            s.len()
        } else {
            n
        },
{
    if s.len() <= n {
        assert(clipped(s, n) =~= s.take(s.len() as int));
    }
}

/// Text in a column fills it exactly. Text that fits stands at its edge with
/// nothing but spaces beside it, and text that does not loses its end.
pub proof fn law_columns_are_filled(s: Seq<char>, n: nat, i: int)
    requires
        0 <= i < n,
    ensures
        left_column(s, n).len() == n,
        right_column(s, n).len() == n,
        left_column(s, n)[i] == (if i < s.len() {
            s[i]
        } else {
            ' '
        }),
        s.len() >= n ==> right_column(s, n)[i] == s[i],
        s.len() < n ==> right_column(s, n)[i] == (if i < n - s.len() {
            ' '
        } else {
            s[i - (n - s.len())]
        }),
{
}

/// A figure that is moved right keeps its end, and only spaces stand before
/// it.
pub proof fn law_aligned_text_keeps_its_end(s: Seq<char>, n: nat, i: int)
    requires
        0 <= i < right_aligned(s, n).len(),
    ensures
        right_aligned(s, n).len() == (if s.len() < n {
            n
        } else {
            s.len()
        }),
        right_aligned(s, n)[i] == (if i < n - s.len() {
            ' '
        } else if s.len() < n {
            s[i - (n - s.len())]
        } else {
            s[i]
        }),
{
}

/// A repeated character is there as often as was asked for, and nothing else
/// is.
pub proof fn law_repeated_is_all_one(c: char, n: nat, i: int)
    requires
        0 <= i < n,
    ensures
        repeated(c, n).len() == n,
        repeated(c, n)[i] == c,
{
}

} // verus!
