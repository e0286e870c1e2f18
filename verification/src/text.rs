//! Text made of whole numbers, repeated characters and clipped strings.
use vstd::prelude::*;

verus! {

/// `String::push` puts one character at the end.
pub assume_specification[ String::push ](s: &mut String, c: char)
    ensures
        final(s)@ == old(s)@.push(c),
;

/// The decimal digit for `d`.
pub open spec fn digit(d: nat) -> char {
    if d == 0 {
        '0'
    } else if d == 1 {
        '1'
    } else if d == 2 {
        '2'
    } else if d == 3 {
        '3'
    } else if d == 4 {
        '4'
    } else if d == 5 {
        '5'
    } else if d == 6 {
        '6'
    } else if d == 7 {
        '7'
    } else if d == 8 {
        '8'
    } else {
        '9'
    }
}

/// `n` in decimal, without leading zeros.
pub open spec fn decimal(n: nat) -> Seq<char>
    decreases n,
{
    if n < 10 {
        seq![digit(n)]
    } else {
        decimal(n / 10).push(digit(n % 10))
    }
}

/// The lowest `places` decimal digits of `n`.
pub open spec fn low_digits(n: nat, places: nat) -> Seq<char>
    decreases places,
{
    if places == 0 {
        seq![]
    } else {
        low_digits(n / 10, (places - 1) as nat).push(digit(n % 10))
    }
}

/// Ten to the power `places`.
pub open spec fn power_of_ten(places: nat) -> nat
    decreases places,
{
    if places == 0 {
        1
    } else {
        10 * power_of_ten((places - 1) as nat)
    }
}

/// `n / 10^places` with `places` digits behind the point, and no point where
/// `places` is zero.
pub open spec fn fixed_point(n: nat, places: nat) -> Seq<char> {
    if places == 0 {
        decimal(n)
    } else {
        decimal(n / power_of_ten(places)) + seq!['.'] + low_digits(n, places)
    }
}

/// `n` copies of `c`.
pub open spec fn repeated(c: char, n: nat) -> Seq<char> {
    Seq::new(n, |i: int| c)
}

/// The first `n` characters of `s`, or all of it.
pub open spec fn clipped(s: Seq<char>, n: nat) -> Seq<char> {
    if s.len() <= n {
        s
    } else {
        s.take(n as int)
    }
}

/// The decimal digit for `d`.
pub fn digit_char(d: u8) -> (c: char)
    requires
        d < 10,
    ensures
        c == digit(d as nat),
{
    if d == 0 {
        '0'
    } else if d == 1 {
        '1'
    } else if d == 2 {
        '2'
    } else if d == 3 {
        '3'
    } else if d == 4 {
        '4'
    } else if d == 5 {
        '5'
    } else if d == 6 {
        '6'
    } else if d == 7 {
        '7'
    } else if d == 8 {
        '8'
    } else {
        '9'
    }
}

/// Appends `n` in decimal.
pub fn push_decimal(out: &mut String, n: u64)
    ensures
        final(out)@ == old(out)@ + decimal(n as nat),
    decreases n,
{
    if n >= 10 {
        push_decimal(out, n / 10);
    }
    out.push(digit_char((n % 10) as u8));
    assert(out@ =~= old(out)@ + decimal(n as nat));
}

/// `n` in decimal.
pub fn decimal_text(n: u64) -> (r: String)
    ensures
        r@ == decimal(n as nat),
{
    let mut out: String = String::new();
    push_decimal(&mut out, n);
    assert(out@ =~= decimal(n as nat));
    out
}

/// Appends the lowest `places` decimal digits of `n`.
pub fn push_low_digits(out: &mut String, n: u64, places: u32)
    ensures
        final(out)@ == old(out)@ + low_digits(n as nat, places as nat),
    decreases places,
{
    if places > 0 {
        push_low_digits(out, n / 10, places - 1);
        out.push(digit_char((n % 10) as u8));
    }
    assert(out@ =~= old(out)@ + low_digits(n as nat, places as nat));
}

/// Appends `n` copies of `c`.
pub fn push_repeated(out: &mut String, c: char, n: usize)
    ensures
        final(out)@ == old(out)@ + repeated(c, n as nat),
{
    let ghost before = out@;
    let mut i: usize = 0;
    assert(out@ =~= before + repeated(c, 0));
    while i < n
        invariant
            i <= n,
            out@ == before + repeated(c, i as nat),
        decreases n - i,
    {
        out.push(c);
        i = i + 1;
        assert(out@ =~= before + repeated(c, i as nat));
    }
}

/// The first `n` characters of `s`, or all of it.
pub fn clip(s: &str, n: usize) -> (r: String)
    ensures
        r@ == clipped(s@, n as nat),
{
    if s.unicode_len() <= n {
        s.to_owned()
    } else {
        let r: String = s.substring_char(0, n).to_owned();
        assert(r@ =~= clipped(s@, n as nat));
        r
    }
}

/// The number that little-endian decimal digits stand for.
pub open spec fn digits_value(digits: Seq<u8>) -> nat
    decreases digits.len(),
{
    if digits.len() == 0 {
        0
    } else {
        digits[0] as nat + 10 * digits_value(digits.drop_first())
    }
}

/// Each entry is a digit, and the highest one is no leading zero.
pub open spec fn are_digits(digits: Seq<u8>) -> bool {
    &&& digits.len() > 0
    &&& digits.len() > 1 ==> digits.last() > 0
    &&& forall|i: int| 0 <= i < digits.len() ==> digits[i] < 10
}

proof fn lemma_digits_positive(digits: Seq<u8>)
    requires
        are_digits(digits),
        digits.last() > 0,
    ensures
        digits_value(digits) > 0,
    decreases digits.len(),
{
    if digits.len() > 1 {
        assert(digits.drop_first().last() == digits.last());
        lemma_digits_positive(digits.drop_first());
    }
}

/// Appends digits, the highest first.
pub fn push_digits(out: &mut String, digits: &Vec<u8>)
    requires
        are_digits(digits@),
    ensures
        final(out)@ == old(out)@ + decimal(digits_value(digits@)),
{
    let ghost before = out@;
    let mut i: usize = digits.len();
    let ghost whole = digits@;
    assert(whole.skip(whole.len() as int) =~= seq![]);
    while i > 0
        invariant
            i <= digits.len(),
            digits@ == whole,
            are_digits(whole),
            i < digits.len() ==> out@ == before + decimal(digits_value(whole.skip(i as int))),
            i == digits.len() ==> out@ == before,
        decreases i,
    {
        i = i - 1;
        out.push(digit_char(digits[i]));
        proof {
            let now = whole.skip(i as int);
            let rest = whole.skip(i + 1);
            assert(now.drop_first() =~= rest);
            assert(now[0] == whole[i as int]);
            if i + 1 < digits.len() {
                assert(rest.last() == whole.last());
                lemma_digits_positive(rest);
                assert(digits_value(now) / 10 == digits_value(rest));
                assert(digits_value(now) % 10 == now[0]);
            } else {
                assert(rest =~= seq![]);
                assert(digits_value(rest) == 0);
            }
            assert(out@ =~= before + decimal(digits_value(now)));
        }
    }
    assert(whole.skip(0) =~= whole);
}

proof fn lemma_digits_push(digits: Seq<u8>, d: u8)
    ensures
        digits_value(digits.push(d)) == digits_value(digits) + power_of_ten(digits.len()) * d,
    decreases digits.len(),
{
    let longer = digits.push(d);
    if digits.len() == 0 {
        assert(longer.drop_first() =~= seq![]);
        assert(digits_value(longer.drop_first()) == 0);
        assert(power_of_ten(0) * d == d) by (nonlinear_arith)
            requires
                power_of_ten(0) == 1,
        ;
    } else {
        assert(longer.drop_first() =~= digits.drop_first().push(d));
        lemma_digits_push(digits.drop_first(), d);
        let p = power_of_ten((digits.len() - 1) as nat);
        assert(10 * (p * d) == (10 * p) * d) by (nonlinear_arith);
    }
}

/// Twice the number.
pub fn double_digits(digits: &Vec<u8>) -> (r: Vec<u8>)
    requires
        are_digits(digits@),
    ensures
        are_digits(r@),
        digits_value(r@) == 2 * digits_value(digits@),
{
    let mut out: Vec<u8> = Vec::new();
    let mut carry: u8 = 0;
    let mut i: usize = 0;
    assert(digits@.skip(0) =~= digits@);
    assert(power_of_ten(0) * (2 * digits_value(digits@)) == 2 * digits_value(digits@))
        by (nonlinear_arith)
        requires
            power_of_ten(0) == 1,
    ;
    while i < digits.len()
        invariant
            i <= digits.len(),
            are_digits(digits@),
            out.len() == i,
            carry <= 1,
            forall|j: int| 0 <= j < i ==> out[j] < 10,
            i > 0 && i == digits.len() && i > 1 ==> out@.last() > 0 || carry > 0,
            digits_value(out@) + power_of_ten(i as nat) * (carry + 2 * digits_value(
                digits@.skip(i as int),
            )) == 2 * digits_value(digits@),
        decreases digits.len() - i,
    {
        let d: u8 = digits[i] * 2 + carry;
        let ghost before = out@;
        proof {
            let rest = digits@.skip(i as int);
            let next = digits@.skip(i + 1);
            assert(rest.drop_first() =~= next);
            let low = (d % 10) as int;
            let high = (d / 10) as int;
            let p = power_of_ten(i as nat) as int;
            let v = digits_value(next) as int;
            lemma_digits_push(before, (d % 10) as u8);
            assert(d == 10 * high + low);
            assert(p * (carry + 2 * (digits[i as int] + 10 * v)) == p * low + (10 * p) * (high + 2
                * v)) by (nonlinear_arith)
                requires
                    digits[i as int] * 2 + carry == 10 * high + low,
            ;
        }
        out.push(d % 10);
        carry = d / 10;
        i = i + 1;
    }
    assert(digits@.skip(i as int) =~= seq![]);
    assert(digits_value(digits@.skip(i as int)) == 0);
    assert(carry == 0 ==> power_of_ten(i as nat) * (carry + 0) == 0) by (nonlinear_arith);
    if carry > 0 {
        proof {
            lemma_digits_push(out@, carry);
        }
        out.push(carry);
    }
    out
}

} // verus!
