//! Sizes, rates and columns as text, and the colours of a usage bar.
use vstd::arithmetic::power2::{lemma_pow2_pos, pow2};
use vstd::prelude::*;

use crate::binary64::{Double, UNIT_EXPONENT};
use crate::fixed::{align_right, right_aligned};
use crate::text::{clip, decimal, decimal_text, power_of_ten, push_repeated, repeated};
use crate::ui::paint::Color;

verus! {

pub const TB: u64 = 1_000_000_000_000;

pub const GB: u64 = 1_000_000_000;

pub const MB: u64 = 1_000_000;

pub const KB: u64 = 1_000;

/// `b / unit` as a double, with `places` digits behind the point.
pub open spec fn size_in(b: u64, unit: u64, places: nat) -> Seq<char> {
    Double::of_whole(b as nat).ratio(Double::of_whole(unit as nat)).fixed(places)
}

/// A size in bytes, in the largest decimal unit that it fills.
pub open spec fn size_text(b: u64) -> Seq<char> {
    if b >= TB {
        size_in(b, TB, 1) + " TB"@
    } else if b >= GB {
        size_in(b, GB, 0) + " GB"@
    } else if b >= MB {
        size_in(b, MB, 0) + " MB"@
    } else if b >= KB {
        size_in(b, KB, 0) + " KB"@
    } else {
        decimal(b as nat) + " B"@
    }
}

fn size_over(b: u64, unit: u64, places: u32) -> (r: String)
    requires
        places <= 2,
    ensures
        r@ == size_in(b, unit, places as nat),
{
    Double::from_u64(b).over(Double::from_u64(unit)).to_fixed(places)
}

/// Decimal-byte formatter (TB / GB / MB / KB / B): drives use base 10, not
/// base 2.
pub fn fmt_size(b: u64) -> (r: String)
    ensures
        r@ == size_text(b),
{
    if b >= TB {
        size_over(b, TB, 1).concat(" TB")
    } else if b >= GB {
        size_over(b, GB, 0).concat(" GB")
    } else if b >= MB {
        size_over(b, MB, 0).concat(" MB")
    } else if b >= KB {
        size_over(b, KB, 0).concat(" KB")
    } else {
        decimal_text(b).concat(" B")
    }
}

/// `bps / unit`, with `places` digits behind the point.
pub open spec fn rate_in(bps: Double, unit: nat, places: nat) -> Seq<char> {
    bps.ratio(Double::of_whole(unit)).fixed(places)
}

/// How wide a rate in a column is.
pub const RATE_W: usize = 10;

/// How wide its figure is.
pub const FIGURE_W: usize = 5;

/// The largest unit, counted in steps of a thousand.
pub const LAST_STEP: u32 = 6;

/// A thousand to the power `step`, up to the largest unit.
pub open spec fn unit_size(step: nat) -> nat {
    if step <= 1 {
        1_000
    } else if step == 2 {
        1_000_000
    } else if step == 3 {
        1_000_000_000
    } else if step == 4 {
        1_000_000_000_000
    } else if step == 5 {
        1_000_000_000_000_000
    } else {
        1_000_000_000_000_000_000
    }
}

/// The name of that unit.
pub open spec fn unit_name(step: nat) -> Seq<char> {
    if step <= 1 {
        " KB/s"@
    } else if step == 2 {
        " MB/s"@
    } else if step == 3 {
        " GB/s"@
    } else if step == 4 {
        " TB/s"@
    } else if step == 5 {
        " PB/s"@
    } else {
        " EB/s"@
    }
}

/// A rate in the first unit from `step` on whose figure fits its column.
/// What is too large for the largest unit is only said to be more.
pub open spec fn scaled_rate(bps: Double, step: nat) -> Seq<char>
    decreases LAST_STEP - step,
{
    let figure = rate_in(bps, unit_size(step), 1);
    if figure.len() <= FIGURE_W {
        right_aligned(figure, FIGURE_W as nat) + unit_name(step)
    } else if step < LAST_STEP {
        scaled_rate(bps, step + 1)
    } else {
        " >999 EB/s"@
    }
}

/// A rate in a column of its own.
pub open spec fn rate_text(bps: Double) -> Seq<char> {
    if bps.falls_short(1) {
        "   --     "@
    } else if bps.reaches(1_000_000) {
        scaled_rate(bps, 2)
    } else if bps.reaches(1_000) {
        scaled_rate(bps, 1)
    } else {
        right_aligned(bps.fixed(0), FIGURE_W as nat) + "  B/s"@
    }
}

/// A number below ten thousand has at most four digits.
proof fn lemma_short_decimal(n: nat)
    requires
        n < 10_000,
    ensures
        decimal(n).len() <= 4,
{
    reveal_with_fuel(decimal, 5);
}

/// Every unit is as wide as the others.
proof fn lemma_scaled_width(bps: Double, step: nat)
    ensures
        scaled_rate(bps, step).len() == RATE_W,
    decreases LAST_STEP - step,
{
    reveal_strlit(" KB/s");
    reveal_strlit(" MB/s");
    reveal_strlit(" GB/s");
    reveal_strlit(" TB/s");
    reveal_strlit(" PB/s");
    reveal_strlit(" EB/s");
    reveal_strlit(" >999 EB/s");
    if step < LAST_STEP {
        lemma_scaled_width(bps, step + 1);
    }
}

/// A rate in a column is always as wide as the column.
pub proof fn lemma_rate_width(bps: Double)
    ensures
        rate_text(bps).len() == RATE_W,
{
    reveal_strlit("   --     ");
    reveal_strlit("  B/s");
    reveal_strlit("NaN");
    reveal_strlit("inf");
    reveal_strlit("");
    lemma_scaled_width(bps, 1);
    lemma_scaled_width(bps, 2);
    if !bps.nan() && !bps.falls_short(1) && !bps.reaches(1_000) {
        let u = pow2(UNIT_EXPONENT as nat);
        lemma_pow2_pos(UNIT_EXPONENT as nat);
        assert(1 * u == u);
        assert(!bps.negative());
        let n = bps.units();
        assert(n * power_of_ten(0) == n) by (nonlinear_arith)
            requires
                power_of_ten(0) == 1,
        ;
        assert(n / u < 1_000) by (nonlinear_arith)
            requires
                n < 1_000 * u,
                u > 0,
        ;
        lemma_short_decimal(bps.scaled_whole(0));
    }
}

/// The size of the unit at `step`.
fn size_of_unit(step: u32) -> (r: u64)
    ensures
        r == unit_size(step as nat),
{
    if step <= 1 {
        1_000
    } else if step == 2 {
        1_000_000
    } else if step == 3 {
        1_000_000_000
    } else if step == 4 {
        1_000_000_000_000
    } else if step == 5 {
        1_000_000_000_000_000
    } else {
        1_000_000_000_000_000_000
    }
}

/// The name of the unit at `step`.
fn name_of_unit(step: u32) -> (r: &'static str)
    ensures
        r@ == unit_name(step as nat),
{
    if step <= 1 {
        " KB/s"
    } else if step == 2 {
        " MB/s"
    } else if step == 3 {
        " GB/s"
    } else if step == 4 {
        " TB/s"
    } else if step == 5 {
        " PB/s"
    } else {
        " EB/s"
    }
}

/// A rate in the first unit from `step` on whose figure fits its column.
fn fmt_scaled(bps: Double, step: u32) -> (r: String)
    ensures
        r@ == scaled_rate(bps, step as nat),
    decreases LAST_STEP - step,
{
    let figure: String = bps.over(Double::from_u64(size_of_unit(step))).to_fixed(1);
    if figure.as_str().unicode_len() <= FIGURE_W {
        align_right(figure.as_str(), FIGURE_W).concat(name_of_unit(step))
    } else if step < LAST_STEP {
        fmt_scaled(bps, step + 1)
    } else {
        " >999 EB/s".to_owned()
    }
}

/// Bytes-per-second formatter for IO rates, always ten characters wide. A
/// figure that would not fit its column is shown in the next larger unit.
pub fn fmt_rate(bps: Double) -> (r: String)
    ensures
        r@ == rate_text(bps),
        r@.len() == RATE_W,
{
    proof {
        lemma_rate_width(bps);
    }
    if bps.is_below(1) {
        return "   --     ".to_owned();
    }
    if bps.is_at_least(1_000_000) {
        fmt_scaled(bps, 2)
    } else if bps.is_at_least(1_000) {
        fmt_scaled(bps, 1)
    } else {
        let figure: String = bps.to_fixed(0);
        align_right(figure.as_str(), FIGURE_W).concat("  B/s")
    }
}

/// A rate in running text.
pub open spec fn rate_prose(bps: Double) -> Seq<char> {
    if bps.reaches(1_000_000_000) {
        rate_in(bps, 1_000_000_000, 1) + " GB/s"@
    } else if bps.reaches(1_000_000) {
        rate_in(bps, 1_000_000, 1) + " MB/s"@
    } else if bps.reaches(1_000) {
        rate_in(bps, 1_000, 0) + " kB/s"@
    } else if bps.positive() {
        bps.fixed(0) + " B/s"@
    } else {
        "idle"@
    }
}

/// Bytes-per-second in prose, for running text rather than a column: no
/// padding, and "idle" instead of a dash. [`fmt_rate`] is the fixed-width
/// form the tables use.
pub fn fmt_rate_compact(bps: Double) -> (r: String)
    ensures
        r@ == rate_prose(bps),
{
    if bps.is_at_least(1_000_000_000) {
        bps.over(Double::from_u64(1_000_000_000)).to_fixed(1).concat(" GB/s")
    } else if bps.is_at_least(1_000_000) {
        bps.over(Double::from_u64(1_000_000)).to_fixed(1).concat(" MB/s")
    } else if bps.is_at_least(1_000) {
        bps.over(Double::from_u64(1_000)).to_fixed(0).concat(" kB/s")
    } else if bps.is_positive() {
        bps.to_fixed(0).concat(" B/s")
    } else {
        "idle".to_owned()
    }
}

/// `s` in a column of `n` characters, at its left edge.
pub open spec fn left_column(s: Seq<char>, n: nat) -> Seq<char> {
    if s.len() >= n {
        s.take(n as int)
    } else {
        s + repeated(' ', (n - s.len()) as nat)
    }
}

/// `s` in a column of `n` characters, at its right edge.
pub open spec fn right_column(s: Seq<char>, n: nat) -> Seq<char> {
    if s.len() >= n {
        s.take(n as int)
    } else {
        repeated(' ', (n - s.len()) as nat) + s
    }
}

/// Fills or cuts `s` on the right to exactly `n` characters.
pub fn pad_right(s: &str, n: usize) -> (r: String)
    ensures
        r@ == left_column(s@, n as nat),
        r@.len() == n,
{
    let len: usize = s.unicode_len();
    if len >= n {
        let r: String = clip(s, n);
        assert(r@ =~= left_column(s@, n as nat));
        r
    } else {
        let mut out: String = s.to_owned();
        push_repeated(&mut out, ' ', n - len);
        out
    }
}

/// Fills `s` on the left, or cuts it on the right, to exactly `n` characters.
pub fn pad_left(s: &str, n: usize) -> (r: String)
    ensures
        r@ == right_column(s@, n as nat),
        r@.len() == n,
{
    let len: usize = s.unicode_len();
    if len >= n {
        let r: String = clip(s, n);
        assert(r@ =~= right_column(s@, n as nat));
        r
    } else {
        let mut out: String = String::new();
        push_repeated(&mut out, ' ', n - len);
        out.append(s);
        assert(out@ =~= right_column(s@, n as nat));
        out
    }
}

/// The colour of a usage figure.
pub open spec fn usage_ink(used_pct: u32) -> Color {
    if used_pct >= 90 {
        Color::Red
    } else if used_pct >= 80 {
        Color::Yellow
    } else {
        Color::Green
    }
}

/// Green below 80, yellow from 80 to 89, red from 90: the usage thresholds.
pub fn usage_color(used_pct: u32) -> (r: Color)
    ensures
        r == usage_ink(used_pct),
{
    if used_pct >= 90 {
        Color::Red
    } else if used_pct >= 80 {
        Color::Yellow
    } else {
        Color::Green
    }
}

/// Same thresholds, for the fill of the bar (green when ok).
pub fn usage_bar_color(used_pct: u32) -> (r: Color)
    ensures
        r == usage_ink(used_pct),
{
    usage_color(used_pct)
}

} // verus!
