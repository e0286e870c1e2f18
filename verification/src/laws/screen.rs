//! What the screen promises: columns that line up, text that fits, and
//! colours that tell things apart.
use vstd::prelude::*;

use crate::binary64::{half_even, Double};
use crate::collect::processes::{label_text, pid_label, Coverage, ProcessTick};
use crate::fixed::right_aligned;
use crate::laws::doubles::law_whole_quotients_round_once;
use crate::layout::inner_of;
use crate::tabs::hot::{banner_lines, banner_rows, header_text, hot_rows, owner_ink, owner_text, path_column, row_spans, rows_shown, table_fits, FileActivity, FIXED, PATH_MAX, PATH_MIN, PROC_W};
use crate::tabs::insights::{cards_shown, count_of, disclaimer_fits, first_row, rows_below, Insight, Severity, CARD_H};
use crate::text::decimal;
use crate::ui::format::{left_column, lemma_rate_width, rate_in, rate_prose, rate_text, scaled_rate, size_text, unit_name, unit_size, usage_ink, GB, KB, MB, RATE_W, TB};
use crate::ui::paint::{Color, Rect, SpanView};

verus! {

proof fn lemma_decimal(n: nat)
    ensures
        decimal(n).len() > 0,
        decimal(n)[0] != ' ',
    decreases n,
{
    if n >= 10 {
        lemma_decimal(n / 10);
    }
}

proof fn lemma_decimal_len(n: nat, places: nat)
    requires
        n < crate::text::power_of_ten(places),
        places > 0,
    ensures
        decimal(n).len() <= places,
    decreases places,
{
    if n >= 10 {
        assert(places > 1) by {
            reveal_with_fuel(crate::text::power_of_ten, 2);
        }
        lemma_decimal_len(n / 10, (places - 1) as nat);
    }
}

proof fn lemma_fixed_starts(d: Double, places: nat)
    ensures
        d.fixed(places).len() > 0,
        d.fixed(places)[0] != ' ',
{
    reveal_strlit("-");
    reveal_strlit("");
    reveal_strlit("NaN");
    reveal_strlit("inf");
    lemma_decimal(d.scaled_whole(places));
    lemma_decimal(d.scaled_whole(places) / crate::text::power_of_ten(places));
}

/// A rate in prose carries no padding.
pub proof fn law_compact_rate_has_no_padding(bps: Double)
    ensures
        rate_prose(bps).len() > 0,
        rate_prose(bps)[0] != ' ',
{
    reveal_strlit("idle");
    lemma_fixed_starts(bps.ratio(Double::of_whole(1_000_000_000)), 1);
    lemma_fixed_starts(bps.ratio(Double::of_whole(1_000_000)), 1);
    lemma_fixed_starts(bps.ratio(Double::of_whole(1_000)), 0);
    lemma_fixed_starts(bps, 0);
}

/// Rates stand in a column of one width, whatever they are.
pub proof fn law_rate_fills_its_column(a: Double, b: Double)
    ensures
        rate_text(a).len() == RATE_W,
        rate_text(a).len() == rate_text(b).len(),
{
    lemma_rate_width(a);
    lemma_rate_width(b);
}

/// A usage figure is green below 80, yellow from 80 to 89 and red from 90, and
/// nowhere else.
pub proof fn law_usage_colors_tell_the_thresholds(used_pct: u32)
    ensures
        usage_ink(used_pct) == Color::Green <==> used_pct < 80,
        usage_ink(used_pct) == Color::Yellow <==> 80 <= used_pct <= 89,
        usage_ink(used_pct) == Color::Red <==> used_pct >= 90,
{
}

/// The path gives way to the other columns, but never below its floor, and
/// it is as wide as they leave it up to its cap: a row overflows only where
/// the floor no longer fits.
pub proof fn law_path_column_gives_way(w: u16)
    ensures
        PATH_MIN <= path_column(w) <= PATH_MAX,
        FIXED + path_column(w) <= w || path_column(w) == PATH_MIN,
        FIXED + path_column(w) >= w || path_column(w) == PATH_MAX,
        PATH_MIN == 18 && PATH_MAX == 68 && FIXED == 57 && PROC_W == 22,
{
}

/// The width of the text in a line.
pub open spec fn width_of(spans: Seq<SpanView>) -> nat
    decreases spans.len(),
{
    if spans.len() == 0 {
        0
    } else {
        width_of(spans.drop_last()) + spans.last().text.len()
    }
}

/// One more span adds its own width.
proof fn lemma_width_step(spans: Seq<SpanView>, i: int)
    requires
        0 <= i < spans.len(),
    ensures
        width_of(spans.take(i + 1)) == width_of(spans.take(i)) + spans[i].text.len(),
{
    assert(spans.take(i + 1).drop_last() =~= spans.take(i));
}

/// Up to the kind, which comes last and is as wide as it is spelled, a row is
/// exactly as wide as its columns, whatever stands in them. With a kind of six
/// characters it is as wide as the path column and the fixed columns.
pub proof fn law_row_is_as_wide_as_its_columns(
    fa: FileActivity,
    owner: Option<ProcessTick>,
    path_w: usize,
    now: u64,
    leader: bool,
)
    ensures
        row_spans(fa, owner, path_w, now, leader).len() == 14,
        width_of(row_spans(fa, owner, path_w, now, leader).take(13)) == FIXED - 6 + path_w,
        width_of(row_spans(fa, owner, path_w, now, leader)) == FIXED - 6 + path_w
            + fa.kind_label@.len(),
{
    reveal_strlit(" ");
    reveal_strlit("  ");
    reveal_strlit("\u{25cf}");
    let spans = row_spans(fa, owner, path_w, now, leader);
    assert(spans.len() == 14);
    assert(owner_text(owner).len() == PROC_W);
    assert(spans.take(14) =~= spans);
    lemma_width_step(spans, 0);
    lemma_width_step(spans, 1);
    lemma_width_step(spans, 2);
    lemma_width_step(spans, 3);
    lemma_width_step(spans, 4);
    lemma_width_step(spans, 5);
    lemma_width_step(spans, 6);
    lemma_width_step(spans, 7);
    lemma_width_step(spans, 8);
    lemma_width_step(spans, 9);
    lemma_width_step(spans, 10);
    lemma_width_step(spans, 11);
    lemma_width_step(spans, 12);
    lemma_width_step(spans, 13);
}

/// The heading is as wide as the columns it stands over, but for the end of
/// the last one.
pub proof fn law_header_is_as_wide_as_its_columns(path_w: usize)
    ensures
        header_text(path_w).len() + 2 == FIXED + path_w,
{
    reveal_strlit("   ");
    reveal_strlit("  ");
    reveal_strlit("KIND");
}

/// Every owner is shown with its whole pid, however long its name is.
pub proof fn law_owner_cell_shows_the_pid(owner: ProcessTick)
    ensures
        exists|at: int|
            0 <= at && at + pid_label(owner.pid).len() <= PROC_W && #[trigger] owner_text(
                Some(owner),
            ).subrange(at, at + pid_label(owner.pid).len()) == pid_label(owner.pid),
{
    let pid = pid_label(owner.pid);
    reveal_strlit(" (");
    reveal_strlit(")");
    reveal_strlit("\u{2026}");
    reveal_with_fuel(crate::text::power_of_ten, 11);
    lemma_decimal_len(owner.pid as nat, 10);
    assert(pid.len() <= 13);
    let label = label_text(owner.name@, owner.pid, PROC_W as nat);
    let cell = owner_text(Some(owner));
    assert(label.len() <= PROC_W);
    assert(cell == left_column(label, PROC_W as nat));
    let at = label.len() - pid.len();
    assert(cell.subrange(at, at + pid.len()) =~= pid);
}

/// The colour tells a holder that a byte rate corroborates from one that none
/// does, and both from no holder at all.
pub proof fn law_uncorroborated_owner_looks_different(busy: ProcessTick, idle: ProcessTick)
    requires
        busy.total().positive(),
        !idle.total().positive(),
    ensures
        owner_ink(Some(busy)) != owner_ink(Some(idle)),
        owner_ink(Some(idle)) != owner_ink(None),
        owner_ink(Some(busy)) != owner_ink(None),
{
    vstd::arithmetic::power2::lemma_pow2_pos(crate::binary64::UNIT_EXPONENT as nat);
    let u = vstd::arithmetic::power2::pow2(crate::binary64::UNIT_EXPONENT as nat);
    assert(1_000_000 * u > 0) by (nonlinear_arith)
        requires
            u > 0,
    ;
}

/// The banner has room for all of its lines inside its border.
pub proof fn law_banner_fits_its_lines(coverage: Coverage)
    ensures
        banner_lines(coverage).len() + 2 == banner_rows(coverage),
{
}

/// Every row of activity lies inside the frame of the table.
pub proof fn law_activity_stays_inside_the_frame(area: Rect, ranked: nat, i: nat)
    requires
        table_fits(area),
        inner_of(area).height >= 3,
        i < rows_shown(inner_of(area), ranked),
    ensures
        i < ranked,
        area.y < inner_of(area).y + 2 + i < area.y + area.height - 1,
{
}

/// The three rows of the tab follow each other without a gap or an overlap
/// and fill it. The table has at least six rows where the tab has.
pub proof fn law_rows_fill_the_tab(rows: Seq<Rect>, area: Rect, coverage: Coverage)
    requires
        hot_rows(rows, area, coverage),
    ensures
        rows[0].y == area.y,
        rows[1].y == rows[0].y + rows[0].height,
        rows[2].y == rows[1].y + rows[1].height,
        rows[2].y + rows[2].height == area.y + area.height,
        area.height >= 6 ==> rows[1].height >= 6,
{
}

/// Where the tab has room for all of its rows, the summary has two, the banner
/// shows every one of its lines, whatever part of the process table is hidden,
/// and the table has the rest.
pub proof fn law_banner_is_not_clipped(rows: Seq<Rect>, area: Rect, coverage: Coverage)
    requires
        hot_rows(rows, area, coverage),
        area.height >= 8 + banner_rows(coverage),
    ensures
        inner_of(rows[2]).height == banner_lines(coverage).len(),
        rows[0].height == 2,
        rows[1].height == area.height - 2 - rows[2].height,
{
}

/// Every insight is counted under exactly one severity.
pub proof fn law_severities_add_up(insights: Seq<Insight>)
    ensures
        count_of(insights, Severity::Crit) + count_of(insights, Severity::Warn) + count_of(
            insights,
            Severity::Info,
        ) == insights.len(),
    decreases insights.len(),
{
    if insights.len() > 0 {
        law_severities_add_up(insights.drop_last());
    }
}

/// The cards and the disclaimer stay between the heading and the lower edge,
/// with as much room above them as below, up to one row.
pub proof fn law_cards_are_centred(area: Rect, insights: nat)
    ensures
        ({
            let n = cards_shown(area, insights);
            let used = n * CARD_H + if disclaimer_fits(area, insights) {
                1int
            } else {
                0int
            };
            let above = first_row(area, insights) - (area.y + 2);
            let below = rows_below(area) - used - above;
            &&& n <= insights
            &&& 0 <= above <= below <= above + 1
        }),
{
    let room = rows_below(area) / CARD_H as nat;
    assert(room * CARD_H <= rows_below(area));
}

/// A size below a terabyte is the exact quotient by its unit, rounded to a
/// whole number, ties to even.
pub proof fn law_sizes_below_a_terabyte_round_once(b: u64)
    requires
        KB <= b < TB,
    ensures
        GB <= b ==> size_text(b) == decimal(half_even(b as nat, GB as nat)) + " GB"@,
        MB <= b < GB ==> size_text(b) == decimal(half_even(b as nat, MB as nat)) + " MB"@,
        KB <= b < MB ==> size_text(b) == decimal(half_even(b as nat, KB as nat)) + " KB"@,
{
    if b >= GB {
        law_whole_quotients_round_once(b as nat, GB as nat);
    } else if b >= MB {
        law_whole_quotients_round_once(b as nat, MB as nat);
    } else {
        law_whole_quotients_round_once(b as nat, KB as nat);
    }
}

/// A size below a kilobyte is a number of bytes; one from a terabyte on is
/// shown in tenths of a terabyte.
pub proof fn law_sizes_at_both_ends(b: u64)
    ensures
        b < 1_000 ==> size_text(b) == decimal(b as nat) + seq![' ', 'B'],
        b >= 1_000_000_000_000 ==> size_text(b) == Double::of_whole(b as nat).ratio(
            Double::of_whole(1_000_000_000_000),
        ).fixed(1) + seq![' ', 'T', 'B'],
        KB == 1_000 && MB == 1_000 * KB && GB == 1_000 * MB && TB == 1_000 * GB,
{
    reveal_strlit(" B");
    reveal_strlit(" TB");
    assert(" B"@ =~= seq![' ', 'B']);
    assert(" TB"@ =~= seq![' ', 'T', 'B']);
}

/// A rate in prose is counted in its largest unit up to gigabytes: in tenths
/// from a megabyte on, whole below, and not at all where nothing moves.
pub proof fn law_rates_in_prose_take_their_largest_unit(bps: Double)
    requires
        !bps.nan(),
    ensures
        bps.reaches(1_000_000_000) ==> rate_prose(bps) == bps.ratio(
            Double::of_whole(1_000_000_000),
        ).fixed(1) + " GB/s"@,
        bps.falls_short(1_000_000_000) && bps.reaches(1_000_000) ==> rate_prose(bps) == bps.ratio(
            Double::of_whole(1_000_000),
        ).fixed(1) + " MB/s"@,
        bps.falls_short(1_000_000) && bps.reaches(1_000) ==> rate_prose(bps) == bps.ratio(
            Double::of_whole(1_000),
        ).fixed(0) + " kB/s"@,
        bps.falls_short(1_000) && bps.rank() > 0 ==> rate_prose(bps) == bps.fixed(0) + " B/s"@,
        bps.rank() <= 0 ==> rate_prose(bps) == "idle"@,
{
    lemma_thresholds();
}

proof fn lemma_thresholds()
    ensures
        ({
            let u = vstd::arithmetic::power2::pow2(crate::binary64::UNIT_EXPONENT as nat);
            0 < 1 * u <= 1_000 * u <= 1_000_000 * u <= 1_000_000_000 * u
        }),
{
    vstd::arithmetic::power2::lemma_pow2_pos(crate::binary64::UNIT_EXPONENT as nat);
    let u = vstd::arithmetic::power2::pow2(crate::binary64::UNIT_EXPONENT as nat);
    assert(0 < 1 * u <= 1_000 * u <= 1_000_000 * u <= 1_000_000_000 * u) by (nonlinear_arith)
        requires
            u > 0,
    ;
}

/// The figure of a rate in units of a thousand to the power `step`.
pub open spec fn figure(bps: Double, step: nat) -> Seq<char> {
    bps.ratio(Double::of_whole(vstd::arithmetic::power::pow(10, 3 * step) as nat)).fixed(1)
}

proof fn lemma_figures(bps: Double, step: nat)
    requires
        1 <= step <= 6,
    ensures
        rate_in(bps, unit_size(step), 1) == figure(bps, step),
{
    reveal(vstd::arithmetic::power::pow);
    reveal_with_fuel(vstd::arithmetic::power::pow, 19);
}

proof fn lemma_scaled(bps: Double, first: nat, step: nat)
    requires
        1 <= first <= step <= 6,
        figure(bps, step).len() <= 5,
        forall|j: nat| first <= j < step ==> (#[trigger] figure(bps, j)).len() > 5,
    ensures
        scaled_rate(bps, first) == right_aligned(figure(bps, step), 5) + unit_name(step),
    decreases step - first,
{
    lemma_figures(bps, first);
    if first < step {
        assert(figure(bps, first).len() > 5);
        lemma_scaled(bps, first + 1, step);
    }
}

proof fn lemma_beyond(bps: Double, first: nat)
    requires
        1 <= first <= 6,
        forall|j: nat| first <= j <= 6 ==> (#[trigger] figure(bps, j)).len() > 5,
    ensures
        scaled_rate(bps, first) == " >999 EB/s"@,
    decreases 6 - first,
{
    lemma_figures(bps, first);
    assert(figure(bps, first).len() > 5);
    if first < 6 {
        lemma_beyond(bps, first + 1);
    }
}

/// A rate in a column is a dash below one byte, whole bytes below a kilobyte,
/// and otherwise tenths of the first unit whose figure fits five characters:
/// kilobytes are tried below a megabyte only, and what fits no unit is said
/// to be more.
pub proof fn law_rates_in_a_column_take_the_first_unit_that_fits(bps: Double, step: nat)
    requires
        !bps.nan(),
        1 <= step <= 6,
    ensures
        bps.falls_short(1) ==> rate_text(bps) == "   --     "@,
        bps.reaches(1) && bps.falls_short(1_000) ==> rate_text(bps) == right_aligned(
            bps.fixed(0),
            5,
        ) + "  B/s"@,
        ({
            let first = if bps.reaches(1_000_000) {
                2nat
            } else {
                1nat
            };
            let names = seq![" KB/s"@, " MB/s"@, " GB/s"@, " TB/s"@, " PB/s"@, " EB/s"@];
            &&& bps.reaches(1_000) && first <= step && figure(bps, step).len() <= 5 && (forall|j: nat|
                first <= j < step ==> (#[trigger] figure(bps, j)).len() > 5) ==> rate_text(bps)
                == right_aligned(figure(bps, step), 5) + names[step - 1]
            &&& bps.reaches(1_000) && (forall|j: nat|
                first <= j <= 6 ==> (#[trigger] figure(bps, j)).len() > 5) ==> rate_text(bps)
                == " >999 EB/s"@
        }),
{
    lemma_thresholds();
    let first = if bps.reaches(1_000_000) {
        2nat
    } else {
        1nat
    };
    if bps.reaches(1_000) && first <= step && figure(bps, step).len() <= 5 && (forall|j: nat|
        first <= j < step ==> (#[trigger] figure(bps, j)).len() > 5) {
        lemma_scaled(bps, first, step);
    }
    if bps.reaches(1_000) && (forall|j: nat|
        first <= j <= 6 ==> (#[trigger] figure(bps, j)).len() > 5) {
        lemma_beyond(bps, first);
    }
}

} // verus!
