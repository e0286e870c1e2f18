use diskwatch::binary64::Double;
use diskwatch::ui::format::{
    fmt_rate, fmt_rate_compact, fmt_size, pad_left, pad_right, usage_bar_color, usage_color,
};
use diskwatch::ui::paint::Color;

fn rate(x: f64) -> Double {
    Double { bits: x.to_bits() }
}

/// The compact form is for prose, so it carries no padding and says "idle"
/// where the column form would show a dash.
#[test]
fn the_compact_rate_reads_as_prose() {
    assert_eq!(fmt_rate_compact(rate(0.0)), "idle");
    assert_eq!(fmt_rate_compact(rate(512.0)), "512 B/s");
    assert_eq!(fmt_rate_compact(rate(2_000.0)), "2 kB/s");
    assert_eq!(fmt_rate_compact(rate(5_400_000.0)), "5.4 MB/s");
    assert_eq!(fmt_rate_compact(rate(2_100_000_000.0)), "2.1 GB/s");
    for bps in [0.0, 1.0, 999.0, 1e6, 1e12] {
        assert!(!fmt_rate_compact(rate(bps)).starts_with(' '), "{bps}");
    }
}

fn expected_size(b: u64) -> String {
    if b >= 1_000_000_000_000 {
        format!("{:.1} TB", b as f64 / 1_000_000_000_000u64 as f64)
    } else if b >= 1_000_000_000 {
        format!("{:.0} GB", b as f64 / 1_000_000_000u64 as f64)
    } else if b >= 1_000_000 {
        format!("{:.0} MB", b as f64 / 1_000_000u64 as f64)
    } else if b >= 1_000 {
        format!("{:.0} KB", b as f64 / 1_000u64 as f64)
    } else {
        format!("{} B", b)
    }
}

#[test]
fn sizes_take_the_largest_decimal_unit() {
    assert_eq!(fmt_size(0), "0 B");
    assert_eq!(fmt_size(999), "999 B");
    assert_eq!(fmt_size(1_000), "1 KB");
    assert_eq!(fmt_size(999_999), "1000 KB");
    assert_eq!(fmt_size(2_500), "2 KB");
    assert_eq!(fmt_size(3_500), "4 KB");
    assert_eq!(fmt_size(512_000_000), "512 MB");
    assert_eq!(fmt_size(500_107_862_016), "500 GB");
    assert_eq!(fmt_size(2_000_398_934_016), "2.0 TB");
    assert_eq!(fmt_size(1_150_000_000_000), "1.1 TB");
    assert_eq!(fmt_size(1_250_000_000_000), "1.2 TB");
    assert_eq!(fmt_size(u64::MAX), "18446744.1 TB");
}

#[test]
fn sizes_are_those_of_double_division() {
    let mut b: u64 = 1;
    for i in 0..4000u64 {
        b = b.wrapping_mul(6364136223846793005).wrapping_add(1442695040888963407);
        let shifted = b >> (i % 64);
        assert_eq!(fmt_size(shifted), expected_size(shifted), "{shifted}");
    }
    for tenths in 0..400u64 {
        let tie = 1_000_000_000_000 + tenths * 50_000_000_000;
        for near in [tie - 1, tie, tie + 1] {
            assert_eq!(fmt_size(near), expected_size(near), "{near}");
        }
    }
}

fn expected_rate(bps: f64) -> String {
    if bps < 1.0 {
        return "   --     ".to_string();
    }
    if !(bps >= 1_000.0) {
        return format!("{:>5.0}  B/s", bps);
    }
    let units =
        [(1e3, "KB"), (1e6, "MB"), (1e9, "GB"), (1e12, "TB"), (1e15, "PB"), (1e18, "EB")];
    let first = if bps >= 1_000_000.0 { 1 } else { 0 };
    for (size, name) in &units[first..] {
        let figure = format!("{:.1}", bps / size);
        if figure.len() <= 5 {
            return format!("{:>5} {}/s", figure, name);
        }
    }
    " >999 EB/s".to_string()
}

fn expected_compact(bps: f64) -> String {
    if bps >= 1_000_000_000.0 {
        format!("{:.1} GB/s", bps / 1_000_000_000.0)
    } else if bps >= 1_000_000.0 {
        format!("{:.1} MB/s", bps / 1_000_000.0)
    } else if bps >= 1000.0 {
        format!("{:.0} kB/s", bps / 1000.0)
    } else if bps > 0.0 {
        format!("{:.0} B/s", bps)
    } else {
        "idle".to_string()
    }
}

#[test]
fn rates_are_those_of_double_division() {
    let mut inputs: Vec<f64> = vec![
        0.0, -0.0, 0.5, 0.999, 1.0, 1.5, 2.5, 999.5, 999.4999, 1000.0, 1150.0, 999_999.9, 1e6, 1_150_000.0,
        1_250_000.0, 2_500.0, 1e9, 1.05e9, 1e15, 1e22, 1e300, f64::MAX, f64::MIN_POSITIVE, 5e-324, -3.0, -1e12,
        f64::INFINITY, f64::NEG_INFINITY, f64::NAN,
    ];
    let mut seed: u64 = 7;
    for i in 0..3000u32 {
        seed = seed.wrapping_mul(6364136223846793005).wrapping_add(1442695040888963407);
        inputs.push((seed >> 11) as f64 / 10f64.powi((i % 16) as i32));
    }
    for bps in inputs {
        assert_eq!(fmt_rate(rate(bps)), expected_rate(bps), "{bps}");
        assert_eq!(fmt_rate(rate(bps)).chars().count(), 10, "{bps}");
        assert_eq!(fmt_rate_compact(rate(bps)), expected_compact(bps), "{bps}");
    }
}

#[test]
fn rates_fill_their_column() {
    for (bps, text) in [
        (0.0, "   --     "),
        (0.999, "   --     "),
        (1.0, "    1  B/s"),
        (42.0, "   42  B/s"),
        (999.9, " 1000  B/s"),
        (1_500.0, "  1.5 KB/s"),
        (999_949.0, "999.9 KB/s"),
        (999_960.0, "  1.0 MB/s"),
        (123_456_789.0, "123.5 MB/s"),
        (999_900_000.0, "999.9 MB/s"),
        (999_960_000.0, "  1.0 GB/s"),
        (1e9, "  1.0 GB/s"),
        (2.5e12, "  2.5 TB/s"),
        (1e15, "  1.0 PB/s"),
        (3.7e19, " 37.0 EB/s"),
        (1e21, " >999 EB/s"),
        (f64::MAX, " >999 EB/s"),
    ] {
        assert_eq!(fmt_rate(rate(bps)), text, "{bps}");
    }
}

#[test]
fn padding_fills_or_cuts_to_the_column() {
    assert_eq!(pad_right("ab", 4), "ab  ");
    assert_eq!(pad_left("ab", 4), "  ab");
    assert_eq!(pad_right("abcdef", 4), "abcd");
    assert_eq!(pad_left("abcdef", 4), "abcd");
    assert_eq!(pad_right("", 0), "");
    assert_eq!(pad_left("é…", 3), " é…");
    assert_eq!(pad_right("é…", 1), "é");
}

#[test]
fn usage_warns_at_eighty_and_ninety() {
    for (pct, text, bar) in [
        (0, Color::Green, Color::Green),
        (79, Color::Green, Color::Green),
        (80, Color::Yellow, Color::Yellow),
        (89, Color::Yellow, Color::Yellow),
        (90, Color::Red, Color::Red),
        (250, Color::Red, Color::Red),
    ] {
        assert_eq!(usage_color(pct), text);
        assert_eq!(usage_bar_color(pct), bar);
    }
}
