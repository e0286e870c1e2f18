use diskwatch::binary64::Double;
use diskwatch::collect::owners::OwnerIndex;
use diskwatch::collect::processes::{Coverage, ProcessCollector, ProcessTick, SECOND};
use diskwatch::paths::FilePath;
use diskwatch::tabs::hot::{
    age_label, banner_height, display_path, draw, draw_row, draw_rows, events_color, events_label, kind_color, owner_color,
    owner_label, path_width, ActivityKind, FileActivity, HotFiles, FIXED, PROC_W,
};
use diskwatch::ui::paint::{Canvas, Color, Line, Rect, Style, Widget};

fn rate(x: f64) -> Double {
    Double { bits: x.to_bits() }
}

fn proc(name: &str, pid: u32, bps: f64) -> ProcessTick {
    ProcessTick { pid, name: name.to_string(), read_bps: rate(0.0), write_bps: rate(bps) }
}

fn activity(path: &str, events: f64, total: u64, kind: ActivityKind, label: &str, last_seen: u64) -> FileActivity {
    FileActivity {
        path: FilePath::new(path),
        events_per_sec: rate(events),
        total_events: total,
        last_kind: kind,
        kind_label: label.to_string(),
        last_seen,
    }
}

fn watcher(roots: &[&str], error: Option<&str>, ranked: Vec<FileActivity>) -> HotFiles {
    HotFiles {
        roots: roots.iter().map(|r| FilePath::new(r)).collect(),
        error: error.map(|e| e.to_string()),
        active: ranked.len(),
        total_events: 42,
        ranked,
    }
}

fn text(line: &Line) -> String {
    line.spans.iter().map(|s| s.text.as_str()).collect()
}

fn rect(x: u16, y: u16, width: u16, height: u16) -> Rect {
    Rect { x, y, width, height }
}

fn area_of(widget: &Widget) -> Rect {
    match widget {
        Widget::Block { area, .. } => *area,
        Widget::Text { area, .. } => *area,
    }
}

fn lines_of(widget: &Widget) -> Vec<String> {
    match widget {
        Widget::Block { .. } => panic!("a block"),
        Widget::Text { lines, .. } => lines.iter().map(text).collect(),
    }
}

fn blocks(canvas: &Canvas) -> Vec<Rect> {
    canvas.widgets.iter().filter(|w| matches!(w, Widget::Block { .. })).map(area_of).collect()
}

/// PATH gives way first, and stops at a floor rather than going to zero: at
/// 80 columns the row still has to be readable.
#[test]
fn path_yields_width_to_the_process_column_but_not_all_of_it() {
    assert_eq!(path_width(200), 68, "capped so the table stays scannable");
    assert!(path_width(120) < 68);
    assert!(path_width(80) >= 18, "a floor, not a collapse");
    // Every column must fit inside the width the row is given, or the last
    // one is sheared off.
    for w in 60u16..=200 {
        let row_len = 3 + path_width(w) + 2 + PROC_W + 2 + 6 + 2 + 6 + 2 + 4 + 2 + 6;
        if w as usize >= row_len {
            continue;
        }
        assert!(path_width(w) == 18, "at {w} cols the row overflows at path_w {}", path_width(w));
    }
    assert_eq!(path_width(0), 18);
    assert_eq!(path_width(10), 18);
}

/// The pid survives clipping because it is what you act on; the name is the
/// half that gets shortened.
#[test]
fn a_long_process_name_is_clipped_around_its_pid() {
    let long = proc("systemd-journald-with-a-silly-name", 1234, 0.0);
    let label = owner_label(Some(&long));
    assert_eq!(label.chars().count(), PROC_W);
    assert!(label.contains("(1234)"), "{label}");
    assert!(label.contains('…'), "{label}");
}

#[test]
fn every_owner_label_fills_exactly_one_column_width() {
    for o in [Some(proc("vim", 9, 0.0)), Some(proc("postgres", 65535, 5_000_000.0)), None] {
        assert_eq!(owner_label(o.as_ref()).chars().count(), PROC_W);
    }
}

/// The colour is the honesty signal: a holder we could not corroborate with a
/// byte rate must not look the same as one we could.
#[test]
fn an_uncorroborated_owner_is_dimmer_than_a_busy_one() {
    let busy = proc("dd", 1, 900_000_000.0);
    let trickle = proc("vim", 2, 4096.0);
    let idle = proc("tail", 3, 0.0);
    assert_ne!(owner_color(Some(&busy)), owner_color(Some(&idle)));
    assert_ne!(owner_color(Some(&trickle)), owner_color(Some(&idle)));
    assert_ne!(owner_color(Some(&idle)), owner_color(None));
}

#[test]
fn owner_colors_are_yellow_plain_dim_and_faint() {
    assert_eq!(owner_color(Some(&proc("dd", 1, 1_000_000.0))), Color::Yellow);
    assert_eq!(owner_color(Some(&proc("dd", 1, 999_999.9))), Color::Fg);
    assert_eq!(owner_color(Some(&proc("dd", 1, 5e-324))), Color::Fg);
    assert_eq!(owner_color(Some(&proc("dd", 1, 0.0))), Color::Dim);
    assert_eq!(owner_color(None), Color::Faint);
}

#[test]
fn a_path_keeps_its_tail() {
    assert_eq!(display_path("/var/log/syslog", 15), "/var/log/syslog");
    assert_eq!(display_path("/var/log/syslog", 14), "…ar/log/syslog");
    assert_eq!(display_path("/var/log/syslog", 7), "…syslog");
    assert_eq!(display_path("/var/log/syslog", 1), "…");
    assert_eq!(display_path("/été/å", 4), "…é/å");
    assert_eq!(display_path("", 0), "");
}

#[test]
fn ages_take_their_largest_unit() {
    assert_eq!(age_label(0), "0s");
    assert_eq!(age_label(59), "59s");
    assert_eq!(age_label(60), "1m");
    assert_eq!(age_label(3599), "59m");
    assert_eq!(age_label(3600), "1h");
    assert_eq!(age_label(360_000), "100h");
}

#[test]
fn event_rates_are_shown_by_magnitude() {
    for (events, label, color) in [
        (0.0, "—", Color::Dim),
        (0.01, "—", Color::Dim),
        (0.010000000000000002, "0.01", Color::Dim),
        (0.125, "0.12", Color::Dim),
        (0.999, "1.00", Color::Dim),
        (1.0, "1.0", Color::Fg),
        (4.96, "5.0", Color::Fg),
        (5.0, "5.0", Color::BrCyan),
        (19.99, "20.0", Color::BrCyan),
        (20.0, "20.0", Color::Yellow),
        (1234.56, "1234.6", Color::Yellow),
        (f64::NAN, "—", Color::Dim),
        (f64::INFINITY, "inf", Color::Yellow),
        (-1.0, "—", Color::Dim),
    ] {
        assert_eq!(events_label(rate(events)), label, "{events}");
        assert_eq!(events_color(rate(events)), color, "{events}");
    }
}

#[test]
fn kinds_have_their_colors() {
    assert_eq!(kind_color(ActivityKind::Created), Color::Green);
    assert_eq!(kind_color(ActivityKind::Modified), Color::Cyan);
    assert_eq!(kind_color(ActivityKind::Removed), Color::Red);
    assert_eq!(kind_color(ActivityKind::Renamed), Color::Magenta);
    assert_eq!(kind_color(ActivityKind::Other), Color::Dim);
}

#[test]
fn the_banner_grows_when_processes_are_hidden() {
    assert_eq!(banner_height(&Coverage { visible: 4, hidden: 0 }), 5);
    assert_eq!(banner_height(&Coverage { visible: 4, hidden: 1 }), 6);
}

fn busy_collector() -> ProcessCollector {
    let mut c = ProcessCollector::new();
    c.procs.insert(7, proc("postgres", 7, 5_400_000.0));
    c.procs.insert(8, proc("vim", 8, 100.0));
    let mut index = OwnerIndex::new();
    index.note(&FilePath::new("/var/lib/db/wal"), 8);
    index.note(&FilePath::new("/var/lib/db/wal"), 7);
    c.owners = index;
    c.coverage = Coverage { visible: 3, hidden: 9 };
    c
}

#[test]
fn a_roomy_tab_is_drawn_in_full() {
    let c = busy_collector();
    let hot = watcher(
        &["/var", "/home/me"],
        Some("no such directory"),
        vec![
            activity("/var/lib/db/wal", 25.0, 1234, ActivityKind::Modified, "modify", 10 * SECOND),
            activity("/home/me/notes", 0.5, 3, ActivityKind::Created, "create", 200 * SECOND),
        ],
    );
    let canvas = draw(rect(2, 1, 124, 30), &hot, &c, 130 * SECOND + 5);
    let widgets = &canvas.widgets;
    assert_eq!(widgets.len(), 10);

    assert_eq!(area_of(&widgets[0]), rect(2, 1, 124, 1));
    assert_eq!(
        lines_of(&widgets[0]),
        vec![
            " watch  /var  /home/me   ERROR: no such directory   2 active paths  42 events since start   \
             busiest  postgres (7)  5.4 MB/s"
        ]
    );

    assert_eq!(blocks(&canvas), vec![rect(2, 3, 124, 22), rect(2, 25, 124, 6)]);
    match &widgets[1] {
        Widget::Block { title: Some(title), border, base, .. } => {
            assert_eq!(title.text, " HOT FILES  by event rate ");
            assert_eq!(title.style, Style { fg: Some(Color::Cyan), bg: None, bold: true });
            assert_eq!(*border, Style { fg: Some(Color::Faint), bg: Some(Color::Bg), bold: false });
            assert_eq!(*base, Style { fg: None, bg: Some(Color::Bg), bold: false });
        },
        _ => panic!("no frame"),
    }

    // Inside the frame the rows are 120 wide, which leaves 63 for the path.
    let path_w = 120 - FIXED;
    assert_eq!(area_of(&widgets[2]), rect(4, 4, 121, 1));
    assert_eq!(
        lines_of(&widgets[2]),
        vec![format!("   {:<63}  {:<22}  {:>6}  {:>6}  {:>4}  KIND", "PATH", "PROCESS", "EV/s", "TOTAL", "AGE")]
    );
    assert_eq!(path_w, 63);
    assert_eq!(area_of(&widgets[3]), rect(4, 5, 120, 1));
    assert_eq!(lines_of(&widgets[3]), vec!["─".repeat(120)]);

    // The leader, on its own background; then the next row.
    assert_eq!(area_of(&widgets[4]), rect(4, 6, 120, 1));
    assert!(lines_of(&widgets[4]).is_empty());
    assert_eq!(
        lines_of(&widgets[5]),
        vec![format!(" ● {:<63}  {:<22}  {:>6}  {:>6}  {:>4}  modify", "/var/lib/db/wal", "postgres (7)", "25.0", "1234", "2m")]
    );
    assert_eq!(area_of(&widgets[7]), rect(4, 7, 120, 1));
    assert_eq!(
        lines_of(&widgets[7]),
        vec![format!(" ● {:<63}  {:<22}  {:>6}  {:>6}  {:>4}  create", "/home/me/notes", "—", "0.50", "3", "0s")]
    );
    for (at, ground, dot, bold) in [(5, Color::SelBg, Color::Yellow, true), (7, Color::Bg, Color::Green, false)] {
        match &widgets[at] {
            Widget::Text { lines, base, .. } => {
                assert_eq!(base.bg, Some(ground));
                assert_eq!(lines[0].spans[1].style.fg, Some(dot));
                assert_eq!(lines[0].spans[7].style.bold, bold);
                let width: usize = lines[0].spans.iter().map(|s| s.text.chars().count()).sum();
                assert_eq!(width, FIXED + path_w);
            },
            _ => panic!("no text"),
        }
    }

    assert_eq!(area_of(&widgets[9]), rect(3, 26, 122, 4));
    assert_eq!(
        lines_of(&widgets[9]),
        vec![
            " note  Rates are events/sec, not bytes — the watcher reports paths and kinds only.",
            "       PROCESS is the busiest holder of the path, sampled every 2s.",
            "       Short-lived writers that close between samples are missed.",
            "       9 of 12 processes hidden — run as root to attribute them.",
        ]
    );
}

#[test]
fn a_row_is_as_wide_as_its_columns_and_its_kind() {
    for (label, path_w) in [("mod", 18usize), ("modify", 40), ("something", 68), ("", 1)] {
        let fa = activity("/a/rather/long/path/to/a/file", 123_456.7, 123_456_789, ActivityKind::Other, label, 0);
        let canvas = draw_row(rect(0, 0, 200, 1), &fa, None, path_w, 400_000_000 * SECOND, false);
        match &canvas.widgets[1] {
            Widget::Text { lines, .. } => {
                assert_eq!(lines[0].spans.len(), 14);
                let widths: Vec<usize> = lines[0].spans.iter().map(|s| s.text.chars().count()).collect();
                assert_eq!(widths[..13].iter().sum::<usize>(), path_w + 51);
                assert_eq!(widths[13], label.len());
            },
            _ => panic!("no text"),
        }
    }
}

#[test]
fn a_narrow_summary_names_no_busiest_process() {
    let c = busy_collector();
    let hot = watcher(&[], None, vec![]);
    let wide = draw(rect(0, 0, 110, 30), &hot, &c, 0);
    let narrow = draw(rect(0, 0, 109, 30), &hot, &c, 0);
    assert_eq!(
        lines_of(&wide.widgets[0]),
        vec![" watch  (no roots)   0 active paths  42 events since start   busiest  postgres (7)  5.4 MB/s"]
    );
    assert_eq!(lines_of(&narrow.widgets[0]), vec![" watch  (no roots)   0 active paths  42 events since start"]);
    let idle = draw(rect(0, 0, 200, 30), &hot, &ProcessCollector::new(), 0);
    assert_eq!(lines_of(&idle.widgets[0]), vec![" watch  (no roots)   0 active paths  42 events since start"]);
}

#[test]
fn an_empty_table_says_why() {
    let c = ProcessCollector::new();
    let waiting = draw(rect(0, 0, 80, 24), &watcher(&["/"], None, vec![]), &c, 0);
    assert_eq!(lines_of(&waiting.widgets[4]), vec!["  waiting for filesystem activity…"]);
    let broken = draw(rect(0, 0, 80, 24), &watcher(&["/"], Some("denied"), vec![]), &c, 0);
    assert_eq!(lines_of(&broken.widgets[4]), vec!["  watcher not running — see banner below"]);
    assert_eq!(lines_of(&broken.widgets[6]).len(), 3);
}

#[test]
fn the_table_shows_at_most_fifteen_rows_and_none_that_do_not_fit() {
    let c = ProcessCollector::new();
    let mut ranked = Vec::new();
    for i in 0..40u64 {
        ranked.push(activity(&format!("/data/{i}"), 1.0, i, ActivityKind::Other, "other ", 0));
    }
    let hot = watcher(&["/data"], None, ranked);
    for (height, shown) in [(40u16, 15usize), (26, 15), (25, 14), (13, 2)] {
        let canvas = draw(rect(0, 0, 100, height), &hot, &c, 0);
        assert_eq!(canvas.widgets.len(), 1 + 3 + 2 * shown + 2, "{height}");
        for widget in &canvas.widgets {
            let area = area_of(widget);
            assert!(area.y + area.height <= height);
        }
    }
}

/// In every area the rows stack from top to bottom; the table keeps what it
/// needs before the summary and the banner.
#[test]
fn the_rows_of_a_tab_stack_in_areas_of_every_height() {
    for hidden in [0usize, 1] {
        let mut c = ProcessCollector::new();
        c.coverage = Coverage { visible: 1, hidden };
        let banner: u16 = if hidden == 0 { 5 } else { 6 };
        let hot = watcher(&[], None, vec![]);
        for y in [0u16, 1, 7, 1000, 65_000] {
            for height in (0u16..60).chain([200, 535]) {
                let area = rect(3, y, 50, height);
                let canvas = draw(area, &hot, &c, 0);
                let summary = area_of(&canvas.widgets[0]);
                let frames = blocks(&canvas);
                let (table, note) = (frames[0], frames[1]);
                assert_eq!((summary.x, summary.y, summary.width), (3, y, 50));
                assert_eq!((table.x, table.width, note.x, note.width), (3, 50, 3, 50));
                assert_eq!(table.y + table.height, note.y);
                assert_eq!(note.y + note.height, y + height);
                if height >= 8 + banner {
                    assert_eq!(table.y, y + 2);
                    assert_eq!(note.height, banner);
                } else {
                    assert!(table.y <= y + 2);
                    assert!(note.height <= banner);
                    assert_eq!(table.height, height.min(6));
                }
            }
        }
    }
}

#[test]
fn a_border_leaves_what_is_inside_it() {
    let c = ProcessCollector::new();
    let hot = watcher(&[], None, vec![]);
    for (banner, inner) in [
        (rect(5, 9, 10, 5), rect(6, 10, 8, 3)),
        (rect(5, 9, 1, 1), rect(6, 10, 0, 0)),
        (rect(5, 9, 0, 0), rect(5, 9, 0, 0)),
        (rect(u16::MAX, 9, 3, 3), rect(u16::MAX, 10, 1, 1)),
    ] {
        let canvas = draw_rows(&vec![rect(0, 0, 9, 1), rect(0, 1, 9, 2), banner], &hot, &c, 0);
        assert_eq!(area_of(canvas.widgets.last().unwrap()), inner);
    }
}

#[test]
fn names_that_are_no_text_are_shown_with_replacements() {
    let c = ProcessCollector::new();
    let mut hot = watcher(&[], None, vec![]);
    hot.roots = vec![FilePath::from_bytes(vec![b'/', 0xff, b'a', 0xe2, 0x82])];
    let canvas = draw(rect(0, 0, 80, 24), &hot, &c, 0);
    assert!(lines_of(&canvas.widgets[0])[0].contains("  /\u{fffd}a\u{fffd}   "));
}
