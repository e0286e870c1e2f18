//! Hot Files tab.
//!
//! What the watcher knows: file path, event kind, event count per path. Not
//! bytes. The PROCESS column does not come from the watcher at all: it pairs
//! each hot path with the processes holding it open and picks the busiest.
//! That is an inference from two sampled readings, and unprivileged it only
//! sees your own uid, so the banner reports the coverage rather than letting
//! a half-empty column speak for itself.
use vstd::prelude::*;

use crate::binary64::Double;
use crate::collect::processes::{full_label, label_text, since, Coverage, ProcessCollector, ProcessTick, SECOND};
use crate::collect::ranking::ranking;
use crate::layout::{block_inner, inner_of, split_rows, three_rows};
use crate::paths::{lossy_text, FilePath};
use crate::text::{decimal, decimal_text, push_repeated, repeated};
use crate::ui::format::{fmt_rate_compact, left_column, pad_left, pad_right, rate_prose, right_column};
use crate::ui::paint::{lines_view, shown, text_row, Canvas, Color, Line, Rect, Span, SpanView, Style, Widget, WidgetView};

verus! {

/// The most rows the table shows.
pub const VISIBLE_ROWS: usize = 15;

/// Width of the PROCESS column. Wide enough for `systemd-journald` plus a
/// five-digit pid, which is about as long as a real name gets.
pub const PROC_W: usize = 22;

/// What a row takes besides the path, span for span: the lead, PROCESS, rate,
/// total, age and kind, and the gaps between them.
pub const FIXED: usize = 3 + 2 + PROC_W + 2 + 6 + 2 + 6 + 2 + 4 + 2 + 6;

/// The narrowest PATH column.
pub const PATH_MIN: usize = 18;

/// The widest PATH column.
pub const PATH_MAX: usize = 68;

/// A hundredth, as a double.
pub const HUNDREDTH: u64 = 0x3F84_7AE1_47AE_147B;

/// What last happened to a file.
#[derive(Debug, Clone, Copy, PartialEq, Eq, Structural)]
pub enum ActivityKind {
    Created,
    Modified,
    Removed,
    Renamed,
    Other,
}

/// The activity on one path.
#[derive(Debug)]
pub struct FileActivity {
    pub path: FilePath,
    pub events_per_sec: Double,
    pub total_events: u64,
    pub last_kind: ActivityKind,
    /// How the table spells `last_kind`.
    pub kind_label: String,
    /// When the last event came, in nanoseconds on the collector's clock.
    pub last_seen: u64,
}

/// What the watcher has gathered.
#[derive(Debug)]
pub struct HotFiles {
    /// The directories being watched.
    pub roots: Vec<FilePath>,
    pub error: Option<String>,
    /// How many paths are active.
    pub active: usize,
    pub total_events: u64,
    /// The active paths, the highest event rate first.
    pub ranked: Vec<FileActivity>,
}

/// The width of the PATH column.
pub open spec fn path_column(inner_w: u16) -> usize {
    if inner_w < FIXED + PATH_MIN {
        PATH_MIN
    } else if inner_w > FIXED + PATH_MAX {
        PATH_MAX
    } else {
        (inner_w - FIXED) as usize
    }
}

/// PATH takes whatever the other columns leave. It shrinks before the process
/// column does: a truncated path is still recognisable from its tail, whereas
/// half a process name is not an answer to anything.
pub fn path_width(inner_w: u16) -> (r: usize)
    ensures
        r == path_column(inner_w),
{
    let w: usize = inner_w as usize;
    if w < FIXED + PATH_MIN {
        PATH_MIN
    } else if w > FIXED + PATH_MAX {
        PATH_MAX
    } else {
        w - FIXED
    }
}

/// The banner is three lines plus a border, and a fourth when part of the
/// process table is hidden. That last line is the one a user can act on.
pub fn banner_height(coverage: &Coverage) -> (r: u16)
    ensures
        r == banner_rows(*coverage),
{
    if coverage.is_partial() {
        6
    } else {
        5
    }
}

/// How many rows the banner takes.
pub open spec fn banner_rows(coverage: Coverage) -> u16 {
    if coverage.hidden > 0 {
        6
    } else {
        5
    }
}

/// A path in at most `w` characters. What is too long loses its head, so that
/// the file name stays visible.
pub open spec fn path_text(s: Seq<char>, w: nat) -> Seq<char> {
    if s.len() <= w {
        s
    } else {
        "\u{2026}"@ + s.skip(s.len() - (w - 1))
    }
}

/// A path in at most `w` characters.
pub fn display_path(s: &str, w: usize) -> (r: String)
    requires
        w >= 1 || s@.len() == 0,
    ensures
        r@ == path_text(s@, w as nat),
        r@.len() <= w,
{
    let len: usize = s.unicode_len();
    if len <= w {
        return s.to_owned();
    }
    proof {
        reveal_strlit("\u{2026}");
    }
    let tail: &str = s.substring_char(len - (w - 1), len);
    assert(tail@ =~= s@.skip(s@.len() - (w - 1)));
    "\u{2026}".to_owned().concat(tail)
}

/// An age in its largest unit, rounded down.
pub open spec fn age_text(secs: u64) -> Seq<char> {
    if secs < 60 {
        decimal(secs as nat) + "s"@
    } else if secs < 3600 {
        decimal((secs / 60) as nat) + "m"@
    } else {
        decimal((secs / 3600) as nat) + "h"@
    }
}

/// An age in its largest unit.
pub fn age_label(secs: u64) -> (r: String)
    ensures
        r@ == age_text(secs),
{
    if secs < 60 {
        decimal_text(secs).concat("s")
    } else if secs < 3600 {
        decimal_text(secs / 60).concat("m")
    } else {
        decimal_text(secs / 3600).concat("h")
    }
}

/// The PROCESS cell of an owner.
pub open spec fn owner_text(owner: Option<ProcessTick>) -> Seq<char> {
    match owner {
        Some(o) => left_column(label_text(o.name@, o.pid, PROC_W as nat), PROC_W as nat),
        None => left_column("\u{2014}"@, PROC_W as nat),
    }
}

/// What an optional reference points at.
pub open spec fn owned(owner: Option<&ProcessTick>) -> Option<ProcessTick> {
    match owner {
        Some(o) => Some(*o),
        None => None,
    }
}

/// The column cell: a clipped `name (pid)`, or an em dash when nothing
/// visible holds the path open, which unprivileged does not mean nothing
/// does.
pub fn owner_label(owner: Option<&ProcessTick>) -> (r: String)
    ensures
        r@ == owner_text(owned(owner)),
        r@.len() == PROC_W,
{
    match owner {
        Some(o) => pad_right(o.label(PROC_W).as_str(), PROC_W),
        None => pad_right("\u{2014}", PROC_W),
    }
}

/// The colour of the PROCESS cell.
pub open spec fn owner_ink(owner: Option<ProcessTick>) -> Color {
    match owner {
        Some(o) => if o.total().reaches(1_000_000) {
            Color::Yellow
        } else if o.total().positive() {
            Color::Fg
        } else {
            Color::Dim
        },
        None => Color::Faint,
    }
}

/// A holder doing no measurable IO is dimmed rather than hidden. It is still
/// the best available answer, but it has not been corroborated by a byte
/// rate, and the colour is what says so.
pub fn owner_color(owner: Option<&ProcessTick>) -> (r: Color)
    ensures
        r == owner_ink(owned(owner)),
{
    match owner {
        Some(o) => {
            let total: Double = o.total_bps();
            if total.is_at_least(1_000_000) {
                Color::Yellow
            } else if total.is_positive() {
                Color::Fg
            } else {
                Color::Dim
            }
        },
        None => Color::Faint,
    }
}

/// The roots being watched, side by side.
pub open spec fn roots_text(roots: Seq<FilePath>) -> Seq<char>
    decreases roots.len(),
{
    if roots.len() == 0 {
        seq![]
    } else if roots.len() == 1 {
        lossy_text(roots[0]@)
    } else {
        roots_text(roots.drop_last()) + "  "@ + lossy_text(roots.last()@)
    }
}

fn join_roots(roots: &Vec<FilePath>) -> (r: String)
    ensures
        r@ == roots_text(roots@),
{
    let mut out: String = String::new();
    let mut i: usize = 0;
    while i < roots.len()
        invariant
            i <= roots.len(),
            out@ == roots_text(roots@.take(i as int)),
        decreases roots.len() - i,
    {
        assert(roots@.take(i + 1).drop_last() =~= roots@.take(i as int));
        let text: String = roots[i].display();
        if i > 0 {
            out.append("  ");
        }
        out.append(text.as_str());
        i = i + 1;
        assert(out@ =~= roots_text(roots@.take(i as int)));
    }
    assert(roots@.take(i as int) =~= roots@);
    out
}

/// What the watcher is doing. Roots and errors are shown together, not
/// either/or: one bad path must not hide every good one.
pub open spec fn watch_spans(hot: HotFiles) -> Seq<SpanView> {
    let lead = seq![
        shown(" "@, Style::plain()),
        shown("watch"@, Style::ink(Color::Dim)),
        shown("  "@, Style::plain()),
        if hot.roots@.len() == 0 {
            shown("(no roots)"@, Style::ink(Color::Dim))
        } else {
            shown(roots_text(hot.roots@), Style::ink(Color::Fg))
        },
    ];
    let error = match hot.error {
        Some(e) => seq![
            shown("   "@, Style::plain()),
            shown("ERROR: "@ + e@, Style::ink(Color::Red).weight(true)),
        ],
        None => seq![],
    };
    let counts = seq![
        shown("   "@, Style::plain()),
        shown(
            decimal(hot.active as nat) + " active paths  "@ + decimal(hot.total_events as nat)
                + " events since start"@,
            Style::ink(Color::Dim),
        ),
    ];
    lead + error + counts
}

/// The busiest process overall, where there is one and the line is at least
/// 110 wide.
pub open spec fn busiest_spans(processes: ProcessCollector, width: u16) -> Seq<SpanView> {
    let order = ranking(processes.procs@);
    if width >= 110 && order.len() > 0 {
        seq![
            shown("   "@, Style::plain()),
            shown("busiest"@, Style::ink(Color::Dim)),
            shown("  "@, Style::plain()),
            shown(
                full_label(order[0].name@, order[0].pid) + "  "@ + rate_prose(order[0].total()),
                Style::ink(Color::Fg),
            ),
        ]
    } else {
        seq![]
    }
}

/// The summary line.
pub open spec fn summary_page(
    area: Rect,
    hot: HotFiles,
    processes: ProcessCollector,
) -> Seq<WidgetView> {
    seq![
        text_row(
            Rect { height: 1, ..area },
            watch_spans(hot) + busiest_spans(processes, area.width),
            Style::ground(Color::Bg),
        ),
    ]
}

/// The summary line: what is watched, how much happened, and the busiest
/// process overall, deliberately not filtered to processes holding a hot
/// path: the descriptor scan misses short-lived writers, and this reading
/// still catches them.
pub fn draw_summary(area: Rect, hot: &HotFiles, processes: &ProcessCollector) -> (r: Canvas)
    requires
        processes.wf(),
    ensures
        r@ == summary_page(area, *hot, *processes),
{
    let mut line: Line = Line::new();
    line.put_str(" ", Style::plain());
    line.put_str("watch", Style::ink(Color::Dim));
    line.put_str("  ", Style::plain());
    if hot.roots.len() == 0 {
        line.put_str("(no roots)", Style::ink(Color::Dim));
    } else {
        line.put(join_roots(&hot.roots), Style::ink(Color::Fg));
    }
    match &hot.error {
        Some(e) => {
            line.put_str("   ", Style::plain());
            line.put(
                "ERROR: ".to_owned().concat(e.as_str()),
                Style::ink(Color::Red).weight(true),
            );
        },
        None => {},
    }
    line.put_str("   ", Style::plain());
    let active: String = decimal_text(hot.active as u64);
    let events: String = decimal_text(hot.total_events);
    line.put(
        active.concat(" active paths  ").concat(events.as_str()).concat(" events since start"),
        Style::ink(Color::Dim),
    );
    assert(line@ =~= watch_spans(*hot));
    // Dropped rather than clipped below the width where it fits: a
    // half-written process name in the summary reads as a rendering bug.
    if area.width >= 110 {
        let top: Vec<ProcessTick> = processes.top(1);
        if top.len() > 0 {
            let busiest: &ProcessTick = &top[0];
            let pid: String = decimal_text(busiest.pid as u64);
            let rate: String = fmt_rate_compact(busiest.total_bps());
            line.put_str("   ", Style::plain());
            line.put_str("busiest", Style::ink(Color::Dim));
            line.put_str("  ", Style::plain());
            let text: String = busiest.name.clone().concat(" (").concat(pid.as_str()).concat(
                ")  ",
            ).concat(rate.as_str());
            proof {
                reveal_strlit(")  ");
                reveal_strlit(")");
                reveal_strlit("  ");
                assert(text@ =~= full_label(busiest.name@, busiest.pid) + "  "@ + rate_prose(
                    busiest.total(),
                ));
            }
            line.put(text, Style::ink(Color::Fg));
        }
    }
    assert(line@ =~= watch_spans(*hot) + busiest_spans(*processes, area.width));
    let mut canvas: Canvas = Canvas::new();
    canvas.row(
        Rect { x: area.x, y: area.y, width: area.width, height: 1 },
        line,
        Style::ground(Color::Bg),
    );
    assert(canvas@ =~= summary_page(area, *hot, *processes));
    canvas
}

/// An event rate in its column.
pub open spec fn events_text(rate: Double) -> Seq<char> {
    if rate.reaches(1) {
        rate.fixed(1)
    } else if !rate.nan() && rate.rank() > (Double { bits: HUNDREDTH }).rank() {
        rate.fixed(2)
    } else {
        "\u{2014}"@
    }
}

/// An event rate in its column.
pub fn events_label(rate: Double) -> (r: String)
    ensures
        r@ == events_text(rate),
{
    assert(!(Double { bits: HUNDREDTH }).nan());
    if rate.is_at_least(1) {
        rate.to_fixed(1)
    } else if (Double { bits: HUNDREDTH }).below(rate) {
        rate.to_fixed(2)
    } else {
        "\u{2014}".to_owned()
    }
}

/// The colour of an event rate.
pub open spec fn events_ink(rate: Double) -> Color {
    if rate.reaches(20) {
        Color::Yellow
    } else if rate.reaches(5) {
        Color::BrCyan
    } else if rate.reaches(1) {
        Color::Fg
    } else {
        Color::Dim
    }
}

/// The colour of an event rate.
pub fn events_color(rate: Double) -> (r: Color)
    ensures
        r == events_ink(rate),
{
    if rate.is_at_least(20) {
        Color::Yellow
    } else if rate.is_at_least(5) {
        Color::BrCyan
    } else if rate.is_at_least(1) {
        Color::Fg
    } else {
        Color::Dim
    }
}

/// The colour of an event kind.
pub open spec fn kind_ink(kind: ActivityKind) -> Color {
    match kind {
        ActivityKind::Created => Color::Green,
        ActivityKind::Modified => Color::Cyan,
        ActivityKind::Removed => Color::Red,
        ActivityKind::Renamed => Color::Magenta,
        ActivityKind::Other => Color::Dim,
    }
}

/// The colour of an event kind.
pub fn kind_color(kind: ActivityKind) -> (r: Color)
    ensures
        r == kind_ink(kind),
{
    match kind {
        ActivityKind::Created => Color::Green,
        ActivityKind::Modified => Color::Cyan,
        ActivityKind::Removed => Color::Red,
        ActivityKind::Renamed => Color::Magenta,
        ActivityKind::Other => Color::Dim,
    }
}

/// One row of the table, span for span. The first row leads.
pub open spec fn row_spans(
    fa: FileActivity,
    owner: Option<ProcessTick>,
    path_w: usize,
    now: u64,
    leader: bool,
) -> Seq<SpanView> {
    let gap = shown("  "@, Style::plain());
    seq![
        shown(" "@, Style::plain()),
        shown(
            "\u{25cf}"@,
            Style::ink(
                if leader {
                    Color::Yellow
                } else {
                    Color::Green
                },
            ),
        ),
        shown(" "@, Style::plain()),
        shown(
            left_column(path_text(lossy_text(fa.path@), path_w as nat), path_w as nat),
            Style::ink(Color::Fg),
        ),
        gap,
        shown(owner_text(owner), Style::ink(owner_ink(owner))),
        gap,
        shown(
            right_column(events_text(fa.events_per_sec), 6),
            Style::ink(events_ink(fa.events_per_sec)).weight(leader),
        ),
        gap,
        shown(right_column(decimal(fa.total_events as nat), 6), Style::ink(Color::Dim)),
        gap,
        shown(
            right_column(age_text(since(fa.last_seen, now) / SECOND), 4),
            Style::ink(Color::Dim),
        ),
        gap,
        shown(fa.kind_label@, Style::ink(kind_ink(fa.last_kind))),
    ]
}

/// One row of the table: its background, then its text.
pub open spec fn row_page(
    area: Rect,
    fa: FileActivity,
    owner: Option<ProcessTick>,
    path_w: usize,
    now: u64,
    leader: bool,
) -> Seq<WidgetView> {
    let ground = Style::ground(
        if leader {
            Color::SelBg
        } else {
            Color::Bg
        },
    );
    seq![
        WidgetView::Text { area, lines: seq![], base: ground },
        text_row(area, row_spans(fa, owner, path_w, now, leader), ground),
    ]
}

/// One row of the table.
pub fn draw_row(
    area: Rect,
    fa: &FileActivity,
    owner: Option<&ProcessTick>,
    path_w: usize,
    now: u64,
    leader: bool,
) -> (r: Canvas)
    requires
        path_w >= 1,
    ensures
        r@ == row_page(area, *fa, owned(owner), path_w, now, leader),
{
    let rate: String = events_label(fa.events_per_sec);
    let dot: Color = if leader {
        Color::Yellow
    } else {
        Color::Green
    };
    let path: String = display_path(fa.path.display().as_str(), path_w);
    let age: String = age_label(
        if now >= fa.last_seen {
            (now - fa.last_seen) / SECOND
        } else {
            0
        },
    );
    let total: String = decimal_text(fa.total_events);
    let row_bg: Style = Style::ground(
        if leader {
            Color::SelBg
        } else {
            Color::Bg
        },
    );
    let mut canvas: Canvas = Canvas::new();
    let blank: Vec<Line> = Vec::new();
    assert(lines_view(blank@) =~= seq![]);
    canvas.paint(Widget::Text { area, lines: blank, base: row_bg });
    let mut line: Line = Line::new();
    line.put_str(" ", Style::plain());
    line.put_str("\u{25cf}", Style::ink(dot));
    line.put_str(" ", Style::plain());
    line.put(pad_right(path.as_str(), path_w), Style::ink(Color::Fg));
    line.put_str("  ", Style::plain());
    line.put(owner_label(owner), Style::ink(owner_color(owner)));
    line.put_str("  ", Style::plain());
    line.put(
        pad_left(rate.as_str(), 6),
        Style::ink(events_color(fa.events_per_sec)).weight(leader),
    );
    line.put_str("  ", Style::plain());
    line.put(pad_left(total.as_str(), 6), Style::ink(Color::Dim));
    line.put_str("  ", Style::plain());
    line.put(pad_left(age.as_str(), 4), Style::ink(Color::Dim));
    line.put_str("  ", Style::plain());
    line.put(fa.kind_label.clone(), Style::ink(kind_color(fa.last_kind)));
    assert(line@ =~= row_spans(*fa, owned(owner), path_w, now, leader));
    canvas.row(area, line, row_bg);
    assert(canvas@ =~= row_page(area, *fa, owned(owner), path_w, now, leader));
    canvas
}

/// The heading over the columns.
pub open spec fn header_text(path_w: usize) -> Seq<char> {
    "   "@ + left_column("PATH"@, path_w as nat) + "  "@ + left_column("PROCESS"@, PROC_W as nat)
        + "  "@ + right_column("EV/s"@, 6) + "  "@ + right_column("TOTAL"@, 6) + "  "@
        + right_column("AGE"@, 4) + "  "@ + "KIND"@
}

fn header(path_w: usize) -> (r: String)
    ensures
        r@ == header_text(path_w),
{
    let path: String = pad_right("PATH", path_w);
    let process: String = pad_right("PROCESS", PROC_W);
    let rate: String = pad_left("EV/s", 6);
    let total: String = pad_left("TOTAL", 6);
    let age: String = pad_left("AGE", 4);
    "   ".to_owned().concat(path.as_str()).concat("  ").concat(process.as_str()).concat("  ").concat(
        rate.as_str(),
    ).concat("  ").concat(total.as_str()).concat("  ").concat(age.as_str()).concat("  ").concat(
        "KIND",
    )
}

/// The width less `n`, or zero.
pub open spec fn narrowed(width: u16, n: u16) -> u16 {
    if width >= n {
        (width - n) as u16
    } else {
        0
    }
}

fn narrow(width: u16, n: u16) -> (r: u16)
    ensures
        r == narrowed(width, n),
{
    if width >= n {
        width - n
    } else {
        0
    }
}

/// How many rows of activity fit under the heading of `inner`.
pub open spec fn rows_shown(inner: Rect, ranked: nat) -> nat {
    let room = if inner.height - 2 < VISIBLE_ROWS {
        (inner.height - 2) as nat
    } else {
        VISIBLE_ROWS as nat
    };
    if ranked < room {
        ranked
    } else {
        room
    }
}

/// The best guess at who is responsible for `path`.
pub open spec fn owner_of(processes: ProcessCollector, path: Seq<u8>) -> Option<ProcessTick> {
    let order = ranking(processes.holders(path));
    if order.len() > 0 {
        Some(order[0])
    } else {
        None
    }
}

/// The first `n` rows of activity.
pub open spec fn activity_page(
    inner: Rect,
    hot: HotFiles,
    processes: ProcessCollector,
    now: u64,
    n: nat,
) -> Seq<WidgetView>
    decreases n,
{
    if n == 0 {
        seq![]
    } else {
        let i = (n - 1) as nat;
        let fa = hot.ranked@[i as int];
        activity_page(inner, hot, processes, now, i) + row_page(
            Rect {
                x: (inner.x + 1) as u16,
                y: (inner.y + 2 + i) as u16,
                width: narrowed(inner.width, 2),
                height: 1,
            },
            fa,
            owner_of(processes, fa.path@),
            path_column(narrowed(inner.width, 2)),
            now,
            i == 0,
        )
    }
}

/// What stands in an empty table.
pub open spec fn idle_text(hot: HotFiles) -> Seq<char> {
    if hot.error is Some {
        "  watcher not running \u{2014} see banner below"@
    } else {
        "  waiting for filesystem activity\u{2026}"@
    }
}

/// The frame of the table.
pub open spec fn table_block(area: Rect) -> WidgetView {
    WidgetView::Block {
        area,
        title: Some(
            shown(" HOT FILES  by event rate "@, Style::ink(Color::Cyan).weight(true)),
        ),
        border: Style::ink(Color::Faint).on(Color::Bg),
        base: Style::ground(Color::Bg),
    }
}

/// The table: the frame, the heading, a rule, and the rows of activity.
pub open spec fn table_page(
    area: Rect,
    hot: HotFiles,
    processes: ProcessCollector,
    now: u64,
) -> Seq<WidgetView> {
    let inner = inner_of(area);
    let x = (inner.x + 1) as u16;
    let row_w = narrowed(inner.width, 2);
    let ground = Style::ground(Color::Bg);
    if inner.height < 3 {
        seq![table_block(area)]
    } else {
        seq![
            table_block(area),
            text_row(
                Rect { x, y: inner.y, width: narrowed(inner.width, 1), height: 1 },
                seq![shown(header_text(path_column(row_w)), Style::ink(Color::Dim))],
                ground,
            ),
            text_row(
                Rect { x, y: (inner.y + 1) as u16, width: row_w, height: 1 },
                seq![
                    shown(
                        repeated('\u{2500}', row_w as nat),
                        Style::ink(Color::Faint).on(Color::Bg),
                    ),
                ],
                Style::plain(),
            ),
        ] + if hot.ranked@.len() == 0 {
            seq![
                text_row(
                    Rect { x, y: (inner.y + 2) as u16, width: row_w, height: 1 },
                    seq![shown(idle_text(hot), Style::ink(Color::Dim))],
                    ground,
                ),
            ]
        } else {
            activity_page(inner, hot, processes, now, rows_shown(inner, hot.ranked@.len()))
        }
    }
}

/// No cell of the table lies beyond the largest coordinate.
pub open spec fn table_fits(area: Rect) -> bool {
    &&& area.y + area.height <= u16::MAX
    &&& area.height >= 5 ==> inner_of(area).x < u16::MAX
}

/// The table.
pub fn draw_table(area: Rect, hot: &HotFiles, processes: &ProcessCollector, now: u64) -> (r: Canvas)
    requires
        processes.wf(),
        table_fits(area),
    ensures
        r@ == table_page(area, *hot, *processes, now),
{
    let mut canvas: Canvas = Canvas::new();
    let title: Span = Span {
        text: " HOT FILES  by event rate ".to_owned(),
        style: Style::ink(Color::Cyan).weight(true),
    };
    canvas.paint(
        Widget::Block {
            area,
            title: Some(title),
            border: Style::ink(Color::Faint).on(Color::Bg),
            base: Style::ground(Color::Bg),
        },
    );
    let inner: Rect = block_inner(area);
    if inner.height < 3 {
        assert(canvas@ =~= table_page(area, *hot, *processes, now));
        return canvas;
    }
    let x: u16 = inner.x + 1;
    // The row is drawn one cell in from both sides of the frame, so that,
    // not the block's inner width, is what the columns have to fit inside.
    let row_w: u16 = narrow(inner.width, 2);
    let path_w: usize = path_width(row_w);
    canvas.row(
        Rect { x, y: inner.y, width: narrow(inner.width, 1), height: 1 },
        Line::of(header(path_w), Style::ink(Color::Dim)),
        Style::ground(Color::Bg),
    );
    let mut rule: String = String::new();
    push_repeated(&mut rule, '\u{2500}', row_w as usize);
    assert(rule@ =~= repeated('\u{2500}', row_w as nat));
    canvas.row(
        Rect { x, y: inner.y + 1, width: row_w, height: 1 },
        Line::of(rule, Style::ink(Color::Faint).on(Color::Bg)),
        Style::plain(),
    );
    let ghost framed = canvas@;
    if hot.ranked.len() == 0 {
        let idle: &str = match &hot.error {
            Some(_) => "  watcher not running \u{2014} see banner below",
            None => "  waiting for filesystem activity\u{2026}",
        };
        canvas.row(
            Rect { x, y: inner.y + 2, width: row_w, height: 1 },
            Line::of(idle.to_owned(), Style::ink(Color::Dim)),
            Style::ground(Color::Bg),
        );
        assert(canvas@ =~= table_page(area, *hot, *processes, now));
        return canvas;
    }
    let room: usize = inner.height as usize - 2;
    let visible: usize = if room < VISIBLE_ROWS {
        room
    } else {
        VISIBLE_ROWS
    };
    let n: usize = if hot.ranked.len() < visible {
        hot.ranked.len()
    } else {
        visible
    };
    let mut i: usize = 0;
    assert(canvas@ =~= framed + activity_page(inner, *hot, *processes, now, 0));
    while i < n
        invariant
            i <= n <= hot.ranked.len(),
            n + 2 <= inner.height,
            inner.y + inner.height <= u16::MAX,
            processes.wf(),
            x == inner.x + 1,
            row_w == narrowed(inner.width, 2),
            path_w == path_column(row_w),
            canvas@ == framed + activity_page(inner, *hot, *processes, now, i as nat),
        decreases n - i,
    {
        let fa: &FileActivity = &hot.ranked[i];
        let row: Canvas = draw_row(
            Rect { x, y: inner.y + 2 + i as u16, width: row_w, height: 1 },
            fa,
            processes.likely_owner(&fa.path),
            path_w,
            now,
            i == 0,
        );
        canvas.extend(row);
        i = i + 1;
        assert(canvas@ =~= framed + activity_page(inner, *hot, *processes, now, i as nat));
    }
    assert(canvas@ =~= table_page(area, *hot, *processes, now));
    canvas
}

/// The lines of the banner. The watcher not carrying bytes is permanent,
/// whereas the process table being half-hidden is a privilege the user can
/// change, so the two caveats are kept apart.
pub open spec fn banner_lines(coverage: Coverage) -> Seq<Seq<SpanView>> {
    let notes = seq![
        seq![
            shown(" note  "@, Style::ink(Color::Yellow).weight(true)),
            shown(
                "Rates are events/sec, not bytes \u{2014} the watcher reports paths and kinds only."@,
                Style::ink(Color::Fg),
            ),
        ],
        seq![
            shown(
                "       PROCESS is the busiest holder of the path, sampled every 2s."@,
                Style::ink(Color::Dim),
            ),
        ],
        seq![
            shown(
                "       Short-lived writers that close between samples are missed."@,
                Style::ink(Color::Dim),
            ),
        ],
    ];
    if coverage.hidden > 0 {
        notes.push(
            seq![
                shown("       "@, Style::plain()),
                shown(
                    decimal(coverage.hidden as nat) + " of "@ + decimal(
                        (coverage.visible + coverage.hidden) as nat,
                    ) + " processes hidden"@,
                    Style::ink(Color::Yellow),
                ),
                shown(" \u{2014} run as root to attribute them."@, Style::ink(Color::Dim)),
            ],
        )
    } else {
        notes
    }
}

/// The banner: a frame and its lines.
pub open spec fn banner_page(area: Rect, coverage: Coverage) -> Seq<WidgetView> {
    seq![
        WidgetView::Block {
            area,
            title: None,
            border: Style::ink(Color::Faint).on(Color::Bg),
            base: Style::ground(Color::Bg),
        },
        WidgetView::Text {
            area: inner_of(area),
            lines: banner_lines(coverage),
            base: Style::ground(Color::Bg),
        },
    ]
}

/// The banner.
pub fn draw_banner(area: Rect, coverage: &Coverage) -> (r: Canvas)
    requires
        coverage.visible + coverage.hidden <= usize::MAX,
    ensures
        r@ == banner_page(area, *coverage),
{
    let mut canvas: Canvas = Canvas::new();
    canvas.paint(
        Widget::Block {
            area,
            title: None,
            border: Style::ink(Color::Faint).on(Color::Bg),
            base: Style::ground(Color::Bg),
        },
    );
    let inner: Rect = block_inner(area);
    let mut lines: Vec<Line> = Vec::new();
    let mut note: Line = Line::new();
    note.put_str(" note  ", Style::ink(Color::Yellow).weight(true));
    note.put_str(
        "Rates are events/sec, not bytes \u{2014} the watcher reports paths and kinds only.",
        Style::ink(Color::Fg),
    );
    let ghost first = note@;
    lines.push(note);
    // Kept short deliberately: the banner does not wrap, and a line longer
    // than the narrowest terminal that reaches this tab is a line whose last
    // clause nobody ever reads.
    lines.push(
        Line::of(
            "       PROCESS is the busiest holder of the path, sampled every 2s.".to_owned(),
            Style::ink(Color::Dim),
        ),
    );
    lines.push(
        Line::of(
            "       Short-lived writers that close between samples are missed.".to_owned(),
            Style::ink(Color::Dim),
        ),
    );
    if coverage.is_partial() {
        let hidden: String = decimal_text(coverage.hidden as u64);
        let total: String = decimal_text(coverage.total() as u64);
        let mut partial: Line = Line::new();
        partial.put_str("       ", Style::plain());
        partial.put(
            hidden.concat(" of ").concat(total.as_str()).concat(" processes hidden"),
            Style::ink(Color::Yellow),
        );
        partial.put_str(" \u{2014} run as root to attribute them.", Style::ink(Color::Dim));
        let ghost fourth = partial@;
        lines.push(partial);
        assert(fourth =~= banner_lines(*coverage)[3]);
    }
    assert(first =~= banner_lines(*coverage)[0]);
    assert(lines_view(lines@) =~= banner_lines(*coverage));
    canvas.paint(Widget::Text { area: inner, lines, base: Style::ground(Color::Bg) });
    assert(canvas@ =~= banner_page(area, *coverage));
    canvas
}

/// The tab over three rows of the screen.
pub open spec fn hot_page(
    rows: Seq<Rect>,
    hot: HotFiles,
    processes: ProcessCollector,
    now: u64,
) -> Seq<WidgetView> {
    summary_page(rows[0], hot, processes) + table_page(rows[1], hot, processes, now) + banner_page(
        rows[2],
        processes.coverage,
    )
}

/// The tab over three rows of the screen: the summary, the table and the
/// banner.
pub fn draw_rows(rows: &Vec<Rect>, hot: &HotFiles, processes: &ProcessCollector, now: u64) -> (r:
    Canvas)
    requires
        rows@.len() == 3,
        processes.wf(),
        table_fits(rows@[1]),
    ensures
        r@ == hot_page(rows@, *hot, *processes, now),
{
    let mut canvas: Canvas = draw_summary(rows[0], hot, processes);
    canvas.extend(draw_table(rows[1], hot, processes, now));
    canvas.extend(draw_banner(rows[2], &processes.coverage()));
    canvas
}

/// The rows that the summary, the table and the banner take of `area`.
pub open spec fn hot_rows(rows: Seq<Rect>, area: Rect, coverage: Coverage) -> bool {
    three_rows(rows, area, 2, 6, banner_rows(coverage))
}

/// The tab over `area`. How the summary and the banner share an area that is
/// too low for both is the layout solver's choice; whatever it chooses,
/// [`draw_rows`] draws on.
pub fn draw(area: Rect, hot: &HotFiles, processes: &ProcessCollector, now: u64) -> (r: Canvas)
    requires
        processes.wf(),
        table_fits(area),
    ensures
        exists|rows: Seq<Rect>|
            #![trigger hot_page(rows, *hot, *processes, now)]
            hot_rows(rows, area, processes.coverage) && r@ == hot_page(
                rows,
                *hot,
                *processes,
                now,
            ),
{
    let banner: u16 = banner_height(&processes.coverage());
    let rows: Vec<Rect> = split_rows(area, 2, 6, banner);
    draw_rows(&rows, hot, processes, now)
}

} // verus!
