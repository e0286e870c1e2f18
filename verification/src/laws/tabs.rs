//! What the tabs promise to show, cell by cell.
use vstd::prelude::*;

use crate::binary64::Double;
use crate::collect::processes::{label_text, Coverage, ProcessCollector, ProcessTick};
use crate::collect::ranking::ranking;
use crate::laws::collect::{law_processes_can_be_ranked, law_ranking_goes_by_bytes, law_the_busiest_holder_is_the_owner};
use crate::layout::inner_of;
use crate::paths::{lossy_text, FilePath};
use crate::tabs::hot::{activity_page, age_text, banner_lines, banner_page, banner_rows, events_ink, events_text, header_text, hot_page, kind_ink, owner_ink, owner_of, owner_text, path_column, path_text, roots_text, row_spans, rows_shown, summary_page, table_fits, table_page, ActivityKind, FileActivity, HotFiles};
use crate::tabs::insights::{card_lines, card_page, cards_page, cards_shown, count_of, disclaimer_fits, first_row, header_spans, insights_page, rows_below, Insight, Severity, CARD_H};
use crate::text::{decimal, repeated};
use crate::ui::format::{left_column, rate_prose, right_column};
use crate::ui::paint::{Color, Rect, SpanView, Style, WidgetView};

verus! {

/// Text in one colour.
pub open spec fn colored(text: Seq<char>, fg: Color) -> SpanView {
    SpanView { text, style: Style { fg: Some(fg), bg: None, bold: false } }
}

/// Bold text in one colour.
pub open spec fn stressed(text: Seq<char>, fg: Color) -> SpanView {
    SpanView { text, style: Style { fg: Some(fg), bg: None, bold: true } }
}

/// Text that takes its looks from what lies underneath.
pub open spec fn bare(text: Seq<char>) -> SpanView {
    SpanView { text, style: Style { fg: None, bg: None, bold: false } }
}

/// A background and nothing else.
pub open spec fn backdrop(bg: Color) -> Style {
    Style { fg: None, bg: Some(bg), bold: false }
}

/// A frame in colour `fg`, on the background.
pub open spec fn frame(area: Rect, title: Option<SpanView>, fg: Color) -> WidgetView {
    WidgetView::Block {
        area,
        title,
        border: Style { fg: Some(fg), bg: Some(Color::Bg), bold: false },
        base: backdrop(Color::Bg),
    }
}

/// Lines of text on a background.
pub open spec fn page(area: Rect, lines: Seq<Seq<SpanView>>, bg: Color) -> WidgetView {
    WidgetView::Text { area, lines, base: backdrop(bg) }
}

/// A path that fits is shown whole; one that does not keeps its end, behind
/// an ellipsis, and fills the room there is.
pub proof fn law_paths_keep_their_end(s: Seq<char>, w: nat)
    requires
        w >= 1,
    ensures
        s.len() <= w ==> path_text(s, w) == s,
        s.len() > w ==> {
            &&& path_text(s, w).len() == w
            &&& path_text(s, w)[0] == '\u{2026}'
            &&& path_text(s, w).skip(1).is_suffix_of(s)
        },
{
    reveal_strlit("\u{2026}");
    if s.len() > w {
        let end = s.skip(s.len() - (w - 1));
        assert(path_text(s, w).skip(1) =~= end);
        assert(end =~= s.subrange(s.len() - end.len(), s.len() as int));
    }
}

/// An age is counted in seconds below a minute, in whole minutes below an
/// hour, and in whole hours from there on.
pub proof fn law_ages_are_counted_in_whole_units(secs: u64, n: nat)
    ensures
        secs < 60 ==> age_text(secs) == decimal(secs as nat).push('s'),
        60 <= secs < 3600 && 60 * n <= secs < 60 * n + 60 ==> age_text(secs) == decimal(n).push('m'),
        3600 <= secs && 3600 * n <= secs < 3600 * n + 3600 ==> age_text(secs) == decimal(n).push(
            'h',
        ),
{
    reveal_strlit("s");
    reveal_strlit("m");
    reveal_strlit("h");
    if secs < 60 {
        assert(age_text(secs) =~= decimal(secs as nat).push('s'));
    } else if secs < 3600 {
        if 60 * n <= secs < 60 * n + 60 {
            assert(secs / 60 == n);
            assert(age_text(secs) =~= decimal(n).push('m'));
        }
    } else if 3600 * n <= secs < 3600 * n + 3600 {
        assert(secs / 3600 == n);
        assert(age_text(secs) =~= decimal(n).push('h'));
    }
}

/// A label is the name and, in brackets, the pid. Where that is too long the
/// front of the name stays, as much of it as there is room for before an
/// ellipsis and the pid; where there is no room for any of it, the front of
/// the pid stays.
pub proof fn law_labels_name_the_process(name: Seq<char>, pid: u32, width: nat)
    ensures
        ({
            let digits = decimal(pid as nat);
            let pid_part = seq![' ', '('] + digits + seq![')'];
            let label = label_text(name, pid, width);
            if name.len() + digits.len() + 3 <= width {
                label == name + pid_part
            } else if digits.len() + 5 <= width {
                &&& label.len() == width
                &&& label == name.take(width - digits.len() - 4) + seq!['\u{2026}'] + pid_part
            } else {
                &&& label.is_prefix_of(digits)
                &&& label.len() == (if digits.len() <= width {
                    digits.len()
                } else {
                    width
                })
            }
        }),
{
    reveal_strlit(" (");
    reveal_strlit(")");
    reveal_strlit("\u{2026}");
    let digits = decimal(pid as nat);
    let pid_part = seq![' ', '('] + digits + seq![')'];
    let label = label_text(name, pid, width);
    assert(" ("@ + digits + ")"@ =~= pid_part);
    if name.len() + digits.len() + 3 <= width {
        assert(label =~= name + pid_part);
    } else if digits.len() + 5 <= width {
        assert(label =~= name.take(width - digits.len() - 4) + seq!['\u{2026}'] + pid_part);
    } else {
        assert(label =~= digits.take(label.len() as int));
    }
}

/// The PROCESS cell is the label of the owner in 22 characters, or a dash
/// where there is none, and spaces up to the end of the column.
pub proof fn law_the_process_cell_names_the_owner(o: ProcessTick, i: int)
    requires
        0 <= i < 22,
    ensures
        ({
            let label = label_text(o.name@, o.pid, 22);
            &&& owner_text(Some(o)).len() == 22
            &&& owner_text(None).len() == 22
            &&& label.len() <= 22
            &&& owner_text(Some(o))[i] == (if i < label.len() {
                label[i]
            } else {
                ' '
            })
            &&& owner_text(None)[i] == (if i == 0 {
                '\u{2014}'
            } else {
                ' '
            })
        }),
{
    reveal_strlit("\u{2014}");
    law_labels_name_the_process(o.name@, o.pid, 22);
}

/// An owner is yellow from a megabyte per second on, plain where it moves
/// anything, dim where it moves nothing, and faint where there is none.
pub proof fn law_owner_colors_go_by_rate(o: ProcessTick)
    ensures
        ({
            let total = o.read_bps.sum(o.write_bps);
            if total.reaches(1_000_000) {
                owner_ink(Some(o)) == Color::Yellow
            } else if !total.nan() && total.rank() > 0 {
                owner_ink(Some(o)) == Color::Fg
            } else {
                owner_ink(Some(o)) == Color::Dim
            }
        }),
        owner_ink(None) == Color::Faint,
{
}

/// An event rate is shown in tenths from one on, in hundredths above a
/// hundredth, and as a dash below; it stands out from one, five and twenty
/// on.
pub proof fn law_event_rates_go_by_size(rate: Double)
    requires
        !rate.nan(),
    ensures
        rate.reaches(1) ==> events_text(rate) == rate.fixed(1),
        rate.falls_short(1) && rate.rank() > (Double { bits: 0x3F84_7AE1_47AE_147B }).rank()
            ==> events_text(rate) == rate.fixed(2),
        rate.falls_short(1) && rate.rank() <= (Double { bits: 0x3F84_7AE1_47AE_147B }).rank()
            ==> events_text(rate) == seq!['\u{2014}'],
        rate.reaches(20) ==> events_ink(rate) == Color::Yellow,
        rate.falls_short(20) && rate.reaches(5) ==> events_ink(rate) == Color::BrCyan,
        rate.falls_short(5) && rate.reaches(1) ==> events_ink(rate) == Color::Fg,
        rate.falls_short(1) ==> events_ink(rate) == Color::Dim,
{
    reveal_strlit("\u{2014}");
    assert("\u{2014}"@ =~= seq!['\u{2014}']);
    let u = vstd::arithmetic::power2::pow2(crate::binary64::UNIT_EXPONENT as nat) as int;
    vstd::arithmetic::power2::lemma_pow2_pos(crate::binary64::UNIT_EXPONENT as nat);
    assert(1 * u <= 5 * u && 5 * u <= 20 * u) by (nonlinear_arith)
        requires
            u > 0,
    ;
}

/// Every kind of event has its colour.
pub proof fn law_kinds_have_their_colors(kind: ActivityKind)
    ensures
        kind_ink(kind) == Color::Green <==> kind == ActivityKind::Created,
        kind_ink(kind) == Color::Cyan <==> kind == ActivityKind::Modified,
        kind_ink(kind) == Color::Red <==> kind == ActivityKind::Removed,
        kind_ink(kind) == Color::Magenta <==> kind == ActivityKind::Renamed,
        kind_ink(kind) == Color::Dim <==> kind == ActivityKind::Other,
{
}

/// A row shows, from left to right, the path, its owner, the event rate, the
/// number of events, the age of the last one and its kind. Only the leader
/// is marked.
pub proof fn law_a_row_shows_its_activity(
    fa: FileActivity,
    owner: Option<ProcessTick>,
    path_w: usize,
    now: u64,
    leader: bool,
)
    ensures
        ({
            let spans = row_spans(fa, owner, path_w, now, leader);
            let nanos = if now >= fa.last_seen {
                now - fa.last_seen
            } else {
                0
            };
            let rate = right_column(events_text(fa.events_per_sec), 6);
            &&& spans.len() == 14
            &&& spans[0] == bare(seq![' ']) && spans[2] == bare(seq![' '])
            &&& spans[1] == colored(
                seq!['\u{25cf}'],
                if leader {
                    Color::Yellow
                } else {
                    Color::Green
                },
            )
            &&& spans[3] == colored(
                left_column(path_text(lossy_text(fa.path@), path_w as nat), path_w as nat),
                Color::Fg,
            )
            &&& spans[5] == colored(owner_text(owner), owner_ink(owner))
            &&& spans[7] == (if leader {
                stressed(rate, events_ink(fa.events_per_sec))
            } else {
                colored(rate, events_ink(fa.events_per_sec))
            })
            &&& spans[9] == colored(right_column(decimal(fa.total_events as nat), 6), Color::Dim)
            &&& spans[11] == colored(
                right_column(age_text((nanos / 1_000_000_000) as u64), 4),
                Color::Dim,
            )
            &&& spans[13] == colored(fa.kind_label@, kind_ink(fa.last_kind))
            &&& spans[4] == bare(seq![' ', ' ']) && spans[6] == spans[4] && spans[8] == spans[4]
            &&& spans[10] == spans[4] && spans[12] == spans[4]
        }),
{
    reveal_strlit(" ");
    reveal_strlit("  ");
    reveal_strlit("\u{25cf}");
    assert(" "@ =~= seq![' ']);
    assert("  "@ =~= seq![' ', ' ']);
    assert("\u{25cf}"@ =~= seq!['\u{25cf}']);
}

proof fn lemma_activity(inner: Rect, hot: HotFiles, processes: ProcessCollector, now: u64, n: nat, i: nat)
    requires
        i < n,
    ensures
        ({
            let row_w = if inner.width >= 2 {
                (inner.width - 2) as u16
            } else {
                0
            };
            let area = Rect {
                x: (inner.x + 1) as u16,
                y: (inner.y + 2 + i) as u16,
                width: row_w,
                height: 1,
            };
            let fa = hot.ranked@[i as int];
            let bg = if i == 0 {
                Color::SelBg
            } else {
                Color::Bg
            };
            let shown = activity_page(inner, hot, processes, now, n);
            &&& shown.len() == 2 * n
            &&& shown[2 * i as int] == page(area, seq![], bg)
            &&& shown[2 * (i as int) + 1] == page(
                area,
                seq![row_spans(fa, owner_of(processes, fa.path@), path_column(row_w), now, i == 0)],
                bg,
            )
        }),
    decreases n,
{
    let before = activity_page(inner, hot, processes, now, (n - 1) as nat);
    if i < n - 1 {
        lemma_activity(inner, hot, processes, now, (n - 1) as nat, i);
    } else if n > 1 {
        lemma_activity(inner, hot, processes, now, (n - 1) as nat, 0);
    }
}

/// Every row of the table shows its own activity and the owner of its own
/// path: row `i` is the activity that is ranked `i`, with the process that
/// `likely_owner` names for it, which is the busiest that holds it open.
pub proof fn law_every_row_shows_its_own_owner(
    area: Rect,
    hot: HotFiles,
    processes: ProcessCollector,
    now: u64,
    i: nat,
    owner: Option<ProcessTick>,
)
    requires
        processes.wf(),
        table_fits(area),
        area.height >= 5,
        i < hot.ranked@.len(),
        i < 15,
        i < area.height - 4,
        match owner {
            Some(tick) => {
                &&& processes.holders(hot.ranked@[i as int].path@).contains_key(tick.pid)
                &&& processes.holders(hot.ranked@[i as int].path@)[tick.pid] == tick
                &&& forall|pid: u32| #[trigger]
                    processes.holders(hot.ranked@[i as int].path@).contains_key(pid) ==> {
                        let other = processes.holders(hot.ranked@[i as int].path@)[pid];
                        let named = tick.read_bps.sum(tick.write_bps).rank();
                        let moved = other.read_bps.sum(other.write_bps).rank();
                        named > moved || named == moved && tick.pid <= pid
                    }
            },
            None => forall|pid: u32|
                !#[trigger] processes.holders(hot.ranked@[i as int].path@).contains_key(pid),
        },
    ensures
        ({
            let shown = table_page(area, hot, processes, now);
            let fa = hot.ranked@[i as int];
            let row_w = if area.width >= 4 {
                (area.width - 4) as u16
            } else {
                0
            };
            let path_w = path_column(row_w) as nat;
            let place = Rect {
                x: (inner_of(area).x + 1) as u16,
                y: (area.y + 3 + i) as u16,
                width: row_w,
                height: 1,
            };
            let bg = if i == 0 {
                Color::SelBg
            } else {
                Color::Bg
            };
            &&& 3 + 2 * i + 1 < shown.len()
            &&& shown[3 + 2 * i as int] == page(place, seq![], bg)
            &&& shown[4 + 2 * (i as int)] matches WidgetView::Text { area: at, lines, base }
            &&& at == place
            &&& base == backdrop(bg)
            &&& lines.len() == 1
            &&& lines[0].len() == 14
            &&& lines[0][3] == colored(
                left_column(path_text(lossy_text(fa.path@), path_w), path_w),
                Color::Fg,
            )
            &&& lines[0][5] == colored(owner_text(owner), owner_ink(owner))
            &&& lines[0] == row_spans(fa, owner, path_column(row_w), now, i == 0)
        }),
{
    let inner = inner_of(area);
    let fa = hot.ranked@[i as int];
    law_the_busiest_holder_is_the_owner(processes, fa.path@, owner);
    let n = rows_shown(inner, hot.ranked@.len());
    lemma_activity(inner, hot, processes, now, n, i);
    law_a_row_shows_its_activity(
        fa,
        owner,
        path_column(
            if area.width >= 4 {
                (area.width - 4) as u16
            } else {
                0
            },
        ),
        now,
        i == 0,
    );
}

/// The table is a frame, the heading over the columns, a rule, and then two
/// widgets for every activity that fits, at most fifteen; where there is no
/// activity, one line says why.
pub proof fn law_the_table_is_framed_and_headed(
    area: Rect,
    hot: HotFiles,
    processes: ProcessCollector,
    now: u64,
)
    requires
        table_fits(area),
    ensures
        ({
            let shown = table_page(area, hot, processes, now);
            let x = (inner_of(area).x + 1) as u16;
            let y = inner_of(area).y;
            let row_w = if area.width >= 4 {
                (area.width - 4) as u16
            } else {
                0
            };
            let head_w = if area.width >= 3 {
                (area.width - 3) as u16
            } else {
                0
            };
            let count = hot.ranked@.len();
            &&& shown.len() > 0
            &&& shown[0] == frame(
                area,
                Some(stressed(" HOT FILES  by event rate "@, Color::Cyan)),
                Color::Faint,
            )
            &&& area.height < 5 ==> shown.len() == 1
            &&& area.height >= 5 ==> {
                &&& shown[1] == page(
                    Rect { x, y, width: head_w, height: 1 },
                    seq![seq![colored(header_text(path_column(row_w)), Color::Dim)]],
                    Color::Bg,
                )
                &&& shown[2] == (WidgetView::Text {
                    area: Rect { x, y: (y + 1) as u16, width: row_w, height: 1 },
                    lines: seq![
                        seq![
                            SpanView {
                                text: repeated('\u{2500}', row_w as nat),
                                style: Style {
                                    fg: Some(Color::Faint),
                                    bg: Some(Color::Bg),
                                    bold: false,
                                },
                            },
                        ],
                    ],
                    base: Style { fg: None, bg: None, bold: false },
                })
                &&& count == 0 ==> shown.len() == 4 && shown[3] == page(
                    Rect { x, y: (y + 2) as u16, width: row_w, height: 1 },
                    seq![
                        seq![
                            colored(
                                if hot.error is Some {
                                    "  watcher not running \u{2014} see banner below"@
                                } else {
                                    "  waiting for filesystem activity\u{2026}"@
                                },
                                Color::Dim,
                            ),
                        ],
                    ],
                    Color::Bg,
                )
                &&& count > 0 ==> shown.len() == 3 + 2 * (if count <= 15 && count + 4
                    <= area.height {
                    count as int
                } else if area.height < 19 {
                    area.height - 4
                } else {
                    15
                })
            }
        }),
{
    let inner = inner_of(area);
    let n = rows_shown(inner, hot.ranked@.len());
    if area.height >= 5 && hot.ranked@.len() > 0 {
        lemma_activity(inner, hot, processes, now, n, 0);
    }
}

/// The heading names each column over its own cells.
pub proof fn law_the_heading_stands_over_the_columns(path_w: usize)
    requires
        path_w >= 4,
    ensures
        ({
            let text = header_text(path_w);
            &&& text.len() == path_w + 55
            &&& text.subrange(3, 7) == "PATH"@
            &&& text.subrange(path_w + 5, path_w + 12) == "PROCESS"@
            &&& text.subrange(path_w + 31, path_w + 35) == "EV/s"@
            &&& text.subrange(path_w + 38, path_w + 43) == "TOTAL"@
            &&& text.subrange(path_w + 46, path_w + 49) == "AGE"@
            &&& text.subrange(path_w + 51, path_w + 55) == "KIND"@
        }),
{
    reveal_strlit("   ");
    reveal_strlit("  ");
    reveal_strlit("PATH");
    reveal_strlit("PROCESS");
    reveal_strlit("EV/s");
    reveal_strlit("TOTAL");
    reveal_strlit("AGE");
    reveal_strlit("KIND");
    let text = header_text(path_w);
    assert(text.subrange(3, 7) =~= "PATH"@);
    assert(text.subrange(path_w + 5, path_w + 12) =~= "PROCESS"@);
    assert(text.subrange(path_w + 31, path_w + 35) =~= "EV/s"@);
    assert(text.subrange(path_w + 38, path_w + 43) =~= "TOTAL"@);
    assert(text.subrange(path_w + 46, path_w + 49) =~= "AGE"@);
    assert(text.subrange(path_w + 51, path_w + 55) =~= "KIND"@);
}

/// The roots are named one after the other, each of them, with two spaces
/// between.
pub proof fn law_every_root_is_named(roots: Seq<FilePath>, one: FilePath)
    ensures
        roots_text(seq![one]) == lossy_text(one@),
        roots.len() > 0 ==> roots_text(roots.push(one)) == roots_text(roots) + seq![' ', ' ']
            + lossy_text(one@),
{
    reveal_strlit("  ");
    assert("  "@ =~= seq![' ', ' ']);
    assert(roots.push(one).drop_last() =~= roots);
}

/// The summary says what is watched, what went wrong, and how much happened;
/// where there is room it names the process that moves the most, whatever
/// path it holds.
pub proof fn law_the_summary_says_what_happens(
    area: Rect,
    hot: HotFiles,
    processes: ProcessCollector,
    busiest: ProcessTick,
)
    requires
        processes.wf(),
        processes.procs@.dom().finite(),
    ensures
        ({
            let spans = summary_page(area, hot, processes)[0]->lines[0];
            let at = if hot.error is Some {
                6int
            } else {
                4int
            };
            &&& summary_page(area, hot, processes) == seq![
                page(Rect { x: area.x, y: area.y, width: area.width, height: 1 }, seq![spans], Color::Bg),
            ]
            &&& spans[0] == bare(" "@)
            &&& spans[1] == colored("watch"@, Color::Dim)
            &&& spans[2] == bare("  "@)
            &&& hot.roots@.len() == 0 ==> spans[3] == colored("(no roots)"@, Color::Dim)
            &&& hot.roots@.len() > 0 ==> spans[3] == colored(roots_text(hot.roots@), Color::Fg)
            &&& hot.error matches Some(e) ==> spans[4] == bare("   "@) && spans[5] == stressed(
                "ERROR: "@ + e@,
                Color::Red,
            )
            &&& spans[at] == bare("   "@)
            &&& spans[at + 1] == colored(
                decimal(hot.active as nat) + " active paths  "@ + decimal(hot.total_events as nat)
                    + " events since start"@,
                Color::Dim,
            )
            &&& area.width < 110 || processes.procs@.dom().len() == 0 ==> spans.len() == at + 2
            &&& area.width >= 110 && processes.procs@.contains_key(busiest.pid)
                && processes.procs@[busiest.pid] == busiest && (forall|pid: u32| #[trigger]
                processes.procs@.contains_key(pid) ==> {
                    let other = processes.procs@[pid];
                    let most = busiest.read_bps.sum(busiest.write_bps).rank();
                    let moved = other.read_bps.sum(other.write_bps).rank();
                    most > moved || most == moved && busiest.pid <= pid
                }) ==> {
                &&& spans.len() == at + 6
                &&& spans[at + 2] == bare("   "@)
                &&& spans[at + 3] == colored("busiest"@, Color::Dim)
                &&& spans[at + 4] == bare("  "@)
                &&& spans[at + 5] == colored(
                    busiest.name@ + seq![' ', '('] + decimal(busiest.pid as nat) + seq![
                        ')',
                        ' ',
                        ' ',
                    ] + rate_prose(busiest.read_bps.sum(busiest.write_bps)),
                    Color::Fg,
                )
            }
        }),
{
    reveal_strlit(" (");
    reveal_strlit(")");
    reveal_strlit("  ");
    let procs = processes.procs@;
    law_processes_can_be_ranked(procs);
    let order = ranking(procs);
    if procs.dom().len() == 0 {
        assert(procs.dom() =~= Set::<u32>::empty());
        if order.len() > 0 {
            assert(procs.contains_key(order[0].pid));
            assert(procs.dom().contains(order[0].pid));
        }
    }
    if procs.contains_key(busiest.pid) && procs[busiest.pid] == busiest && (forall|pid: u32|
     #[trigger]
        procs.contains_key(pid) ==> {
            let other = procs[pid];
            let most = busiest.read_bps.sum(busiest.write_bps).rank();
            let moved = other.read_bps.sum(other.write_bps).rank();
            most > moved || most == moved && busiest.pid <= pid
        }) {
        let at = choose|i: int| 0 <= i < order.len() && (#[trigger] order[i]).pid == busiest.pid;
        assert(order[at] == busiest);
        if at > 0 {
            assert(procs.contains_key(order[0].pid));
            law_ranking_goes_by_bytes(order, procs, 0, at);
        }
        assert(order[0] == busiest);
        let rate = rate_prose(busiest.read_bps.sum(busiest.write_bps));
        assert(busiest.name@ + (" ("@ + decimal(busiest.pid as nat) + ")"@) + "  "@ + rate
            =~= busiest.name@ + seq![' ', '('] + decimal(busiest.pid as nat) + seq![')', ' ', ' ']
            + rate);
    }
}

/// The banner says what its figures are, and how many processes are hidden of
/// how many, exactly where any are.
pub proof fn law_the_banner_counts_what_is_hidden(area: Rect, coverage: Coverage)
    ensures
        banner_page(area, coverage) == seq![
            frame(area, None, Color::Faint),
            page(inner_of(area), banner_lines(coverage), Color::Bg),
        ],
        banner_lines(coverage)[0] == seq![
            stressed(" note  "@, Color::Yellow),
            colored(
                "Rates are events/sec, not bytes \u{2014} the watcher reports paths and kinds only."@,
                Color::Fg,
            ),
        ],
        banner_lines(coverage)[1] == seq![
            colored(
                "       PROCESS is the busiest holder of the path, sampled every 2s."@,
                Color::Dim,
            ),
        ],
        banner_lines(coverage)[2] == seq![
            colored(
                "       Short-lived writers that close between samples are missed."@,
                Color::Dim,
            ),
        ],
        coverage.hidden == 0 ==> banner_lines(coverage).len() == 3 && banner_rows(coverage) == 5,
        coverage.hidden > 0 ==> {
            &&& banner_lines(coverage).len() == 4
            &&& banner_rows(coverage) == 6
            &&& banner_lines(coverage)[3] == seq![
                bare("       "@),
                colored(
                    decimal(coverage.hidden as nat) + " of "@ + decimal(
                        coverage.hidden as nat + coverage.visible as nat,
                    ) + " processes hidden"@,
                    Color::Yellow,
                ),
                colored(" \u{2014} run as root to attribute them."@, Color::Dim),
            ]
        },
{
}

/// The tab is its summary, then its table, then its banner.
pub proof fn law_the_tab_is_three_parts(
    rows: Seq<Rect>,
    hot: HotFiles,
    processes: ProcessCollector,
    now: u64,
)
    ensures
        ({
            let shown = hot_page(rows, hot, processes, now);
            let table = table_page(rows[1], hot, processes, now);
            &&& shown.len() == table.len() + 3
            &&& shown.take(1) == summary_page(rows[0], hot, processes)
            &&& shown.subrange(1, 1 + table.len() as int) == table
            &&& shown.skip(1 + table.len() as int) == banner_page(rows[2], processes.coverage)
        }),
{
    let shown = hot_page(rows, hot, processes, now);
    let table = table_page(rows[1], hot, processes, now);
    assert(shown.take(1) =~= summary_page(rows[0], hot, processes));
    assert(shown.subrange(1, 1 + table.len() as int) =~= table);
    assert(shown.skip(1 + table.len() as int) =~= banner_page(rows[2], processes.coverage));
}

/// A border takes one cell on each side of what is large enough for it.
pub proof fn law_a_border_takes_one_cell(area: Rect)
    requires
        area.width >= 2,
        area.height >= 2,
        area.x + area.width <= u16::MAX,
        area.y + area.height <= u16::MAX,
    ensures
        inner_of(area).x == area.x + 1,
        inner_of(area).y == area.y + 1,
        inner_of(area).width + 2 == area.width,
        inner_of(area).height + 2 == area.height,
{
}

/// Insights are counted one by one, each under its own severity.
pub proof fn law_insights_are_counted_one_by_one(a: Seq<Insight>, b: Seq<Insight>, one: Insight, sev: Severity)
    ensures
        count_of(a + b, sev) == count_of(a, sev) + count_of(b, sev),
        count_of(seq![one], sev) == (if one.sev == sev {
            1nat
        } else {
            0nat
        }),
    decreases b.len(),
{
    if b.len() == 0 {
        assert(a + b =~= a);
    } else {
        law_insights_are_counted_one_by_one(a, b.drop_last(), one, sev);
        assert((a + b).drop_last() =~= a + b.drop_last());
        assert((a + b).last() == b.last());
    }
    assert(seq![one].drop_last() =~= seq![]);
    assert(count_of(seq![one].drop_last(), sev) == 0);
}

/// The heading counts the insights, all of them and by severity, and takes
/// the colour of the worst.
pub proof fn law_the_heading_counts_the_insights(insights: Seq<Insight>)
    ensures
        ({
            let crit = count_of(insights, Severity::Crit);
            let warn = count_of(insights, Severity::Warn);
            let info = count_of(insights, Severity::Info);
            header_spans(insights) == seq![
                bare(" "@),
                colored(
                    "\u{25cf} "@,
                    if crit > 0 {
                        Color::Red
                    } else if warn > 0 {
                        Color::Yellow
                    } else {
                        Color::Cyan
                    },
                ),
                stressed(decimal(insights.len()) + " active"@, Color::Fg),
                bare("  "@),
                colored(
                    decimal(crit) + " crit  "@ + decimal(warn) + " warn  "@ + decimal(info)
                        + " info"@,
                    Color::Dim,
                ),
            ]
        }),
{
}

/// A card shows the label and the title of its insight, up to three lines of
/// its body, and the tab it suggests, if any.
pub proof fn law_a_card_shows_its_insight(ins: Insight, k: int)
    requires
        0 <= k < ins.body@.len(),
        k < 3,
    ensures
        ({
            let lines = card_lines(ins);
            let (ink, ground) = match ins.sev {
                Severity::Crit => (Color::Red, Color::ErrBg),
                Severity::Warn => (Color::Yellow, Color::WarnBg),
                Severity::Info => (Color::Cyan, Color::OkBg),
            };
            &&& lines[0] == seq![
                bare(" "@),
                SpanView {
                    text: " "@ + ins.label@ + " "@,
                    style: Style { fg: Some(ink), bg: Some(ground), bold: true },
                },
                bare("  "@),
                stressed(ins.title@, Color::BrWhite),
            ]
            &&& lines[1 + k] == seq![
                colored(
                    " "@ + ins.body@[k]@,
                    if k == 0 {
                        Color::Fg
                    } else {
                        Color::Dim
                    },
                ),
            ]
        }),
{
}

/// How many lines a card has, and that the suggestion is the last.
pub proof fn law_a_card_ends_with_its_suggestion(ins: Insight)
    ensures
        ({
            let lines = card_lines(ins);
            let body = if ins.body@.len() < 3 {
                ins.body@.len()
            } else {
                3
            };
            let (ink, ground) = match ins.sev {
                Severity::Crit => (Color::Red, Color::ErrBg),
                Severity::Warn => (Color::Yellow, Color::WarnBg),
                Severity::Info => (Color::Cyan, Color::OkBg),
            };
            &&& lines[0] == seq![
                bare(" "@),
                SpanView {
                    text: " "@ + ins.label@ + " "@,
                    style: Style { fg: Some(ink), bg: Some(ground), bold: true },
                },
                bare("  "@),
                stressed(ins.title@, Color::BrWhite),
            ]
            &&& ins.suggested_tab@.len() == 0 ==> lines.len() == 1 + body
            &&& ins.suggested_tab@.len() > 0 ==> {
                &&& lines.len() == 2 + body
                &&& lines[1 + body as int] == seq![
                    colored(
                        " \u{2192} open ["@ + ins.suggested_tab@ + "] tab"@,
                        Color::Cyan,
                    ),
                ]
            }
        }),
{
}

proof fn lemma_cards(area: Rect, insights: Seq<Insight>, top: int, n: nat, i: nat)
    requires
        i < n,
    ensures
        ({
            let shown = cards_page(area, insights, top, n);
            let card = Rect {
                x: area.x,
                y: (top + 6 * i) as u16,
                width: area.width,
                height: 6,
            };
            &&& shown.len() == 2 * n
            &&& shown[2 * i as int] == frame(
                card,
                None,
                match insights[i as int].sev {
                    Severity::Crit => Color::Red,
                    Severity::Warn => Color::Yellow,
                    Severity::Info => Color::Cyan,
                },
            )
            &&& shown[2 * (i as int) + 1] == page(
                inner_of(card),
                card_lines(insights[i as int]),
                Color::Bg,
            )
        }),
    decreases n,
{
    let before = cards_page(area, insights, top, (n - 1) as nat);
    if i < n - 1 {
        lemma_cards(area, insights, top, (n - 1) as nat, i);
    } else {
        if n > 1 {
            lemma_cards(area, insights, top, (n - 1) as nat, 0);
        }
        assert(before.len() == 2 * (n - 1));
        let card = card_page(
            Rect { y: (top + (n - 1) * CARD_H) as u16, height: CARD_H, ..area },
            insights[n - 1],
        );
        assert(cards_page(area, insights, top, n) =~= before + card);
    }
}

/// Every insight that fits has a card of its own: card `i` is insight `i`,
/// six rows below the card before it.
pub proof fn law_every_insight_has_its_own_card(area: Rect, insights: Seq<Insight>, i: nat)
    requires
        i < insights.len(),
        6 * i + 6 <= area.height - 2,
    ensures
        ({
            let shown = insights_page(area, insights);
            let top = first_row(area, insights.len());
            let card = Rect {
                x: area.x,
                y: (top + 6 * i) as u16,
                width: area.width,
                height: 6,
            };
            &&& 2 + 2 * i < shown.len()
            &&& shown[1 + 2 * i as int] == frame(
                card,
                None,
                match insights[i as int].sev {
                    Severity::Crit => Color::Red,
                    Severity::Warn => Color::Yellow,
                    Severity::Info => Color::Cyan,
                },
            )
            &&& shown[2 + 2 * i as int] == page(
                inner_of(card),
                card_lines(insights[i as int]),
                Color::Bg,
            )
        }),
{
    let n = cards_shown(area, insights.len());
    let top = first_row(area, insights.len());
    assert(rows_below(area) / 6 >= i + 1);
    lemma_cards(area, insights, top, n, i);
}

/// The tab is its heading, two widgets for each card, as many as fit, and the
/// disclaimer where a row is left below them; the cards stand in the middle
/// of the room, an odd row below.
pub proof fn law_the_insights_tab_fits_its_area(area: Rect, insights: Seq<Insight>, n: nat, spare: bool)
    requires
        area.height >= 2,
        n <= insights.len(),
        6 * n <= area.height - 2,
        n == insights.len() || 6 * n + 6 > area.height - 2,
        spare <==> 6 * n < area.height - 2,
    ensures
        ({
            let shown = insights_page(area, insights);
            let used = if spare {
                6 * (n as int) + 1
            } else {
                6 * (n as int)
            };
            let top = first_row(area, insights.len());
            &&& shown.len() == 1 + 2 * n + (if spare {
                1int
            } else {
                0int
            })
            &&& shown[0] == page(
                Rect { x: area.x, y: area.y, width: area.width, height: 1 },
                seq![header_spans(insights)],
                Color::Bg,
            )
            &&& 2 * (top - area.y - 2) <= area.height - 2 - used <= 2 * (top - area.y - 2) + 1
            &&& spare ==> shown[1 + 2 * n as int] == page(
                Rect { x: area.x, y: (top + 6 * n) as u16, width: area.width, height: 1 },
                seq![
                    seq![
                        colored(
                            "  Insights are read-only suggestions   they never modify devices, volumes, or filesystems."@,
                            Color::Dim,
                        ),
                    ],
                ],
                Color::Bg,
            )
        }),
{
    let room = rows_below(area) / 6;
    assert(n == cards_shown(area, insights.len())) by {
        assert(6 * room <= rows_below(area) < 6 * room + 6);
    }
    assert(disclaimer_fits(area, insights.len()) == spare);
    if n > 0 {
        lemma_cards(area, insights, first_row(area, insights.len()), n, 0);
    }
}

} // verus!
