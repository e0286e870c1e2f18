//! Insights tab: a count by severity, and a card for each insight.
use vstd::prelude::*;

use crate::layout::{block_inner, inner_of};
use crate::text::{decimal, decimal_text};
use crate::ui::paint::{lines_view, shown, text_row, Canvas, Color, Line, Rect, SpanView, Style, Widget, WidgetView};

verus! {

/// Rows that a card takes.
pub const CARD_H: u16 = 6;

/// Lines of its body that a card shows.
pub const BODY_LINES: usize = 3;

/// How urgent an insight is.
#[derive(Debug, Clone, Copy, PartialEq, Eq, Structural)]
pub enum Severity {
    Crit,
    Warn,
    Info,
}

/// One thing worth telling the user.
#[derive(Debug)]
pub struct Insight {
    pub sev: Severity,
    /// How the card spells `sev`.
    pub label: String,
    pub title: String,
    pub body: Vec<String>,
    /// The tab to open, or nothing.
    pub suggested_tab: String,
}

/// How many insights are of severity `sev`.
pub open spec fn count_of(insights: Seq<Insight>, sev: Severity) -> nat
    decreases insights.len(),
{
    if insights.len() == 0 {
        0
    } else {
        count_of(insights.drop_last(), sev) + if insights.last().sev == sev {
            1nat
        } else {
            0nat
        }
    }
}

/// How many insights are of severity `sev`.
pub fn count(insights: &Vec<Insight>, sev: Severity) -> (r: usize)
    ensures
        r == count_of(insights@, sev),
        r <= insights@.len(),
{
    let mut n: usize = 0;
    let mut i: usize = 0;
    while i < insights.len()
        invariant
            n <= i <= insights.len(),
            n == count_of(insights@.take(i as int), sev),
        decreases insights.len() - i,
    {
        assert(insights@.take(i + 1).drop_last() =~= insights@.take(i as int));
        if insights[i].sev == sev {
            n = n + 1;
        }
        i = i + 1;
    }
    assert(insights@.take(i as int) =~= insights@);
    n
}

/// The colour of the worst severity there is.
pub open spec fn alert_ink(crit: nat, warn: nat) -> Color {
    if crit > 0 {
        Color::Red
    } else if warn > 0 {
        Color::Yellow
    } else {
        Color::Cyan
    }
}

/// The line over the cards.
pub open spec fn header_spans(insights: Seq<Insight>) -> Seq<SpanView> {
    let crit = count_of(insights, Severity::Crit);
    let warn = count_of(insights, Severity::Warn);
    let info = count_of(insights, Severity::Info);
    seq![
        shown(" "@, Style::plain()),
        shown("\u{25cf} "@, Style::ink(alert_ink(crit, warn))),
        shown(decimal(insights.len()) + " active"@, Style::ink(Color::Fg).weight(true)),
        shown("  "@, Style::plain()),
        shown(
            decimal(crit) + " crit  "@ + decimal(warn) + " warn  "@ + decimal(info) + " info"@,
            Style::ink(Color::Dim),
        ),
    ]
}

fn header_line(insights: &Vec<Insight>) -> (r: Line)
    ensures
        r@ == header_spans(insights@),
{
    let crit: usize = count(insights, Severity::Crit);
    let warn: usize = count(insights, Severity::Warn);
    let info: usize = count(insights, Severity::Info);
    let alert: Color = if crit > 0 {
        Color::Red
    } else if warn > 0 {
        Color::Yellow
    } else {
        Color::Cyan
    };
    let crits: String = decimal_text(crit as u64);
    let warns: String = decimal_text(warn as u64);
    let infos: String = decimal_text(info as u64);
    let mut line: Line = Line::new();
    line.put_str(" ", Style::plain());
    line.put_str("\u{25cf} ", Style::ink(alert));
    line.put(
        decimal_text(insights.len() as u64).concat(" active"),
        Style::ink(Color::Fg).weight(true),
    );
    line.put_str("  ", Style::plain());
    line.put(
        crits.concat(" crit  ").concat(warns.as_str()).concat(" warn  ").concat(
            infos.as_str(),
        ).concat(" info"),
        Style::ink(Color::Dim),
    );
    assert(line@ =~= header_spans(insights@));
    line
}

/// The colour of a severity.
pub open spec fn sev_ink(sev: Severity) -> Color {
    match sev {
        Severity::Crit => Color::Red,
        Severity::Warn => Color::Yellow,
        Severity::Info => Color::Cyan,
    }
}

/// The background of a severity.
pub open spec fn sev_ground(sev: Severity) -> Color {
    match sev {
        Severity::Crit => Color::ErrBg,
        Severity::Warn => Color::WarnBg,
        Severity::Info => Color::OkBg,
    }
}

/// The first `n` lines of a body.
pub open spec fn body_lines(body: Seq<String>, n: nat) -> Seq<Seq<SpanView>> {
    Seq::new(
        n,
        |i: int|
            seq![
                shown(
                    " "@ + body[i]@,
                    Style::ink(
                        if i == 0 {
                            Color::Fg
                        } else {
                            Color::Dim
                        },
                    ),
                ),
            ],
    )
}

/// How many lines of a body are shown.
pub open spec fn body_shown(body: Seq<String>) -> nat {
    if body.len() < BODY_LINES {
        body.len()
    } else {
        BODY_LINES as nat
    }
}

/// The lines of a card.
pub open spec fn card_lines(ins: Insight) -> Seq<Seq<SpanView>> {
    let header = seq![
        shown(" "@, Style::plain()),
        shown(
            " "@ + ins.label@ + " "@,
            Style::ink(sev_ink(ins.sev)).on(sev_ground(ins.sev)).weight(true),
        ),
        shown("  "@, Style::plain()),
        shown(ins.title@, Style::ink(Color::BrWhite).weight(true)),
    ];
    let hint = if ins.suggested_tab@.len() == 0 {
        seq![]
    } else {
        seq![
            seq![
                shown(
                    " \u{2192} open ["@ + ins.suggested_tab@ + "] tab"@,
                    Style::ink(Color::Cyan),
                ),
            ],
        ]
    };
    seq![header] + body_lines(ins.body@, body_shown(ins.body@)) + hint
}

/// A card: its frame, then its lines.
pub open spec fn card_page(area: Rect, ins: Insight) -> Seq<WidgetView> {
    seq![
        WidgetView::Block {
            area,
            title: None,
            border: Style::ink(sev_ink(ins.sev)).on(Color::Bg),
            base: Style::ground(Color::Bg),
        },
        WidgetView::Text {
            area: inner_of(area),
            lines: card_lines(ins),
            base: Style::ground(Color::Bg),
        },
    ]
}

/// A card.
pub fn draw_card(area: Rect, ins: &Insight) -> (r: Canvas)
    ensures
        r@ == card_page(area, *ins),
{
    let (sev_color, sev_bg): (Color, Color) = match ins.sev {
        Severity::Crit => (Color::Red, Color::ErrBg),
        Severity::Warn => (Color::Yellow, Color::WarnBg),
        Severity::Info => (Color::Cyan, Color::OkBg),
    };
    let mut canvas: Canvas = Canvas::new();
    canvas.paint(
        Widget::Block {
            area,
            title: None,
            border: Style::ink(sev_color).on(Color::Bg),
            base: Style::ground(Color::Bg),
        },
    );
    let inner: Rect = block_inner(area);
    let mut lines: Vec<Line> = Vec::new();
    let mut header: Line = Line::new();
    header.put_str(" ", Style::plain());
    header.put(
        " ".to_owned().concat(ins.label.as_str()).concat(" "),
        Style::ink(sev_color).on(sev_bg).weight(true),
    );
    header.put_str("  ", Style::plain());
    header.put(ins.title.clone(), Style::ink(Color::BrWhite).weight(true));
    let ghost head = card_lines(*ins)[0];
    assert(header@ =~= head);
    lines.push(header);
    let n: usize = if ins.body.len() < BODY_LINES {
        ins.body.len()
    } else {
        BODY_LINES
    };
    let mut i: usize = 0;
    assert(lines_view(lines@) =~= seq![head] + body_lines(ins.body@, 0));
    while i < n
        invariant
            i <= n <= ins.body.len(),
            lines_view(lines@) == seq![head] + body_lines(ins.body@, i as nat),
        decreases n - i,
    {
        let color: Color = if i == 0 {
            Color::Fg
        } else {
            Color::Dim
        };
        let ghost before = lines_view(lines@);
        let line: Line = Line::of(" ".to_owned().concat(ins.body[i].as_str()), Style::ink(color));
        lines.push(line);
        assert(lines_view(lines@) =~= before.push(line@));
        i = i + 1;
        assert(lines_view(lines@) =~= seq![head] + body_lines(ins.body@, i as nat));
    }
    if !ins.suggested_tab.as_str().is_empty() {
        let ghost before = lines_view(lines@);
        let hint: Line = Line::of(
            " \u{2192} open [".to_owned().concat(ins.suggested_tab.as_str()).concat("] tab"),
            Style::ink(Color::Cyan),
        );
        lines.push(hint);
        assert(lines_view(lines@) =~= before.push(hint@));
    }
    assert(lines_view(lines@) =~= card_lines(*ins));
    canvas.paint(Widget::Text { area: inner, lines, base: Style::ground(Color::Bg) });
    assert(canvas@ =~= card_page(area, *ins));
    canvas
}

/// Rows below the heading.
pub open spec fn rows_below(area: Rect) -> nat {
    if area.height >= 2 {
        (area.height - 2) as nat
    } else {
        0
    }
}

/// How many cards fit.
pub open spec fn cards_shown(area: Rect, insights: nat) -> nat {
    let room = rows_below(area) / CARD_H as nat;
    if insights < room {
        insights
    } else {
        room
    }
}

/// A row is left for the disclaimer.
pub open spec fn disclaimer_fits(area: Rect, insights: nat) -> bool {
    rows_below(area) > cards_shown(area, insights) * CARD_H
}

/// The row of the first card: the cards and the disclaimer stand in the
/// middle of what is below the heading.
pub open spec fn first_row(area: Rect, insights: nat) -> int {
    let used = cards_shown(area, insights) * CARD_H + if disclaimer_fits(area, insights) {
        1int
    } else {
        0int
    };
    area.y + 2 + (rows_below(area) - used) / 2
}

/// The first `n` cards, from row `top` down.
pub open spec fn cards_page(area: Rect, insights: Seq<Insight>, top: int, n: nat) -> Seq<WidgetView>
    decreases n,
{
    if n == 0 {
        seq![]
    } else {
        cards_page(area, insights, top, (n - 1) as nat) + card_page(
            Rect { y: (top + (n - 1) * CARD_H) as u16, height: CARD_H, ..area },
            insights[n - 1],
        )
    }
}

/// The tab: the heading, the cards that fit, and the disclaimer where a row
/// is left for it.
pub open spec fn insights_page(area: Rect, insights: Seq<Insight>) -> Seq<WidgetView> {
    let n = cards_shown(area, insights.len());
    let top = first_row(area, insights.len());
    let ground = Style::ground(Color::Bg);
    seq![text_row(Rect { height: 1, ..area }, header_spans(insights), ground)] + cards_page(
        area,
        insights,
        top,
        n,
    ) + if disclaimer_fits(area, insights.len()) {
        seq![
            text_row(
                Rect { y: (top + n * CARD_H) as u16, height: 1, ..area },
                seq![
                    shown(
                        "  Insights are read-only suggestions   they never modify devices, volumes, or filesystems."@,
                        Style::ink(Color::Dim),
                    ),
                ],
                ground,
            ),
        ]
    } else {
        seq![]
    }
}

/// The tab over `area`.
///
/// On a healthy system there is often just one card. Pinning it to the top
/// would leave most of a tall terminal blank below it, which reads as broken
/// rather than calm, so the block of cards is centred.
pub fn draw(area: Rect, insights: &Vec<Insight>) -> (r: Canvas)
    requires
        area.y + 2 <= u16::MAX,
        area.y + area.height <= u16::MAX,
    ensures
        r@ == insights_page(area, insights@),
{
    let mut canvas: Canvas = Canvas::new();
    canvas.row(
        Rect { x: area.x, y: area.y, width: area.width, height: 1 },
        header_line(insights),
        Style::ground(Color::Bg),
    );
    let ghost headed = canvas@;
    let content_top: u16 = area.y + 2;
    let available: u16 = if area.height >= 2 {
        area.height - 2
    } else {
        0
    };
    let room: u16 = available / CARD_H;
    let n: u16 = if insights.len() < room as usize {
        insights.len() as u16
    } else {
        room
    };
    let fits: bool = available > n * CARD_H;
    let content_h: u16 = n * CARD_H + if fits {
        1
    } else {
        0
    };
    let top: u16 = content_top + (available - content_h) / 2;
    assert(top == first_row(area, insights@.len()));
    let mut i: u16 = 0;
    let mut y: u16 = top;
    assert(canvas@ =~= headed + cards_page(area, insights@, top as int, 0));
    while i < n
        invariant
            i <= n <= insights.len(),
            y == top + i * CARD_H,
            top + n * CARD_H <= u16::MAX,
            canvas@ == headed + cards_page(area, insights@, top as int, i as nat),
        decreases n - i,
    {
        let card: Rect = Rect { x: area.x, y, width: area.width, height: CARD_H };
        canvas.extend(draw_card(card, &insights[i as usize]));
        y = y + CARD_H;
        i = i + 1;
        assert(canvas@ =~= headed + cards_page(area, insights@, top as int, i as nat));
    }
    if fits {
        canvas.row(
            Rect { x: area.x, y, width: area.width, height: 1 },
            Line::of(
                "  Insights are read-only suggestions   they never modify devices, volumes, or filesystems.".to_owned(),
                Style::ink(Color::Dim),
            ),
            Style::ground(Color::Bg),
        );
    }
    assert(canvas@ =~= insights_page(area, insights@));
    canvas
}

} // verus!
