use diskwatch::tabs::insights::{count, draw, Insight, Severity};
use diskwatch::ui::paint::{Color, Line, Rect, Style, Widget};

fn insight(sev: Severity, label: &str, title: &str, body: &[&str], tab: &str) -> Insight {
    Insight {
        sev,
        label: label.to_string(),
        title: title.to_string(),
        body: body.iter().map(|b| b.to_string()).collect(),
        suggested_tab: tab.to_string(),
    }
}

fn text(line: &Line) -> String {
    line.spans.iter().map(|s| s.text.as_str()).collect()
}

fn shown(widget: &Widget) -> (Rect, Vec<String>) {
    match widget {
        Widget::Block { area, .. } => (*area, vec!["<block>".to_string()]),
        Widget::Text { area, lines, .. } => (*area, lines.iter().map(text).collect()),
    }
}

fn rect(x: u16, y: u16, width: u16, height: u16) -> Rect {
    Rect { x, y, width, height }
}

const DISCLAIMER: &str =
    "  Insights are read-only suggestions   they never modify devices, volumes, or filesystems.";

#[test]
fn a_single_card_is_centred() {
    let insights = vec![insight(Severity::Warn, "WARN", "Disk is filling", &["one", "two", "three", "four"], "Volumes")];
    let canvas = draw(rect(4, 1, 80, 30), &insights);
    assert_eq!(canvas.widgets.len(), 4);
    assert_eq!(
        shown(&canvas.widgets[0]),
        (rect(4, 1, 80, 1), vec![" ● 1 active  0 crit  1 warn  0 info".to_string()])
    );
    // 28 rows below the heading, 7 of them used: 10 above and 11 below.
    assert_eq!(shown(&canvas.widgets[1]).0, rect(4, 13, 80, 6));
    assert_eq!(
        shown(&canvas.widgets[2]),
        (
            rect(5, 14, 78, 4),
            vec![
                "  WARN   Disk is filling".to_string(),
                " one".to_string(),
                " two".to_string(),
                " three".to_string(),
                " → open [Volumes] tab".to_string(),
            ]
        )
    );
    assert_eq!(shown(&canvas.widgets[3]), (rect(4, 19, 80, 1), vec![DISCLAIMER.to_string()]));
    match &canvas.widgets[1] {
        Widget::Block { title: None, border, .. } => {
            assert_eq!(*border, Style { fg: Some(Color::Yellow), bg: Some(Color::Bg), bold: false });
        },
        _ => panic!("no frame"),
    }
    match &canvas.widgets[2] {
        Widget::Text { lines, .. } => {
            assert_eq!(
                lines[0].spans[1].style,
                Style { fg: Some(Color::Yellow), bg: Some(Color::WarnBg), bold: true }
            );
            assert_eq!(lines[1].spans[0].style.fg, Some(Color::Fg));
            assert_eq!(lines[2].spans[0].style.fg, Some(Color::Dim));
        },
        _ => panic!("no text"),
    }
}

#[test]
fn the_heading_takes_the_worst_color() {
    for (sevs, color) in [
        (vec![Severity::Info, Severity::Crit, Severity::Warn], Color::Red),
        (vec![Severity::Info, Severity::Warn], Color::Yellow),
        (vec![Severity::Info], Color::Cyan),
        (vec![], Color::Cyan),
    ] {
        let insights: Vec<Insight> = sevs.iter().map(|s| insight(*s, "X", "t", &[], "")).collect();
        let canvas = draw(rect(0, 0, 80, 60), &insights);
        match &canvas.widgets[0] {
            Widget::Text { lines, .. } => assert_eq!(lines[0].spans[1].style.fg, Some(color)),
            _ => panic!("no heading"),
        }
        let total = count(&insights, Severity::Crit) + count(&insights, Severity::Warn) + count(&insights, Severity::Info);
        assert_eq!(total, insights.len());
    }
}

#[test]
fn only_the_cards_that_fit_are_shown() {
    let insights: Vec<Insight> = (0..5).map(|i| insight(Severity::Info, "INFO", &format!("{i}"), &[], "")).collect();
    // Height, cards, row of the first card, disclaimer.
    for (height, cards, top, disclaimer) in [
        (60u16, 5usize, 15u16, true),
        (20, 3, 2, false),
        (21, 3, 2, true),
        (22, 3, 2, true),
        (23, 3, 3, true),
        (8, 1, 2, false),
        (7, 0, 4, true),
        (3, 0, 2, true),
        (2, 0, 2, false),
        (1, 0, 2, false),
        (0, 0, 2, false),
    ] {
        let canvas = draw(rect(0, 0, 80, height), &insights);
        assert_eq!(canvas.widgets.len(), 1 + 2 * cards + usize::from(disclaimer), "{height}");
        for i in 0..cards {
            assert_eq!(shown(&canvas.widgets[1 + 2 * i]).0, rect(0, top + 6 * i as u16, 80, 6), "{height}");
        }
        if disclaimer {
            let (area, lines) = shown(canvas.widgets.last().unwrap());
            assert_eq!(area, rect(0, top + 6 * cards as u16, 80, 1), "{height}");
            assert_eq!(lines, vec![DISCLAIMER.to_string()]);
        }
    }
}

#[test]
fn a_card_without_body_or_tab_is_one_line() {
    let canvas = draw(rect(0, 0, 40, 9), &vec![insight(Severity::Crit, "CRIT", "Failing", &[], "")]);
    assert_eq!(shown(&canvas.widgets[2]), (rect(1, 3, 38, 4), vec!["  CRIT   Failing".to_string()]));
}
