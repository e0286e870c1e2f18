//! How an area of the screen is divided.
use vstd::prelude::*;

use crate::ui::paint::Rect;

verus! {

/// What a border all round leaves of `area`.
pub open spec fn inner_of(area: Rect) -> Rect {
    Rect {
        x: if area.width == 0 || area.x == u16::MAX {
            area.x
        } else {
            (area.x + 1) as u16
        },
        y: if area.height == 0 || area.y == u16::MAX {
            area.y
        } else {
            (area.y + 1) as u16
        },
        width: if area.width < 2 {
            0
        } else {
            (area.width - 2) as u16
        },
        height: if area.height < 2 {
            0
        } else {
            (area.height - 2) as u16
        },
    }
}

/// `ratatui::widgets::Block::inner`, on a block with a border on all four
/// sides: one cell less on each side, as far as there are any.
#[verifier::external_body]
pub(crate) fn block_inner(area: Rect) -> (r: Rect)
    ensures
        r == inner_of(area),
{
    let outer = ratatui::layout::Rect { x: area.x, y: area.y, width: area.width, height: area.height };
    let block = ratatui::widgets::Block::default().borders(ratatui::widgets::Borders::ALL);
    let inner = block.inner(outer);
    Rect { x: inner.x, y: inner.y, width: inner.width, height: inner.height }
}

/// Three rows of `area`, stacked from its top to its bottom: the first of
/// height `top`, the second of at least `middle`, the third of height
/// `bottom`. Where `area` is too low for that, the second has what it needs
/// before the other two, and those share what it leaves.
pub open spec fn three_rows(
    rows: Seq<Rect>,
    area: Rect,
    top: u16,
    middle: u16,
    bottom: u16,
) -> bool {
    &&& rows.len() == 3
    &&& forall|i: int| 0 <= i < 3 ==> (#[trigger] rows[i]).x == area.x && rows[i].width == area.width
    &&& rows[0].y == area.y
    &&& rows[1].y == rows[0].y + rows[0].height
    &&& rows[2].y == rows[1].y + rows[1].height
    &&& rows[2].y + rows[2].height == area.y + area.height
    &&& if area.height >= top + middle + bottom {
        rows[0].height == top && rows[2].height == bottom
    } else {
        &&& rows[0].height <= top
        &&& rows[1].height == (if area.height < middle {
            area.height
        } else {
            middle
        })
        &&& rows[2].height <= bottom
    }
}

/// `ratatui::layout::Layout::split`, vertically, by a length, a minimum and a
/// length, with no margin and no spacing. Rows keep the order of their
/// constraints and leave no gap; a minimum goes before a length, and it is
/// the minimum that grows. How the two lengths share what a low area leaves
/// them is not said: they have the same priority, and the solver's optimum is
/// not unique.
#[verifier::external_body]
pub(crate) fn split_rows(area: Rect, top: u16, middle: u16, bottom: u16) -> (r: Vec<Rect>)
    requires
        area.y + area.height <= u16::MAX,
        middle <= i16::MAX,
    ensures
        three_rows(r@, area, top, middle, bottom),
{
    let whole = ratatui::layout::Rect { x: area.x, y: area.y, width: area.width, height: area.height };
    let rows = ratatui::layout::Layout::default()
        .direction(ratatui::layout::Direction::Vertical)
        .constraints([
            ratatui::layout::Constraint::Length(top),
            ratatui::layout::Constraint::Min(middle),
            ratatui::layout::Constraint::Length(bottom),
        ])
        .split(whole);
    rows.iter().map(|r| Rect { x: r.x, y: r.y, width: r.width, height: r.height }).collect()
}

} // verus!
