//! What a tab puts on the screen, as plain values: styled text and bordered
//! blocks, each with the cells it covers.
use vstd::prelude::*;

verus! {

/// A rectangle of terminal cells.
#[derive(Clone, Copy, Debug, PartialEq, Eq, Structural)]
pub struct Rect {
    pub x: u16,
    pub y: u16,
    pub width: u16,
    pub height: u16,
}

/// A colour, by the part it plays in the palette.
#[derive(Clone, Copy, Debug, PartialEq, Eq, Structural)]
pub enum Color {
    Bg,
    Fg,
    Dim,
    Faint,
    Red,
    Yellow,
    Green,
    Cyan,
    BrCyan,
    BrWhite,
    Magenta,
    SelBg,
    OkBg,
    WarnBg,
    ErrBg,
}

/// How text looks. What is not set is taken from what lies underneath.
#[derive(Clone, Copy, Debug, PartialEq, Eq, Structural)]
pub struct Style {
    pub fg: Option<Color>,
    pub bg: Option<Color>,
    pub bold: bool,
}

impl Style {
    /// Nothing set.
    #[verifier::allow_in_spec]
    pub fn plain() -> Style
        returns
            (Style { fg: None, bg: None, bold: false }),
    {
        Style { fg: None, bg: None, bold: false }
    }

    /// Text in `fg`.
    #[verifier::allow_in_spec]
    pub fn ink(fg: Color) -> Style
        returns
            (Style { fg: Some(fg), bg: None, bold: false }),
    {
        Style { fg: Some(fg), bg: None, bold: false }
    }

    /// A background of `bg`.
    #[verifier::allow_in_spec]
    pub fn ground(bg: Color) -> Style
        returns
            (Style { fg: None, bg: Some(bg), bold: false }),
    {
        Style { fg: None, bg: Some(bg), bold: false }
    }

    /// The same on a background of `bg`.
    #[verifier::allow_in_spec]
    pub fn on(self, bg: Color) -> Style
        returns
            (Style { fg: self.fg, bg: Some(bg), bold: self.bold }),
    {
        Style { fg: self.fg, bg: Some(bg), bold: self.bold }
    }

    /// The same, bold where `bold` says so.
    #[verifier::allow_in_spec]
    pub fn weight(self, bold: bool) -> Style
        returns
            (Style { fg: self.fg, bg: self.bg, bold }),
    {
        Style { fg: self.fg, bg: self.bg, bold }
    }
}

/// Text in one style.
#[derive(Debug)]
pub struct Span {
    pub text: String,
    pub style: Style,
}

/// What a span shows.
pub struct SpanView {
    pub text: Seq<char>,
    pub style: Style,
}

/// A span that shows `text` in `style`.
pub open spec fn shown(text: Seq<char>, style: Style) -> SpanView {
    SpanView { text, style }
}

impl View for Span {
    type V = SpanView;

    open spec fn view(&self) -> SpanView {
        SpanView { text: self.text@, style: self.style }
    }
}

/// Spans, from left to right.
#[derive(Debug)]
pub struct Line {
    pub spans: Vec<Span>,
}

impl View for Line {
    type V = Seq<SpanView>;

    open spec fn view(&self) -> Seq<SpanView> {
        Seq::new(self.spans@.len(), |i: int| self.spans@[i]@)
    }
}

impl Line {
    /// No text.
    pub fn new() -> (r: Line)
        ensures
            r@ == Seq::<SpanView>::empty(),
    {
        let r: Line = Line { spans: Vec::new() };
        assert(r@ =~= Seq::<SpanView>::empty());
        r
    }

    /// A single span.
    pub fn of(text: String, style: Style) -> (r: Line)
        ensures
            r@ == seq![shown(text@, style)],
    {
        let mut r: Line = Line::new();
        r.put(text, style);
        assert(r@ =~= seq![shown(text@, style)]);
        r
    }

    /// Adds a span on the right.
    pub fn put(&mut self, text: String, style: Style)
        ensures
            final(self)@ == old(self)@.push(shown(text@, style)),
    {
        let ghost before = self@;
        let ghost added = shown(text@, style);
        self.spans.push(Span { text, style });
        assert(self@ =~= before.push(added));
    }

    /// Adds a span on the right.
    pub fn put_str(&mut self, text: &str, style: Style)
        ensures
            final(self)@ == old(self)@.push(shown(text@, style)),
    {
        self.put(text.to_owned(), style)
    }
}

/// One thing to paint.
#[derive(Debug)]
pub enum Widget {
    /// A border all round, with a title in its upper edge.
    Block { area: Rect, title: Option<Span>, border: Style, base: Style },
    /// Lines of text, from the top.
    Text { area: Rect, lines: Vec<Line>, base: Style },
}

/// What a widget shows.
pub enum WidgetView {
    Block { area: Rect, title: Option<SpanView>, border: Style, base: Style },
    Text { area: Rect, lines: Seq<Seq<SpanView>>, base: Style },
}

impl View for Widget {
    type V = WidgetView;

    open spec fn view(&self) -> WidgetView {
        match *self {
            Widget::Block { area, title, border, base } => WidgetView::Block {
                area,
                title: match title {
                    Some(t) => Some(t@),
                    None => None,
                },
                border,
                base,
            },
            Widget::Text { area, lines, base } => WidgetView::Text {
                area,
                lines: lines_view(lines@),
                base,
            },
        }
    }
}

/// What lines show.
pub open spec fn lines_view(lines: Seq<Line>) -> Seq<Seq<SpanView>> {
    Seq::new(lines.len(), |i: int| lines[i]@)
}

/// Widgets in the order in which they are painted.
#[derive(Debug)]
pub struct Canvas {
    pub widgets: Vec<Widget>,
}

impl View for Canvas {
    type V = Seq<WidgetView>;

    open spec fn view(&self) -> Seq<WidgetView> {
        Seq::new(self.widgets@.len(), |i: int| self.widgets@[i]@)
    }
}

/// One line of text over `area`.
pub open spec fn text_row(area: Rect, line: Seq<SpanView>, base: Style) -> WidgetView {
    WidgetView::Text { area, lines: seq![line], base }
}

impl Canvas {
    /// Nothing painted.
    pub fn new() -> (r: Canvas)
        ensures
            r@ == Seq::<WidgetView>::empty(),
    {
        let r: Canvas = Canvas { widgets: Vec::new() };
        assert(r@ =~= Seq::<WidgetView>::empty());
        r
    }

    /// Paints `widget` over what is there.
    pub fn paint(&mut self, widget: Widget)
        ensures
            final(self)@ == old(self)@.push(widget@),
    {
        let ghost before = self@;
        let ghost added = widget@;
        self.widgets.push(widget);
        assert(self@ =~= before.push(added));
    }

    /// Paints one line of text.
    pub fn row(&mut self, area: Rect, line: Line, base: Style)
        ensures
            final(self)@ == old(self)@.push(text_row(area, line@, base)),
    {
        let mut lines: Vec<Line> = Vec::new();
        lines.push(line);
        assert(lines_view(lines@) =~= seq![line@]);
        self.paint(Widget::Text { area, lines, base });
    }

    /// Paints what `other` holds after what is there.
    pub fn extend(&mut self, other: Canvas)
        ensures
            final(self)@ == old(self)@ + other@,
    {
        let mut tail: Canvas = other;
        let ghost before = self@;
        self.widgets.append(&mut tail.widgets);
        assert(self@ =~= before + other@);
    }
}

} // verus!
