//! Rectangles of the screen, and the styles text is drawn in.

use crate::text::{chars, string};
use vstd::prelude::*;

verus! {

#[derive(Debug, Clone, Copy, PartialEq, Eq, Structural)]
pub enum Color {
    Reset,
    Black,
    Red,
    Green,
    Yellow,
    Blue,
    Magenta,
    Cyan,
    Gray,
    LightRed,
    LightGreen,
    LightYellow,
    LightBlue,
    LightMagenta,
    LightCyan,
    LightGray,
    White,
    Rgb(u8, u8, u8),
    Indexed(u8),
}

#[derive(Debug, Clone, Copy, PartialEq, Eq, Structural)]
pub enum UnderlineStyle {
    Reset,
    Line,
    Curl,
    Dotted,
    Dashed,
    DoubleLine,
}

/// How the letters themselves are drawn.
#[derive(Debug, Clone, Copy, PartialEq, Eq, Structural)]
pub struct Modifiers {
    pub bold: bool,
    pub dim: bool,
    pub italic: bool,
    pub slow_blink: bool,
    pub rapid_blink: bool,
    pub reversed: bool,
    pub hidden: bool,
    pub crossed_out: bool,
}

impl Modifiers {
    pub open spec fn spec_none() -> Modifiers {
        Modifiers {
            bold: false,
            dim: false,
            italic: false,
            slow_blink: false,
            rapid_blink: false,
            reversed: false,
            hidden: false,
            crossed_out: false,
        }
    }

    /// Those of either.
    pub open spec fn spec_with(self, other: Modifiers) -> Modifiers {
        Modifiers {
            bold: self.bold || other.bold,
            dim: self.dim || other.dim,
            italic: self.italic || other.italic,
            slow_blink: self.slow_blink || other.slow_blink,
            rapid_blink: self.rapid_blink || other.rapid_blink,
            reversed: self.reversed || other.reversed,
            hidden: self.hidden || other.hidden,
            crossed_out: self.crossed_out || other.crossed_out,
        }
    }

    /// Those that are not in `other`.
    pub open spec fn spec_without(self, other: Modifiers) -> Modifiers {
        Modifiers {
            bold: self.bold && !other.bold,
            dim: self.dim && !other.dim,
            italic: self.italic && !other.italic,
            slow_blink: self.slow_blink && !other.slow_blink,
            rapid_blink: self.rapid_blink && !other.rapid_blink,
            reversed: self.reversed && !other.reversed,
            hidden: self.hidden && !other.hidden,
            crossed_out: self.crossed_out && !other.crossed_out,
        }
    }

    pub fn none() -> (r: Modifiers)
        ensures
            r == Self::spec_none(),
    {
        Modifiers {
            bold: false,
            dim: false,
            italic: false,
            slow_blink: false,
            rapid_blink: false,
            reversed: false,
            hidden: false,
            crossed_out: false,
        }
    }

    pub fn with(self, other: Modifiers) -> (r: Modifiers)
        ensures
            r == self.spec_with(other),
    {
        Modifiers {
            bold: self.bold || other.bold,
            dim: self.dim || other.dim,
            italic: self.italic || other.italic,
            slow_blink: self.slow_blink || other.slow_blink,
            rapid_blink: self.rapid_blink || other.rapid_blink,
            reversed: self.reversed || other.reversed,
            hidden: self.hidden || other.hidden,
            crossed_out: self.crossed_out || other.crossed_out,
        }
    }

    pub fn without(self, other: Modifiers) -> (r: Modifiers)
        ensures
            r == self.spec_without(other),
    {
        Modifiers {
            bold: self.bold && !other.bold,
            dim: self.dim && !other.dim,
            italic: self.italic && !other.italic,
            slow_blink: self.slow_blink && !other.slow_blink,
            rapid_blink: self.rapid_blink && !other.rapid_blink,
            reversed: self.reversed && !other.reversed,
            hidden: self.hidden && !other.hidden,
            crossed_out: self.crossed_out && !other.crossed_out,
        }
    }
}

/// What a style changes of what it is drawn over: a field that is none leaves it alone.
#[derive(Debug, Clone, Copy, PartialEq, Eq, Structural)]
pub struct Style {
    pub fg: Option<Color>,
    pub bg: Option<Color>,
    pub underline_color: Option<Color>,
    pub underline_style: Option<UnderlineStyle>,
    pub add_modifier: Modifiers,
    pub sub_modifier: Modifiers,
}

impl Style {
    /// The style that changes nothing.
    pub open spec fn spec_plain() -> Style {
        Style {
            fg: None,
            bg: None,
            underline_color: None,
            underline_style: None,
            add_modifier: Modifiers::spec_none(),
            sub_modifier: Modifiers::spec_none(),
        }
    }

    pub open spec fn spec_patch(self, over: Style) -> Style {
        Style {
            fg: if over.fg is Some {
                over.fg
            } else {
                self.fg
            },
            bg: if over.bg is Some {
                over.bg
            } else {
                self.bg
            },
            underline_color: if over.underline_color is Some {
                over.underline_color
            } else {
                self.underline_color
            },
            underline_style: if over.underline_style is Some {
                over.underline_style
            } else {
                self.underline_style
            },
            add_modifier: self.add_modifier.spec_without(over.sub_modifier).spec_with(
                over.add_modifier,
            ),
            sub_modifier: self.sub_modifier.spec_without(over.add_modifier).spec_with(
                over.sub_modifier,
            ),
        }
    }

    pub open spec fn spec_add_modifier(self, modifier: Modifiers) -> Style {
        Style {
            add_modifier: self.add_modifier.spec_with(modifier),
            sub_modifier: self.sub_modifier.spec_without(modifier),
            ..self
        }
    }

    pub open spec fn spec_bold(self) -> Style {
        self.spec_add_modifier(Modifiers { bold: true, ..Modifiers::spec_none() })
    }

    pub fn plain() -> (r: Style)
        ensures
            r == Self::spec_plain(),
    {
        Style {
            fg: None,
            bg: None,
            underline_color: None,
            underline_style: None,
            add_modifier: Modifiers::none(),
            sub_modifier: Modifiers::none(),
        }
    }

    /// This style with `over` on top of it.
    pub fn patch(self, over: Style) -> (r: Style)
        ensures
            r == self.spec_patch(over),
    {
        Style {
            fg: if over.fg.is_some() {
                over.fg
            } else {
                self.fg
            },
            bg: if over.bg.is_some() {
                over.bg
            } else {
                self.bg
            },
            underline_color: if over.underline_color.is_some() {
                over.underline_color
            } else {
                self.underline_color
            },
            underline_style: if over.underline_style.is_some() {
                over.underline_style
            } else {
                self.underline_style
            },
            add_modifier: self.add_modifier.without(over.sub_modifier).with(over.add_modifier),
            sub_modifier: self.sub_modifier.without(over.add_modifier).with(over.sub_modifier),
        }
    }

    pub fn add_modifier(self, modifier: Modifiers) -> (r: Style)
        ensures
            r == self.spec_add_modifier(modifier),
    {
        Style {
            add_modifier: self.add_modifier.with(modifier),
            sub_modifier: self.sub_modifier.without(modifier),
            ..self
        }
    }

    pub fn bold(self) -> (r: Style)
        ensures
            r == self.spec_bold(),
    {
        self.add_modifier(Modifiers { bold: true, ..Modifiers::none() })
    }
}

/// Drawing the plain style over another leaves it as it is.
pub proof fn plain_changes_nothing(style: Style)
    ensures
        style.spec_patch(Style::spec_plain()) == style,
{
}

/// A run of text in one style.
#[derive(Debug, PartialEq)]
pub struct Span {
    pub text: String,
    pub style: Style,
}

impl Span {
    pub fn styled(text: String, style: Style) -> (r: Span)
        ensures
            r == (Span { text, style }),
    {
        Span { text, style }
    }
}

/// A span by its characters.
#[verifier::ext_equal]
pub struct SpanView {
    pub text: Seq<char>,
    pub style: Style,
}

impl DeepView for Span {
    type V = SpanView;

    open spec fn deep_view(&self) -> SpanView {
        SpanView { text: self.text@, style: self.style }
    }
}

/// A text put on the screen from a cell on.
#[derive(Debug, PartialEq)]
pub struct DrawnText {
    pub x: u16,
    pub y: u16,
    pub text: String,
    pub style: Style,
}

/// A drawn text by its characters.
#[verifier::ext_equal]
pub struct DrawnTextView {
    pub x: u16,
    pub y: u16,
    pub text: Seq<char>,
    pub style: Style,
}

impl DeepView for DrawnText {
    type V = DrawnTextView;

    open spec fn deep_view(&self) -> DrawnTextView {
        DrawnTextView { x: self.x, y: self.y, text: self.text@, style: self.style }
    }
}

/// A text drawn on top of those there are.
pub(crate) fn draw(out: &mut Vec<DrawnText>, x: u16, y: u16, text: &str, style: Style)
    ensures
        final(out).deep_view() == old(out).deep_view().push(
            DrawnTextView { x, y, text: text@, style },
        ),
{
    let ghost before = out.deep_view();
    let letters: Vec<char> = chars(text);
    let drawn: DrawnText = DrawnText { x, y, text: string(letters.as_slice()), style };
    out.push(drawn);
    proof {
        assert(out.deep_view() =~= before.push(drawn.deep_view()));
    }
}

/// A rectangle of the screen.
#[derive(Debug, Clone, Copy, PartialEq, Eq, Structural)]
pub struct Rect {
    pub x: u16,
    pub y: u16,
    pub width: u16,
    pub height: u16,
}

pub open spec fn min(a: int, b: int) -> int {
    if a <= b {
        a
    } else {
        b
    }
}

pub open spec fn max(a: int, b: int) -> int {
    if a >= b {
        a
    } else {
        b
    }
}

/// A count that stops at the largest column or row there is.
pub open spec fn capped_cell(n: int) -> u16 {
    if n > u16::MAX {
        u16::MAX
    } else {
        n as u16
    }
}

/// The characters of a text, as far as the screen's numbers go.
pub fn count_letters(text: &str) -> (r: u16)
    ensures
        r == capped_cell(text@.len() as int),
{
    let letters: Vec<char> = chars(text);
    if letters.len() > 65535 {
        65535
    } else {
        letters.len() as u16
    }
}

/// What is left of `a` once `b` is taken from it, nothing where `b` is more.
pub open spec fn less(a: int, b: int) -> int {
    if a >= b {
        a - b
    } else {
        0
    }
}

impl Rect {
    pub open spec fn spec_right(self) -> u16 {
        capped_cell(self.x + self.width)
    }

    pub open spec fn spec_bottom(self) -> u16 {
        capped_cell(self.y + self.height)
    }

    pub open spec fn spec_clip_left(self, width: int) -> Rect {
        Rect {
            x: capped_cell(self.x + min(width, self.width as int)),
            width: less(self.width as int, width) as u16,
            ..self
        }
    }

    pub open spec fn spec_clip_right(self, width: int) -> Rect {
        Rect { width: less(self.width as int, width) as u16, ..self }
    }

    pub open spec fn spec_clip_top(self, height: int) -> Rect {
        Rect {
            y: capped_cell(self.y + min(height, self.height as int)),
            height: less(self.height as int, height) as u16,
            ..self
        }
    }

    pub open spec fn spec_clip_bottom(self, height: int) -> Rect {
        Rect { height: less(self.height as int, height) as u16, ..self }
    }

    /// Whether a cell of the screen lies in it.
    pub open spec fn holds(self, row: int, column: int) -> bool {
        &&& self.x <= column < self.spec_right()
        &&& self.y <= row < self.spec_bottom()
    }

    /// Whether every cell of `inner` lies in it.
    pub open spec fn covers(self, inner: Rect) -> bool {
        &&& self.x <= inner.x
        &&& inner.x + inner.width <= self.x + self.width
        &&& self.y <= inner.y
        &&& inner.y + inner.height <= self.y + self.height
    }

    /// A rectangle that ends on the screen's numbers.
    pub open spec fn fits(self) -> bool {
        &&& self.x + self.width <= u16::MAX
        &&& self.y + self.height <= u16::MAX
    }

    pub fn new(x: u16, y: u16, width: u16, height: u16) -> (r: Rect)
        ensures
            r == (Rect { x, y, width, height }),
    {
        Rect { x, y, width, height }
    }

    pub fn right(self) -> (r: u16)
        ensures
            r == self.spec_right(),
    {
        self.x.saturating_add(self.width)
    }

    pub fn bottom(self) -> (r: u16)
        ensures
            r == self.spec_bottom(),
    {
        self.y.saturating_add(self.height)
    }

    pub fn clip_left(self, width: u16) -> (r: Rect)
        ensures
            r == self.spec_clip_left(width as int),
    {
        let cut: u16 = if width < self.width {
            width
        } else {
            self.width
        };
        Rect { x: self.x.saturating_add(cut), width: self.width - cut, ..self }
    }

    pub fn clip_right(self, width: u16) -> (r: Rect)
        ensures
            r == self.spec_clip_right(width as int),
    {
        Rect { width: self.width.saturating_sub(width), ..self }
    }

    pub fn clip_top(self, height: u16) -> (r: Rect)
        ensures
            r == self.spec_clip_top(height as int),
    {
        let cut: u16 = if height < self.height {
            height
        } else {
            self.height
        };
        Rect { y: self.y.saturating_add(cut), height: self.height - cut, ..self }
    }

    pub fn clip_bottom(self, height: u16) -> (r: Rect)
        ensures
            r == self.spec_clip_bottom(height as int),
    {
        Rect { height: self.height.saturating_sub(height), ..self }
    }

    pub fn contains(self, row: u16, column: u16) -> (r: bool)
        ensures
            r == self.holds(row as int, column as int),
    {
        row >= self.y && row < self.bottom() && column >= self.x && column < self.right()
    }
}

impl Rect {
    /// A rectangle in the middle of this one, no larger than it is.
    pub open spec fn spec_centered(self, width: u16, height: u16) -> Rect {
        let width = min(width as int, self.width as int);
        let height = min(height as int, self.height as int);
        Rect {
            x: (self.x + (self.width - width) / 2) as u16,
            y: (self.y + (self.height - height) / 2) as u16,
            width: width as u16,
            height: height as u16,
        }
    }

    /// What a border of one cell leaves.
    pub open spec fn spec_inside_border(self) -> Rect {
        Rect {
            x: capped_cell(self.x + 1),
            y: capped_cell(self.y + 1),
            width: less(self.width as int, 2) as u16,
            height: less(self.height as int, 2) as u16,
        }
    }

    /// The cells in both of two.
    pub open spec fn spec_intersection(self, other: Rect) -> Rect {
        let x = max(self.x as int, other.x as int);
        let y = max(self.y as int, other.y as int);
        Rect {
            x: x as u16,
            y: y as u16,
            width: less(min(self.spec_right() as int, other.spec_right() as int), x) as u16,
            height: less(min(self.spec_bottom() as int, other.spec_bottom() as int), y) as u16,
        }
    }

    pub fn intersection(self, other: Rect) -> (r: Rect)
        ensures
            r == self.spec_intersection(other),
    {
        let x: u16 = if self.x > other.x {
            self.x
        } else {
            other.x
        };
        let y: u16 = if self.y > other.y {
            self.y
        } else {
            other.y
        };
        let right: u16 = if self.right() < other.right() {
            self.right()
        } else {
            other.right()
        };
        let bottom: u16 = if self.bottom() < other.bottom() {
            self.bottom()
        } else {
            other.bottom()
        };
        Rect { x, y, width: right.saturating_sub(x), height: bottom.saturating_sub(y) }
    }

    pub fn centered(self, width: u16, height: u16) -> (r: Rect)
        requires
            self.fits(),
        ensures
            r == self.spec_centered(width, height),
            self.covers(r),
            r.fits(),
    {
        let width: u16 = if width < self.width {
            width
        } else {
            self.width
        };
        let height: u16 = if height < self.height {
            height
        } else {
            self.height
        };
        Rect {
            x: self.x + (self.width - width) / 2,
            y: self.y + (self.height - height) / 2,
            width,
            height,
        }
    }

    pub fn inside_border(self) -> (r: Rect)
        ensures
            r == self.spec_inside_border(),
    {
        Rect {
            x: self.x.saturating_add(1),
            y: self.y.saturating_add(1),
            width: self.width.saturating_sub(2),
            height: self.height.saturating_sub(2),
        }
    }
}

/// What is clipped lies in what it was clipped from.
pub proof fn clipping_stays_inside(area: Rect, n: u16)
    requires
        area.fits(),
    ensures
        area.covers(area.spec_clip_left(n as int)),
        area.covers(area.spec_clip_right(n as int)),
        area.covers(area.spec_clip_top(n as int)),
        area.covers(area.spec_clip_bottom(n as int)),
{
}

/// What is drawn on top wins, and what it leaves open shows what is under it.
pub proof fn the_upper_style_wins(a: Style, b: Style)
    ensures
        b.fg is Some ==> a.spec_patch(b).fg == b.fg,
        b.fg is None ==> a.spec_patch(b).fg == a.fg,
        b.bg is Some ==> a.spec_patch(b).bg == b.bg,
        b.bg is None ==> a.spec_patch(b).bg == a.bg,
        b.underline_style is Some ==> a.spec_patch(b).underline_style == b.underline_style,
        b.add_modifier.bold ==> a.spec_patch(b).add_modifier.bold,
        b.sub_modifier.bold && !b.add_modifier.bold ==> !a.spec_patch(b).add_modifier.bold,
        !b.add_modifier.italic && !b.sub_modifier.italic ==> a.spec_patch(b).add_modifier.italic
            == a.add_modifier.italic,
{
}

proof fn lemma_modifiers(a: Modifiers, b: Modifiers, c: Modifiers, d: Modifiers, e: Modifiers)
    ensures
        a.spec_without(b).spec_with(c).spec_without(d).spec_with(e) == a.spec_without(
            b.spec_without(e).spec_with(d),
        ).spec_with(c.spec_without(d).spec_with(e)),
{
}

/// Drawing one style over another, and a third over both, is drawing the third over the second
/// and both over the first.
pub proof fn styles_lie_over_each_other(a: Style, b: Style, c: Style)
    ensures
        a.spec_patch(b).spec_patch(c) == a.spec_patch(b.spec_patch(c)),
{
    lemma_modifiers(
        a.add_modifier,
        b.sub_modifier,
        b.add_modifier,
        c.sub_modifier,
        c.add_modifier,
    );
    lemma_modifiers(
        a.sub_modifier,
        b.add_modifier,
        b.sub_modifier,
        c.add_modifier,
        c.sub_modifier,
    );
    let one = a.spec_patch(b).spec_patch(c);
    let other = a.spec_patch(b.spec_patch(c));
    assert(one.add_modifier == other.add_modifier);
    assert(one.sub_modifier == other.sub_modifier);
}

/// What is cut off at one side and what is left are the whole.
pub proof fn clipping_parts_the_area(area: Rect, n: u16)
    requires
        area.fits(),
        n <= area.width,
        n <= area.height,
    ensures
        ({
            let left = area.spec_clip_right(area.width - n);
            let rest = area.spec_clip_left(n as int);
            &&& left.x == area.x && left.width == n
            &&& rest.x == area.x + n && rest.width == area.width - n
            &&& left.y == area.y && rest.y == area.y && rest.height == area.height
        }),
        ({
            let top = area.spec_clip_bottom(area.height - n);
            let rest = area.spec_clip_top(n as int);
            &&& top.y == area.y && top.height == n
            &&& rest.y == area.y + n && rest.height == area.height - n
            &&& top.x == area.x && rest.x == area.x && rest.width == area.width
        }),
{
}

/// A cell is in what two areas share where it is in both.
pub proof fn what_two_areas_share(a: Rect, b: Rect, row: int, column: int)
    requires
        a.fits(),
        b.fits(),
    ensures
        a.spec_intersection(b).holds(row, column) <==> a.holds(row, column) && b.holds(row, column),
{
}

/// What is put in the middle is as large as asked for where there is room, and has as much
/// room on one side as on the other, but for one cell.
pub proof fn the_middle_is_the_middle(area: Rect, width: u16, height: u16)
    requires
        area.fits(),
        width <= area.width,
        height <= area.height,
    ensures
        ({
            let inner = area.spec_centered(width, height);
            let left = inner.x - area.x;
            let right = area.x + area.width - (inner.x + inner.width);
            let above = inner.y - area.y;
            let below = area.y + area.height - (inner.y + inner.height);
            &&& inner.width == width && inner.height == height
            &&& 0 <= left <= right <= left + 1
            &&& 0 <= above <= below <= above + 1
        }),
{
}

} // verus!
