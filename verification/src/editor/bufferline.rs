//! The tabs above the text, one for each open file.

use crate::graphics::{capped_cell, draw, less, min, Color, DrawnText, DrawnTextView, Rect, Style,
    UnderlineStyle};
use crate::text::{append_str, string};
use crate::theme::ThemeStyles;
use crate::width::{text_width, width_of_text};
use vstd::prelude::*;

verus! {

/// The columns a mark takes at an edge of the strip that has tabs hidden behind it.
pub const MARK_WIDTH: u16 = 2;

/// An open file, as far as its tab goes.
#[derive(Debug)]
pub struct OpenFile {
    pub id: usize,
    /// The name of the file, or that of a buffer without one.
    pub name: String,
    pub modified: bool,
}

/// A tab before it is placed: the strip decides which ones fit.
#[derive(Debug)]
pub struct TabToDraw {
    pub name: String,
    pub mark: &'static str,
    pub active: bool,
    pub preview: bool,
    pub doc: usize,
}

#[verifier::ext_equal]
pub struct TabView {
    pub name: Seq<char>,
    pub mark: Seq<char>,
    pub active: bool,
    pub preview: bool,
    pub doc: usize,
}

impl DeepView for TabToDraw {
    type V = TabView;

    open spec fn deep_view(&self) -> TabView {
        TabView {
            name: self.name@,
            mark: self.mark@,
            active: self.active,
            preview: self.preview,
            doc: self.doc,
        }
    }
}

impl TabView {
    /// The columns a tab takes: its name, its mark and two behind it.
    pub open spec fn columns(self) -> u16 {
        capped_cell(width_of_text(self.name) + width_of_text(self.mark) + 2 as int)
    }
}

impl TabToDraw {
    pub fn width(&self) -> (r: u16)
        ensures
            r == self.deep_view().columns(),
    {
        let sum: usize = text_width(self.name.as_str()).saturating_add(
            text_width(self.mark),
        ).saturating_add(2);
        if sum > 65535 {
            65535
        } else {
            sum as u16
        }
    }
}

// ---------------------------------------------------------------------------------------
// Which tabs there are
// ---------------------------------------------------------------------------------------

/// The tab of a file. A modified one shows a dot where the cross goes, as it cannot be closed
/// without losing its changes.
pub open spec fn file_tab(file: OpenFile, active: bool) -> TabView {
    TabView {
        name: "  "@ + file.name@ + "  "@,
        mark: if file.modified {
            "\u{25cf}"@
        } else {
            "\u{d7}"@
        },
        active,
        preview: false,
        doc: file.id,
    }
}

/// The tab of a file's preview, beside the file's own.
pub open spec fn preview_tab(file: OpenFile) -> TabView {
    TabView {
        name: "  "@ + file.name@ + " \u{2713}  "@,
        mark: "\u{d7}"@,
        active: true,
        preview: true,
        doc: file.id,
    }
}

/// The tabs of the first `n` files. A preview that fills the screen is a tab of its own
/// beside its file's, and it is the one lit: the file is not what is being looked at.
pub open spec fn tabs_of(files: Seq<OpenFile>, current: usize, full_preview: bool, n: nat) -> Seq<
    TabView,
>
    decreases n,
{
    if n == 0 {
        Seq::empty()
    } else {
        let before = tabs_of(files, current, full_preview, (n - 1) as nat);
        let file = files[n - 1];
        let own = before.push(file_tab(file, file.id == current && !full_preview));
        if full_preview && file.id == current {
            own.push(preview_tab(file))
        } else {
            own
        }
    }
}

fn tab_name(name: &str, end: &str) -> (r: String)
    ensures
        r@ == "  "@ + name@ + end@,
{
    let mut text: Vec<char> = Vec::new();
    append_str(&mut text, "  ");
    append_str(&mut text, name);
    append_str(&mut text, end);
    proof {
        assert(text@ =~= "  "@ + name@ + end@);
    }
    string(text.as_slice())
}

/// The tabs of the open files, in their order.
pub fn list_tabs(files: &Vec<OpenFile>, current: usize, full_preview: bool) -> (r: Vec<TabToDraw>)
    ensures
        r.deep_view() == tabs_of(files@, current, full_preview, files@.len()),
{
    let mut tabs: Vec<TabToDraw> = Vec::new();
    let mut n: usize = 0;
    proof {
        assert(tabs.deep_view() =~= Seq::empty());
    }
    while n < files.len()
        invariant
            n <= files@.len(),
            tabs.deep_view() == tabs_of(files@, current, full_preview, n as nat),
        decreases files@.len() - n,
    {
        let file: &OpenFile = &files[n];
        let is_current: bool = file.id == current;
        let ghost before = tabs.deep_view();
        let tab: TabToDraw = TabToDraw {
            name: tab_name(file.name.as_str(), "  "),
            mark: if file.modified {
                "\u{25cf}"
            } else {
                "\u{d7}"
            },
            active: is_current && !full_preview,
            preview: false,
            doc: file.id,
        };
        proof {
            assert(tab.deep_view() == file_tab(*file, is_current && !full_preview));
        }
        tabs.push(tab);
        proof {
            assert(tabs.deep_view() =~= before.push(tab.deep_view()));
        }
        if full_preview && is_current {
            let ghost before = tabs.deep_view();
            let tab: TabToDraw = TabToDraw {
                name: tab_name(file.name.as_str(), " \u{2713}  "),
                mark: "\u{d7}",
                active: true,
                preview: true,
                doc: file.id,
            };
            proof {
                assert(tab.deep_view() == preview_tab(*file));
            }
            tabs.push(tab);
            proof {
                assert(tabs.deep_view() =~= before.push(tab.deep_view()));
            }
        }
        n = n + 1;
    }
    tabs
}

// ---------------------------------------------------------------------------------------
// Which tabs fit
// ---------------------------------------------------------------------------------------

/// How many tabs from the `k`-th on fit from a column `x` on, whole, leaving room for the mark
/// at the end where there are tabs behind them.
pub open spec fn fit(tabs: Seq<TabView>, k: int, x: int, width: int) -> int
    decreases tabs.len() - k,
{
    if k >= tabs.len() {
        0
    } else {
        let mark = if k + 1 < tabs.len() {
            MARK_WIDTH as int
        } else {
            0
        };
        if x + tabs[k].columns() + mark > width {
            0
        } else {
            1 + fit(tabs, k + 1, x + tabs[k].columns() + 1, width)
        }
    }
}

/// The column the first tab drawn starts at: behind the mark, where tabs are hidden before it.
pub open spec fn fit_start(first: int) -> int {
    if first > 0 {
        MARK_WIDTH as int
    } else {
        0
    }
}

/// How many tabs fit from the first drawn on.
pub open spec fn shown_from(tabs: Seq<TabView>, first: int, width: int) -> int {
    fit(tabs, first, fit_start(first), width)
}

pub proof fn lemma_fit(tabs: Seq<TabView>, k: int, x: int, width: int)
    requires
        0 <= k <= tabs.len(),
    ensures
        0 <= fit(tabs, k, x, width) <= tabs.len() - k,
    decreases tabs.len() - k,
{
    if k < tabs.len() {
        lemma_fit(tabs, k + 1, x + tabs[k].columns() + 1, width);
    }
}

/// How many tabs from `first` fit in `width` columns, whole, leaving room for the mark on
/// each side that has tabs hidden behind it. Half a tab hides its cross, and the cross is
/// what a click aims for.
pub fn tabs_that_fit(tabs: &Vec<TabToDraw>, first: usize, width: u16) -> (r: usize)
    requires
        first <= tabs@.len(),
    ensures
        r == shown_from(tabs.deep_view(), first as int, width as int),
        first + r <= tabs@.len(),
{
    let ghost all = tabs.deep_view();
    let mut x: u32 = if first > 0 {
        MARK_WIDTH as u32
    } else {
        0
    };
    let mut k: usize = first;
    let mut count: usize = 0;
    while k < tabs.len()
        invariant
            first <= k <= tabs@.len(),
            count == k - first,
            all == tabs.deep_view(),
            x <= width + 2,
            shown_from(all, first as int, width as int) == count + fit(
                all,
                k as int,
                x as int,
                width as int,
            ),
        decreases tabs@.len() - k,
    {
        let own: u16 = tabs[k].width();
        proof {
            assert(all[k as int] == tabs@[k as int].deep_view());
        }
        let mark: u32 = if k + 1 < tabs.len() {
            MARK_WIDTH as u32
        } else {
            0
        };
        if x + own as u32 + mark > width as u32 {
            return count;
        }
        x = x + own as u32 + 1;
        k = k + 1;
        count = count + 1;
    }
    count
}

/// The first tab in front of all, by number; the first where none is.
pub open spec fn front(tabs: Seq<TabView>, k: int) -> int
    decreases tabs.len() - k,
{
    if k >= tabs.len() {
        0
    } else if tabs[k].active {
        k
    } else {
        front(tabs, k + 1)
    }
}

/// The first tab drawn: the strip moves only as far as it must for the tab in front to be on
/// screen.
pub open spec fn first_drawn(tabs: Seq<TabView>, first: int, current: int, width: int) -> int
    decreases current - first,
{
    if first < current && first + shown_from(tabs, first, width) <= current {
        first_drawn(tabs, first + 1, current, width)
    } else {
        first
    }
}

// ---------------------------------------------------------------------------------------
// The strip
// ---------------------------------------------------------------------------------------

/// A tab as drawn.
#[derive(Debug, Clone, Copy, PartialEq, Eq, Structural)]
pub struct BufferlineTab {
    /// The rows and columns the tab covers, padding included.
    pub area: Rect,
    /// The column of its close mark.
    pub close: u16,
    pub doc: usize,
    /// The tab is the file's preview rather than the file itself.
    pub preview: bool,
}

/// Where a click on the strip landed.
#[derive(Debug, Clone, Copy, PartialEq, Eq, Structural)]
pub enum BufferlineHit {
    Open(usize),
    Close(usize),
    ClosePreview,
}

/// The strip of tabs as last drawn.
#[derive(Debug)]
pub struct Bufferline {
    /// The tabs of the last frame, so a click can land on one.
    pub tabs: Vec<BufferlineTab>,
    /// The rows the strip took, so the wheel over it can be told.
    pub area: Rect,
    /// The first tab drawn: the strip scrolls when the tabs do not all fit.
    pub first: usize,
    /// The marks of the last frame, when tabs were hidden on that side.
    pub back: Option<Rect>,
    pub forward: Option<Rect>,
}

/// The column a tab starts at, counted from the first of the strip.
pub open spec fn tab_column(tabs: Seq<TabView>, first: int, k: int) -> int
    decreases k - first,
{
    if k <= first {
        fit_start(first)
    } else {
        tab_column(tabs, first, k - 1) + tabs[k - 1].columns() + 1
    }
}

/// A tab drawn in a strip, the `k`-th of all.
pub open spec fn drawn_tab(tabs: Seq<TabView>, first: int, k: int, viewport: Rect, height: u16) ->
    BufferlineTab {
    let x = capped_cell(viewport.x + tab_column(tabs, first, k));
    BufferlineTab {
        area: Rect { x, y: viewport.y, width: tabs[k].columns(), height },
        close: capped_cell(x + width_of_text(tabs[k].name)),
        doc: tabs[k].doc,
        preview: tabs[k].preview,
    }
}

impl Bufferline {
    pub fn new() -> (r: Bufferline)
        ensures
            r.tabs@.len() == 0,
            r.area == (Rect { x: 0, y: 0, width: 0, height: 0 }),
            r.first == 0,
            r.back is None,
            r.forward is None,
    {
        Bufferline {
            tabs: Vec::new(),
            area: Rect::new(0, 0, 0, 0),
            first: 0,
            back: None,
            forward: None,
        }
    }

    /// Forgets the last frame's strip, so nothing of it can be clicked.
    pub fn clear(&mut self)
        ensures
            final(self).tabs@.len() == 0,
            final(self).area == (Rect { x: 0, y: 0, width: 0, height: 0 }),
            final(self).back is None,
            final(self).forward is None,
            final(self).first == old(self).first,
    {
        self.tabs = Vec::new();
        self.area = Rect::new(0, 0, 0, 0);
        self.back = None;
        self.forward = None;
    }

    /// Lays the tabs out along a strip `height` rows high. It starts where it was left, and
    /// moves only as far as it must for the tab in front to be on screen.
    #[verifier::rlimit(30)]
    pub fn lay_out(&mut self, tabs: &Vec<TabToDraw>, viewport: Rect, height: u16)
        requires
            viewport.fits(),
        ensures
            final(self).first + final(self).tabs@.len() <= tabs@.len(),
            ({
                let all = tabs.deep_view();
                let current = front(all, 0);
                let first = first_drawn(
                    all,
                    min(old(self).first as int, current),
                    current,
                    viewport.width as int,
                );
                let shown = shown_from(all, first, viewport.width as int);
                &&& final(self).area == viewport
                &&& final(self).first == first
                &&& final(self).tabs@ == Seq::new(
                    shown as nat,
                    |i: int| drawn_tab(all, first, first + i, viewport, height),
                )
                &&& final(self).back == if first > 0 {
                    Some(Rect { x: viewport.x, y: viewport.y, width: MARK_WIDTH, height })
                } else {
                    None
                }
                &&& final(self).forward == if first + shown < all.len() {
                    Some(
                        Rect {
                            x: less(viewport.spec_right() as int, MARK_WIDTH as int) as u16,
                            y: viewport.y,
                            width: MARK_WIDTH,
                            height,
                        },
                    )
                } else {
                    None
                }
            }),
    {
        let ghost all = tabs.deep_view();
        let ghost width = viewport.width as int;
        self.clear();
        self.area = viewport;
        let current: usize = find_front(tabs);
        let len: usize = tabs.len();
        let mut first: usize = if self.first < current {
            self.first
        } else {
            current
        };
        let ghost start = first as int;
        let mut shown: usize = tabs_that_fit(tabs, first, viewport.width);
        while first < current && first + shown <= current
            invariant
                len == tabs@.len(),
                first <= current,
                current < tabs@.len() || current == 0,
                first + shown <= tabs@.len(),
                all == tabs.deep_view(),
                width == viewport.width,
                shown == shown_from(all, first as int, width),
                first_drawn(all, start, current as int, width) == first_drawn(
                    all,
                    first as int,
                    current as int,
                    width,
                ),
            decreases current - first,
        {
            first = first + 1;
            shown = tabs_that_fit(tabs, first, viewport.width);
        }
        self.first = first;
        if first > 0 {
            self.back = Some(Rect::new(viewport.x, viewport.y, MARK_WIDTH, height));
        }
        let mut x: u32 = viewport.x as u32 + if first > 0 {
            MARK_WIDTH as u32
        } else {
            0
        };
        let mut k: usize = first;
        let mut drawn: Vec<BufferlineTab> = Vec::new();
        let ghost want = Seq::new(
            shown as nat,
            |i: int| drawn_tab(all, first as int, first + i, viewport, height),
        );
        while k < first + shown
            invariant
                len == tabs@.len(),
                first <= k <= first + shown <= tabs@.len(),
                all == tabs.deep_view(),
                viewport.fits(),
                width == viewport.width,
                x == viewport.x + tab_column(all, first as int, k as int),
                shown == shown_from(all, first as int, width),
                first + shown == k + fit(
                    all,
                    k as int,
                    tab_column(all, first as int, k as int),
                    width,
                ),
                want == Seq::new(
                    shown as nat,
                    |i: int| drawn_tab(all, first as int, first + i, viewport, height),
                ),
                drawn@ == want.take(k - first),
            decreases first + shown - k,
        {
            let tab: &TabToDraw = &tabs[k];
            proof {
                assert(all[k as int] == tab.deep_view());
                lemma_fit(
                    all,
                    k + 1,
                    tab_column(all, first as int, k as int) + all[k as int].columns() + 1,
                    width,
                );
            }
            let own: u16 = tab.width();
            let at: u16 = if x > 65535 {
                65535
            } else {
                x as u16
            };
            let name: usize = text_width(tab.name.as_str());
            let name: u16 = if name > 65535 {
                65535
            } else {
                name as u16
            };
            drawn.push(
                BufferlineTab {
                    area: Rect::new(at, viewport.y, own, height),
                    close: at.saturating_add(name),
                    doc: tab.doc,
                    preview: tab.preview,
                },
            );
            x = x + own as u32 + 1;
            k = k + 1;
            proof {
                assert(drawn@ =~= want.take(k - first));
            }
        }
        proof {
            assert(drawn@ =~= want);
        }
        self.tabs = drawn;
        if first + shown < tabs.len() {
            self.forward =
            Some(
                Rect::new(viewport.right().saturating_sub(MARK_WIDTH), viewport.y, MARK_WIDTH, height),
            );
        }
    }

    /// The first tab from `k` on that was drawn under a cell; or the end.
    pub open spec fn tab_under(self, k: int, row: u16, column: u16) -> int
        decreases self.tabs@.len() - k,
    {
        if k >= self.tabs@.len() {
            self.tabs@.len() as int
        } else if self.tabs@[k].area.holds(row as int, column as int) {
            k
        } else {
            self.tab_under(k + 1, row, column)
        }
    }

    /// What a click on a cell lands on. The cross takes a column either side too: a single
    /// cell is a small target.
    pub open spec fn hit(self, row: u16, column: u16) -> Option<BufferlineHit> {
        let k = self.tab_under(0, row, column);
        if k < self.tabs@.len() {
            let tab = self.tabs@[k];
            let closing = tab.close <= column + 1 && column <= tab.close + 1;
            match (tab.preview, closing) {
                (true, true) => Some(BufferlineHit::ClosePreview),
                (true, false) => None,
                (false, true) => Some(BufferlineHit::Close(tab.doc)),
                (false, false) => Some(BufferlineHit::Open(tab.doc)),
            }
        } else {
            None
        }
    }

    pub fn bufferline_hit(&self, row: u16, column: u16) -> (r: Option<BufferlineHit>)
        ensures
            r == self.hit(row, column),
    {
        let mut k: usize = 0;
        while k < self.tabs.len() && !self.tabs[k].area.contains(row, column)
            invariant
                k <= self.tabs@.len(),
                self.tab_under(0, row, column) == self.tab_under(k as int, row, column),
            decreases self.tabs@.len() - k,
        {
            k = k + 1;
        }
        if k >= self.tabs.len() {
            return None;
        }
        let tab: BufferlineTab = self.tabs[k];
        let closing: bool = column as u32 + 1 >= tab.close as u32 && column as u32
            <= tab.close as u32 + 1;
        match (tab.preview, closing) {
            (true, true) => Some(BufferlineHit::ClosePreview),
            (true, false) => None,
            (false, true) => Some(BufferlineHit::Close(tab.doc)),
            (false, false) => Some(BufferlineHit::Open(tab.doc)),
        }
    }
}

fn find_front(tabs: &Vec<TabToDraw>) -> (r: usize)
    ensures
        r == front(tabs.deep_view(), 0),
        r < tabs@.len() || r == 0,
{
    let ghost all = tabs.deep_view();
    let mut k: usize = 0;
    while k < tabs.len()
        invariant
            k <= tabs@.len(),
            all == tabs.deep_view(),
            front(all, 0) == front(all, k as int),
        decreases tabs@.len() - k,
    {
        proof {
            assert(all[k as int] == tabs@[k as int].deep_view());
        }
        if tabs[k].active {
            return k;
        }
        k = k + 1;
    }
    0
}

// ---------------------------------------------------------------------------------------
// The shape of the tab in front
// ---------------------------------------------------------------------------------------

/// What the bar behind the tabs is drawn in.
pub open spec fn bar_style(theme: ThemeStyles) -> Style {
    theme.style_or("ui.bufferline.background"@, "ui.statusline"@)
}

/// What the theme has for the tab in front.
pub open spec fn lit_style(theme: ThemeStyles) -> Style {
    theme.style_or("ui.bufferline.active"@, "ui.statusline.active"@)
}

/// Whether the tab in front has a colour the bar does not, over an editor with a colour of
/// its own: what drawing it as a tab takes.
pub open spec fn is_shaped(theme: ThemeStyles) -> bool {
    &&& lit_style(theme).bg is Some
    &&& lit_style(theme).bg != bar_style(theme).bg
    &&& theme.style("ui.background"@).bg is Some
}

fn same_color(a: Option<Color>, b: Option<Color>) -> (r: bool)
    ensures
        r == (a == b),
{
    match (a, b) {
        (Some(a), Some(b)) => a == b,
        (None, None) => true,
        _ => false,
    }
}

pub fn bufferline_shaped(theme: &ThemeStyles) -> (r: bool)
    ensures
        r == is_shaped(*theme),
{
    let background: Option<Color> = theme.get_or("ui.bufferline.background", "ui.statusline").bg;
    let active: Option<Color> = theme.get_or("ui.bufferline.active", "ui.statusline.active").bg;
    active.is_some() && !same_color(active, background) && theme.get("ui.background").bg.is_some()
}

/// The rows the tab strip takes: the names, and under them the half row the tab in front runs
/// on into the editor through. A theme that gives the tab in front no colour of its own has
/// no shape to draw, and the strip is the names alone.
pub fn bufferline_height(theme: &ThemeStyles) -> (r: u16)
    ensures
        r == if is_shaped(*theme) {
            2u16
        } else {
            1
        },
{
    if bufferline_shaped(theme) {
        2
    } else {
        1
    }
}

/// What the strip of tabs is drawn in.
#[derive(Debug, Clone, Copy, PartialEq, Eq, Structural)]
pub struct BufferlineStyles {
    /// The bar behind the tabs, which the strip is cleared with.
    pub bar: Style,
    /// The tab in front.
    pub active: Style,
    /// The other tabs, and the marks at the edges.
    pub inactive: Style,
    /// The background of the editor under the strip.
    pub editor: Option<Color>,
    /// The tab in front runs on into the editor.
    pub shaped: bool,
}

/// What the tab in front is drawn in. The underline the status line wears comes along when a
/// theme has no tab colours of its own, and under a title it reads as a stray rule. Without a
/// colour of its own, the tab in front is cut out of the bar, in bold.
pub open spec fn active_style(theme: ThemeStyles) -> Style {
    let plain = Style { underline_style: Some(UnderlineStyle::Reset), ..lit_style(theme) };
    if is_shaped(theme) {
        plain
    } else {
        Style { bg: Some(Color::Reset), ..plain }.spec_bold()
    }
}

pub fn bufferline_styles(theme: &ThemeStyles) -> (r: BufferlineStyles)
    ensures
        r == (BufferlineStyles {
            bar: bar_style(*theme),
            active: active_style(*theme),
            inactive: theme.style_or("ui.bufferline"@, "ui.statusline.inactive"@),
            editor: theme.style("ui.background"@).bg,
            shaped: is_shaped(*theme),
        }),
{
    let shaped: bool = bufferline_shaped(theme);
    let lit: Style = theme.get_or("ui.bufferline.active", "ui.statusline.active");
    let plain: Style = Style { underline_style: Some(UnderlineStyle::Reset), ..lit };
    BufferlineStyles {
        bar: theme.get_or("ui.bufferline.background", "ui.statusline"),
        active: if shaped {
            plain
        } else {
            Style { bg: Some(Color::Reset), ..plain }.bold()
        },
        inactive: theme.get_or("ui.bufferline", "ui.statusline.inactive"),
        editor: theme.get("ui.background").bg,
        shaped,
    }
}

impl BufferlineStyles {
    /// What a tab is drawn in.
    pub open spec fn of_tab(self, active: bool) -> Style {
        if active {
            self.active
        } else {
            self.inactive
        }
    }

    /// The background of a tab: its own, or that of the bar.
    pub open spec fn tab_background(self, active: bool) -> Option<Color> {
        match self.of_tab(active).bg {
            Some(own) => Some(own),
            None => self.bar.bg,
        }
    }

    fn tab_style(&self, active: bool) -> (r: Style)
        ensures
            r == self.of_tab(active),
    {
        if active {
            self.active
        } else {
            self.inactive
        }
    }
}

/// The texts of a tab: its name, its mark and two columns behind it.
pub open spec fn tab_texts(tab: TabView, drawn: BufferlineTab, y: u16, style: Style) -> Seq<
    DrawnTextView,
> {
    seq![
        DrawnTextView { x: drawn.area.x, y, text: tab.name, style },
        DrawnTextView { x: drawn.close, y, text: tab.mark, style },
        DrawnTextView {
            x: capped_cell(drawn.close + width_of_text(tab.mark)),
            y,
            text: "  "@,
            style,
        },
    ]
}

impl Bufferline {
    /// The texts of the first `n` tabs on screen, behind the mark of those hidden before them.
    pub open spec fn texts_of(self, tabs: Seq<TabView>, styles: BufferlineStyles, n: nat) -> Seq<
        DrawnTextView,
    >
        decreases n,
    {
        if n == 0 {
            match self.back {
                Some(mark) => seq![
                    DrawnTextView {
                        x: mark.x,
                        y: self.area.y,
                        text: "\u{2039}"@,
                        style: styles.inactive,
                    },
                ],
                None => Seq::empty(),
            }
        } else {
            let tab = tabs[self.first + n - 1];
            self.texts_of(tabs, styles, (n - 1) as nat) + tab_texts(
                tab,
                self.tabs@[n - 1],
                self.area.y,
                styles.of_tab(tab.active),
            )
        }
    }

    /// The texts of the strip, the mark of the tabs hidden behind it the last.
    pub open spec fn strip_texts(self, tabs: Seq<TabView>, styles: BufferlineStyles) -> Seq<
        DrawnTextView,
    > {
        let shown = self.texts_of(tabs, styles, self.tabs@.len());
        match self.forward {
            Some(mark) => shown.push(
                DrawnTextView {
                    x: capped_cell(mark.x + 1),
                    y: self.area.y,
                    text: "\u{203a}"@,
                    style: styles.inactive,
                },
            ),
            None => shown,
        }
    }

    /// The texts of the strip as laid out for these tabs, each in its style.
    pub fn texts(&self, tabs: &Vec<TabToDraw>, styles: BufferlineStyles) -> (r: Vec<DrawnText>)
        requires
            self.first + self.tabs@.len() <= tabs@.len(),
        ensures
            r.deep_view() == self.strip_texts(tabs.deep_view(), styles),
    {
        let ghost all = tabs.deep_view();
        let y: u16 = self.area.y;
        let mut out: Vec<DrawnText> = Vec::new();
        proof {
            assert(out.deep_view() =~= Seq::empty());
        }
        if let Some(mark) = self.back {
            draw(&mut out, mark.x, y, "\u{2039}", styles.inactive);
        }
        let mut n: usize = 0;
        proof {
            assert(out.deep_view() =~= self.texts_of(all, styles, 0));
        }
        while n < self.tabs.len()
            invariant
                n <= self.tabs@.len(),
                self.first + self.tabs@.len() <= tabs@.len(),
                all == tabs.deep_view(),
                y == self.area.y,
                out.deep_view() == self.texts_of(all, styles, n as nat),
            decreases self.tabs@.len() - n,
        {
            proof {
                assert(tabs.len() == tabs@.len());
            }
            let tab: &TabToDraw = &tabs[self.first + n];
            let drawn: BufferlineTab = self.tabs[n];
            let style: Style = styles.tab_style(tab.active);
            let width: usize = text_width(tab.mark);
            let width: u16 = if width > 65535 {
                65535
            } else {
                width as u16
            };
            let ghost before = out.deep_view();
            proof {
                assert(all[self.first + n] == tab.deep_view());
            }
            draw(&mut out, drawn.area.x, y, tab.name.as_str(), style);
            draw(&mut out, drawn.close, y, tab.mark, style);
            draw(&mut out, drawn.close.saturating_add(width), y, "  ", style);
            n = n + 1;
            proof {
                assert(out.deep_view() =~= before + tab_texts(tab.deep_view(), drawn, y, style));
            }
        }
        if let Some(mark) = self.forward {
            draw(&mut out, mark.x.saturating_add(1), y, "\u{203a}", styles.inactive);
        }
        out
    }

    /// The colour over a column of the row under the names: that of the tab it is under, or
    /// that of the bar.
    pub open spec fn color_over(self, tabs: Seq<TabView>, styles: BufferlineStyles, column: u16) -> Option<
        Color,
    > {
        let k = self.tab_under(0, self.area.y, column);
        if k < self.tabs@.len() {
            styles.tab_background(tabs[self.first + k].active)
        } else {
            styles.bar.bg
        }
    }

    /// A cell of the row under the names: the bar ends half-way down its last row, so it sits
    /// on the editor, and the tab in front runs on into it.
    pub fn cell_under(&self, tabs: &Vec<TabToDraw>, styles: BufferlineStyles, column: u16) -> (r:
        Option<HalfBlock>)
        requires
            self.first + self.tabs@.len() <= tabs@.len(),
        ensures
            r == if styles.shaped {
                Some(halves(self.color_over(tabs.deep_view(), styles, column), styles.editor))
            } else {
                None
            },
    {
        if !styles.shaped {
            return None;
        }
        let mut k: usize = 0;
        while k < self.tabs.len() && !self.tabs[k].area.contains(self.area.y, column)
            invariant
                k <= self.tabs@.len(),
                self.tab_under(0, self.area.y, column) == self.tab_under(
                    k as int,
                    self.area.y,
                    column,
                ),
            decreases self.tabs@.len() - k,
        {
            k = k + 1;
        }
        let over: Option<Color> = if k < self.tabs.len() {
            proof {
                assert(tabs.len() == tabs@.len());
                assert(tabs.deep_view()[self.first + k] == tabs@[self.first + k].deep_view());
            }
            match styles.tab_style(tabs[self.first + k].active).bg {
                Some(own) => Some(own),
                None => styles.bar.bg,
            }
        } else {
            styles.bar.bg
        };
        Some(half_block(over, styles.editor))
    }
}

/// A cell painted as two halves.
#[derive(Debug, Clone, Copy, PartialEq, Eq, Structural)]
pub struct HalfBlock {
    pub symbol: char,
    pub fg: Option<Color>,
    pub bg: Color,
}

/// A colour a theme leaves unset is the terminal's own background.
pub open spec fn or_reset(color: Option<Color>) -> Color {
    match color {
        Some(color) => color,
        None => Color::Reset,
    }
}

fn color_or_reset(color: Option<Color>) -> (r: Color)
    ensures
        r == or_reset(color),
{
    match color {
        Some(color) => color,
        None => Color::Reset,
    }
}

/// One cell as two halves, `upper` over `lower`: a terminal colours no less than a cell, so
/// half a row of padding is a block glyph in two colours.
pub open spec fn halves(upper: Option<Color>, lower: Option<Color>) -> HalfBlock {
    if upper == lower {
        HalfBlock { symbol: ' ', fg: None, bg: or_reset(upper) }
    } else if lower is Some {
        HalfBlock { symbol: '\u{2584}', fg: lower, bg: or_reset(upper) }
    } else {
        HalfBlock { symbol: '\u{2580}', fg: Some(or_reset(upper)), bg: Color::Reset }
    }
}

pub fn half_block(upper: Option<Color>, lower: Option<Color>) -> (r: HalfBlock)
    ensures
        r == halves(upper, lower),
{
    if same_color(upper, lower) {
        return HalfBlock { symbol: ' ', fg: None, bg: color_or_reset(upper) };
    }
    match lower {
        Some(_) => HalfBlock { symbol: '\u{2584}', fg: lower, bg: color_or_reset(upper) },
        // They differ, so the upper half is the one with a colour.
        None => HalfBlock {
            symbol: '\u{2580}',
            fg: Some(color_or_reset(upper)),
            bg: Color::Reset,
        },
    }
}

// ---------------------------------------------------------------------------------------
// Laws
// ---------------------------------------------------------------------------------------

proof fn lemma_first_drawn(tabs: Seq<TabView>, first: int, current: int, width: int)
    requires
        0 <= first <= current,
    ensures
        ({
            let r = first_drawn(tabs, first, current, width);
            first <= r <= current && (r == current || current < r + shown_from(tabs, r, width))
        }),
    decreases current - first,
{
    if first < current && first + shown_from(tabs, first, width) <= current {
        lemma_first_drawn(tabs, first + 1, current, width);
    }
}

/// The tab in front is among those on screen, or is the first there is room for.
pub proof fn the_tab_in_front_is_on_screen(tabs: Seq<TabView>, first: int, width: int)
    requires
        0 <= first,
    ensures
        ({
            let current = front(tabs, 0);
            let r = first_drawn(tabs, min(first, current), current, width);
            r <= current && (r == current || current < r + shown_from(tabs, r, width))
        }),
{
    lemma_front(tabs, 0);
    lemma_first_drawn(tabs, min(first, front(tabs, 0)), front(tabs, 0), width);
}

proof fn lemma_front(tabs: Seq<TabView>, k: int)
    requires
        0 <= k,
    ensures
        0 <= front(tabs, k),
    decreases tabs.len() - k,
{
    if k < tabs.len() && !tabs[k].active {
        lemma_front(tabs, k + 1);
    }
}

proof fn lemma_fit_at(tabs: Seq<TabView>, first: int, k: int, j: int, width: int)
    requires
        0 <= first <= j <= k < tabs.len(),
        k < j + fit(tabs, j, tab_column(tabs, first, j), width),
    ensures
        tab_column(tabs, first, k) + tabs[k].columns() + (if k + 1 < tabs.len() {
            MARK_WIDTH as int
        } else {
            0
        }) <= width,
    decreases k - j,
{
    if j < k {
        lemma_fit_at(tabs, first, k, j + 1, width);
    }
}

/// A tab on screen is there whole, and covers no mark: it ends before the strip does, and
/// before the mark at its end where one is drawn.
pub proof fn tabs_are_whole(tabs: Seq<TabView>, first: int, k: int, width: int)
    requires
        0 <= first <= k < first + shown_from(tabs, first, width),
        k < tabs.len(),
    ensures
        fit_start(first) <= tab_column(tabs, first, k),
        tab_column(tabs, first, k) + tabs[k].columns() <= width,
        first + shown_from(tabs, first, width) < tabs.len() ==> tab_column(tabs, first, k)
            + tabs[k].columns() + MARK_WIDTH <= width,
{
    lemma_fit_at(tabs, first, k, first, width);
    lemma_columns(tabs, first, first, k);
    if k + 1 >= tabs.len() {
        lemma_fit(tabs, first, fit_start(first), width);
    }
}

proof fn lemma_columns(tabs: Seq<TabView>, first: int, i: int, k: int)
    requires
        0 <= first <= i <= k,
    ensures
        i < k ==> tab_column(tabs, first, i) + tabs[i].columns() < tab_column(tabs, first, k),
        tab_column(tabs, first, i) <= tab_column(tabs, first, k),
        fit_start(first) <= tab_column(tabs, first, i),
    decreases k - first,
{
    if i < k {
        lemma_columns(tabs, first, i, k - 1);
    } else if i > first {
        lemma_columns(tabs, first, first, i - 1);
    }
}

/// Tabs stand apart: one begins behind the end of the one before it, with a column between
/// them.
pub proof fn tabs_stand_apart(tabs: Seq<TabView>, first: int, i: int, k: int)
    requires
        0 <= first <= i < k,
    ensures
        tab_column(tabs, first, i) + tabs[i].columns() + 1 <= tab_column(tabs, first, k),
{
    lemma_columns(tabs, first, i, k);
}

} // verus!
