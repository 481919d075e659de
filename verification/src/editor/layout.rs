//! Where the panels of the editor are drawn, and what its last row says.

use crate::editor::highlights::Severity;
use crate::graphics::{draw, less, min, Color, DrawnText, DrawnTextView, Rect, Style};
use crate::text::{append_str, decimal, string, write_number};
use crate::theme::ThemeStyles;
use crate::width::{text_width, width_of_text};
use vstd::prelude::*;
use vstd::slice::slice_subrange;

verus! {

/// When the strip of tabs is drawn.
#[derive(Debug, Clone, Copy, PartialEq, Eq, Structural)]
pub enum BufferLine {
    Never,
    Always,
    /// With more than one file open.
    Multiple,
}

/// What decides where the panels are drawn.
#[derive(Debug, Clone, Copy, PartialEq, Eq, Structural)]
pub struct Screen {
    pub area: Rect,
    pub bufferline: BufferLine,
    pub documents: usize,
    /// The rows of the strip of tabs.
    pub bufferline_height: u16,
    pub sidebar_open: bool,
    /// The columns the sidebar wants.
    pub sidebar_width: u16,
    /// The columns the sidebar leaves to the text.
    pub editor_room: u16,
    /// The sidebar has the screen to itself.
    pub code_hidden: bool,
    pub full_preview: bool,
    pub nothing_open: bool,
}

/// What the room of the views shows.
#[derive(Debug, Clone, Copy, PartialEq, Eq, Structural)]
pub enum Shown {
    /// Nothing: the sidebar has the screen.
    Hidden,
    Welcome,
    /// The preview on its own. The views are not drawn at all: the file is behind it.
    FullPreview,
    Views,
}

impl Screen {
    /// Whether the strip of tabs has its rows.
    pub open spec fn has_strip(self) -> bool {
        match self.bufferline {
            BufferLine::Always => true,
            BufferLine::Multiple => self.documents > 1,
            BufferLine::Never => false,
        }
    }

    /// The columns the sidebar has, where it is open.
    pub open spec fn sidebar_columns(self) -> u16 {
        if self.code_hidden {
            self.area.width
        } else {
            min(
                self.sidebar_width as int,
                less(self.area.width as int, self.editor_room as int),
            ) as u16
        }
    }

    /// Where the sidebar is drawn. The last row is the command line's.
    pub open spec fn sidebar_area(self) -> Option<Rect> {
        if self.sidebar_open {
            Some(Rect { width: self.sidebar_columns(), ..self.area.spec_clip_bottom(1) })
        } else {
            None
        }
    }

    /// What the sidebar leaves.
    pub open spec fn beside_sidebar(self) -> Rect {
        let above = self.area.spec_clip_bottom(1);
        if self.sidebar_open && !self.code_hidden {
            above.spec_clip_left(self.sidebar_columns() as int)
        } else {
            above
        }
    }

    /// The columns the preview beside the text has, of those it wants.
    pub open spec fn preview_columns(self, wanted: u16) -> u16 {
        if self.full_preview || self.code_hidden {
            0
        } else {
            min(wanted as int, self.beside_sidebar().width as int) as u16
        }
    }

    /// Where the preview is drawn beside the text.
    pub open spec fn preview_area(self, wanted: u16) -> Rect {
        let room = self.beside_sidebar();
        room.spec_clip_left(room.width - self.preview_columns(wanted))
    }

    /// Where the views are drawn.
    pub open spec fn editor_area(self, wanted: u16) -> Rect {
        let room = self.beside_sidebar().spec_clip_right(self.preview_columns(wanted) as int);
        if self.has_strip() {
            room.spec_clip_top(self.bufferline_height as int)
        } else {
            room
        }
    }

    /// Whether the welcome is shown.
    pub open spec fn welcomes(self) -> bool {
        !self.code_hidden && !self.full_preview && self.nothing_open
    }

    /// Where the tabs are drawn, over the views.
    pub open spec fn strip_area(self, wanted: u16) -> Option<Rect> {
        if self.has_strip() && !self.code_hidden && !self.welcomes() {
            Some(
                Rect {
                    x: self.editor_area(wanted).x,
                    y: self.area.y,
                    width: self.editor_area(wanted).width,
                    height: self.bufferline_height,
                },
            )
        } else {
            None
        }
    }

    /// What the room of the views shows.
    pub open spec fn shown(self) -> Shown {
        if self.code_hidden {
            Shown::Hidden
        } else if self.welcomes() {
            Shown::Welcome
        } else if self.full_preview {
            Shown::FullPreview
        } else {
            Shown::Views
        }
    }

    /// Where the panels are drawn.
    pub open spec fn panels(self, wanted: u16) -> EditorLayout {
        EditorLayout {
            sidebar: self.sidebar_area(),
            views: self.editor_area(wanted),
            strip: self.strip_area(wanted),
            shown: self.shown(),
            preview: if self.shown() == Shown::Views && self.preview_columns(wanted) > 0 {
                Some(self.preview_area(wanted))
            } else {
                None
            },
        }
    }

    /// What the sidebar leaves, for the preview to say how many columns it wants of it.
    pub fn room(&self) -> (r: Rect)
        ensures
            r == self.beside_sidebar(),
    {
        let above: Rect = self.area.clip_bottom(1);
        if self.sidebar_open && !self.code_hidden {
            above.clip_left(self.sidebar_room())
        } else {
            above
        }
    }

    fn sidebar_room(&self) -> (r: u16)
        ensures
            r == self.sidebar_columns(),
    {
        if self.code_hidden {
            return self.area.width;
        }
        let most: u16 = self.area.width.saturating_sub(self.editor_room);
        if self.sidebar_width < most {
            self.sidebar_width
        } else {
            most
        }
    }

    /// Lays the panels out, with a preview that wants so many columns of what the sidebar
    /// leaves.
    pub fn lay_out(&self, wanted: u16) -> (r: EditorLayout)
        ensures
            r == self.panels(wanted),
    {
        let use_strip: bool = match self.bufferline {
            BufferLine::Always => true,
            BufferLine::Multiple => self.documents > 1,
            BufferLine::Never => false,
        };
        let sidebar: Option<Rect> = if self.sidebar_open {
            Some(Rect { width: self.sidebar_room(), ..self.area.clip_bottom(1) })
        } else {
            None
        };
        let room: Rect = self.room();
        let preview_width: u16 = if self.full_preview || self.code_hidden {
            0
        } else if wanted < room.width {
            wanted
        } else {
            room.width
        };
        let preview: Rect = room.clip_left(room.width - preview_width);
        let mut views: Rect = room.clip_right(preview_width);
        if use_strip {
            views = views.clip_top(self.bufferline_height);
        }
        let welcome: bool = !self.code_hidden && !self.full_preview && self.nothing_open;
        let strip: Option<Rect> = if use_strip && !self.code_hidden && !welcome {
            Some(Rect::new(views.x, self.area.y, views.width, self.bufferline_height))
        } else {
            None
        };
        let shown: Shown = if self.code_hidden {
            Shown::Hidden
        } else if welcome {
            Shown::Welcome
        } else if self.full_preview {
            Shown::FullPreview
        } else {
            Shown::Views
        };
        EditorLayout {
            sidebar,
            views,
            strip,
            shown,
            preview: if shown == Shown::Views && preview_width > 0 {
                Some(preview)
            } else {
                None
            },
        }
    }
}

/// Where the panels are drawn.
#[derive(Debug, Clone, Copy, PartialEq, Eq)]
pub struct EditorLayout {
    pub sidebar: Option<Rect>,
    /// The room of the views.
    pub views: Rect,
    /// The strip of tabs; one that is not drawn cannot be clicked.
    pub strip: Option<Rect>,
    pub shown: Shown,
    /// The preview beside the views; one that is not drawn leaves the screen.
    pub preview: Option<Rect>,
}

/// The panels beside one another share no column: the sidebar ends where the views begin, and
/// those end where the preview does.
pub proof fn panels_stand_side_by_side(screen: Screen, wanted: u16)
    requires
        screen.area.fits(),
        !screen.code_hidden,
    ensures
        screen.sidebar_area() matches Some(sidebar) ==> sidebar.x + sidebar.width
            == screen.editor_area(wanted).x,
        screen.editor_area(wanted).x + screen.editor_area(wanted).width == screen.preview_area(
            wanted,
        ).x,
        screen.preview_area(wanted).x + screen.preview_area(wanted).width == screen.area.x
            + screen.area.width,
{
}

/// The last row stays the command line's: nothing of the editor is drawn on it.
pub proof fn the_last_row_is_free(screen: Screen, wanted: u16)
    requires
        screen.area.fits(),
        screen.area.height > 0,
    ensures
        screen.editor_area(wanted).y + screen.editor_area(wanted).height < screen.area.y
            + screen.area.height,
        screen.sidebar_area() matches Some(sidebar) ==> sidebar.y + sidebar.height < screen.area.y
            + screen.area.height,
{
}

// ---------------------------------------------------------------------------------------
// A view
// ---------------------------------------------------------------------------------------

/// What decides how a view is drawn.
#[derive(Debug, Clone, Copy, PartialEq, Eq, Structural)]
pub struct ViewFacts {
    pub area: Rect,
    /// The room of all the views.
    pub viewport: Rect,
    pub focused: bool,
    pub terminal_focused: bool,
    pub cursor_blink: bool,
    pub cursorline: bool,
    pub cursorcolumn: bool,
    /// The columns the gutter has.
    pub gutter: u16,
    /// The document is one of a review, which has its own.
    pub review: bool,
    /// Messages are written between the lines, or behind them.
    pub inline_diagnostics: bool,
    pub end_of_line_diagnostics: bool,
    /// The caret has settled on its line.
    pub settled: bool,
    /// Brackets are coloured by their depth: what the language says of it, and what is said
    /// where it says nothing.
    pub language_rainbow: Option<bool>,
    pub rainbow: bool,
    /// What a server marks of what the caret is on is shown.
    pub server_marks: bool,
    /// The line the debugger's current frame is at, counted from one.
    pub frame: Option<usize>,
}

/// What is drawn over the syntax of a view's text.
#[derive(Debug, Clone, Copy, PartialEq, Eq, Structural)]
pub enum Layer {
    /// What a review marks.
    Review,
    /// What the theme lays over the syntax.
    Syntax,
    /// Brackets, by their depth.
    Rainbow,
    Links,
    Diagnostics,
    /// What a server marks of what the caret is on.
    ServerMarks,
    /// The places a snippet stops at.
    Tabstops,
    Selections,
    /// The bracket that matches the one under the caret.
    Bracket,
}

pub open spec fn layer_if(shown: bool, layer: Layer) -> Seq<Layer> {
    if shown {
        seq![layer]
    } else {
        Seq::empty()
    }
}

/// The layers of a view from the lowest to the highest: what the caret is about is drawn only
/// where the keys go, over all that the text itself says.
pub open spec fn layers_of(facts: ViewFacts) -> Seq<Layer> {
    let rainbow = match facts.language_rainbow {
        Some(own) => own,
        None => facts.rainbow,
    };
    layer_if(facts.review, Layer::Review) + seq![Layer::Syntax] + layer_if(rainbow, Layer::Rainbow)
        + seq![Layer::Links, Layer::Diagnostics] + layer_if(
        facts.focused && facts.server_marks,
        Layer::ServerMarks,
    ) + layer_if(facts.focused, Layer::Tabstops) + layer_if(facts.focused, Layer::Selections)
        + layer_if(facts.focused, Layer::Bracket)
}

/// What is drawn over the syntax of a view's text, the lowest layer first.
pub fn view_layers(facts: ViewFacts) -> (r: Vec<Layer>)
    ensures
        r@ == layers_of(facts),
{
    let rainbow: bool = match facts.language_rainbow {
        Some(own) => own,
        None => facts.rainbow,
    };
    let mut layers: Vec<Layer> = Vec::new();
    if facts.review {
        layers.push(Layer::Review);
    }
    layers.push(Layer::Syntax);
    if rainbow {
        layers.push(Layer::Rainbow);
    }
    layers.push(Layer::Links);
    layers.push(Layer::Diagnostics);
    if facts.focused {
        if facts.server_marks {
            layers.push(Layer::ServerMarks);
        }
        layers.push(Layer::Tabstops);
        layers.push(Layer::Selections);
        layers.push(Layer::Bracket);
    }
    proof {
        assert(layers@ =~= layers_of(facts));
    }
    layers
}

/// What is drawn of a view beside its text.
#[derive(Debug, Clone, Copy, PartialEq, Eq)]
pub struct ViewLayout {
    pub cursorline: bool,
    pub cursorcolumn: bool,
    pub gutter: bool,
    /// The cursors are drawn in the theme's colours.
    pub own_cursor: bool,
    /// The column of the border at its right, from its top to its bottom.
    pub border: Option<u16>,
    /// What is wrong with the caret's line is told in a box. It waits for the caret to settle:
    /// it does not flash past while the caret crosses the line.
    pub box_shown: bool,
    pub statusline: Rect,
    /// The line of the debugger's current frame, counted from none.
    pub frame_line: Option<usize>,
}

/// A line counted from none where it was counted from one.
pub open spec fn line_before(line: Option<usize>) -> Option<usize> {
    match line {
        Some(line) => Some(less(line as int, 1) as usize),
        None => None,
    }
}

/// How the line of the debugger's current frame is marked: a row of the text's room, from side
/// to side; no other line is.
pub fn mark_frame_line(
    frame_line: Option<usize>,
    inner: Rect,
    doc_line: usize,
    visual_line: u16,
    theme: &ThemeStyles,
) -> (r: Option<(Rect, Style)>)
    ensures
        r == if frame_line == Some(doc_line) {
            Some(
                (
                    Rect { x: inner.x, y: visual_line, width: inner.width, height: 1 },
                    theme.style("ui.highlight.frameline"@),
                ),
            )
        } else {
            None
        },
{
    match frame_line {
        Some(line) => if line == doc_line {
            Some(
                (
                    Rect::new(inner.x, visual_line, inner.width, 1),
                    theme.get("ui.highlight.frameline"),
                ),
            )
        } else {
            None
        },
        None => None,
    }
}

/// What is drawn of a view.
pub open spec fn view_laid_out(facts: ViewFacts) -> ViewLayout {
    ViewLayout {
        cursorline: facts.focused && facts.cursorline,
        cursorcolumn: facts.focused && facts.cursorcolumn,
        gutter: facts.gutter > 0 && !facts.review,
        own_cursor: facts.terminal_focused && !facts.cursor_blink,
        border: if facts.viewport.spec_right() != facts.area.spec_right() {
            Some(facts.area.spec_right())
        } else {
            None
        },
        box_shown: !facts.inline_diagnostics && !facts.end_of_line_diagnostics && facts.settled,
        statusline: facts.area.spec_clip_top(
            less(facts.area.height as int, 1),
        ).spec_clip_bottom(1),
        frame_line: line_before(facts.frame),
    }
}

/// What is drawn of a view.
pub fn lay_out_view(facts: ViewFacts) -> (r: ViewLayout)
    ensures
        r == view_laid_out(facts),
{
    ViewLayout {
        cursorline: facts.focused && facts.cursorline,
        cursorcolumn: facts.focused && facts.cursorcolumn,
        gutter: facts.gutter > 0 && !facts.review,
        own_cursor: facts.terminal_focused && !facts.cursor_blink,
        border: if facts.viewport.right() != facts.area.right() {
            Some(facts.area.right())
        } else {
            None
        },
        box_shown: !facts.inline_diagnostics && !facts.end_of_line_diagnostics && facts.settled,
        statusline: facts.area.clip_top(facts.area.height.saturating_sub(1)).clip_bottom(1),
        frame_line: match facts.frame {
            Some(line) => Some(line.saturating_sub(1)),
            None => None,
        },
    }
}

// ---------------------------------------------------------------------------------------
// The last row
// ---------------------------------------------------------------------------------------

/// The columns for showing pending keys.
pub const KEY_WIDTH: u16 = 15;

/// The columns of a sign behind the pending keys.
pub const SIGN_WIDTH: u16 = 3;

/// The names of the first `n` keys, one after the other.
pub open spec fn key_texts(keys: Seq<Seq<char>>, n: nat) -> Seq<char>
    decreases n,
{
    if n == 0 {
        Seq::empty()
    } else {
        key_texts(keys, (n - 1) as nat) + keys[n - 1]
    }
}

/// The count and the keys pending.
pub open spec fn pending(count: Option<u64>, keys: Seq<Seq<char>>) -> Seq<char> {
    (match count {
        Some(count) => decimal(count as nat),
        None => Seq::empty(),
    }) + key_texts(keys, keys.len())
}

/// The bytes of a character in UTF-8.
pub open spec fn char_bytes(c: char) -> int {
    if (c as u32) < 0x80 {
        1
    } else if (c as u32) < 0x800 {
        2
    } else if (c as u32) < 0x10000 {
        3
    } else {
        4
    }
}

/// The bytes of a text from the `k`-th character on.
pub open spec fn bytes_from(text: Seq<char>, k: int) -> int
    decreases text.len() - k,
{
    if k >= text.len() {
        0
    } else {
        char_bytes(text[k]) + bytes_from(text, k + 1)
    }
}

/// Whether a text is the last so many bytes of another, and all of it where that is shorter,
/// or where they would start inside a character.
pub open spec fn is_tail(end: Seq<char>, text: Seq<char>, room: int) -> bool {
    if bytes_from(text, 0) <= room {
        end == text
    } else {
        ||| exists|k: int|
            0 <= k <= text.len() && #[trigger] bytes_from(text, k) == room && end
                == text.subrange(k, text.len() as int)
        ||| (forall|k: int| 0 <= k <= text.len() ==> #[trigger] bytes_from(text, k) != room) && end
            == text
    }
}

fn utf8_len(c: char) -> (r: usize)
    ensures
        r == char_bytes(c),
{
    let code: u32 = c as u32;
    if code < 0x80 {
        1
    } else if code < 0x800 {
        2
    } else if code < 0x10000 {
        3
    } else {
        4
    }
}

proof fn lemma_bytes_fall(text: Seq<char>, i: int, k: int)
    requires
        0 <= i <= k <= text.len(),
    ensures
        bytes_from(text, k) <= bytes_from(text, i) - (k - i),
    decreases k - i,
{
    if i < k {
        lemma_bytes_fall(text, i + 1, k);
    }
}

/// The last so many bytes of a text, the whole of it where they would start inside a
/// character.
fn cut_tail(text: &Vec<char>, room: usize) -> (r: String)
    requires
        room < 1000,
    ensures
        is_tail(r@, text@, room as int),
{
    let mut k: usize = text.len();
    let mut bytes: usize = 0;
    while k > 0 && bytes < room
        invariant
            k <= text@.len(),
            room < 1000,
            bytes == bytes_from(text@, k as int),
            bytes < room + 4,
            forall|j: int| k < j <= text@.len() ==> #[trigger] bytes_from(text@, j) < room,
        decreases k,
    {
        k = k - 1;
        bytes = bytes + utf8_len(text[k]);
    }
    proof {
        lemma_bytes_fall(text@, 0, k as int);
        assert forall|j: int| 0 <= j < k implies #[trigger] bytes_from(text@, j) > bytes_from(
            text@,
            k as int,
        ) by {
            lemma_bytes_fall(text@, j, k as int);
        }
        assert(text@.subrange(0, text@.len() as int) =~= text@);
    }
    if bytes == room {
        return string(slice_subrange(text.as_slice(), k, text.len()));
    }
    string(text.as_slice())
}

/// The count and the keys pending, by their names; the last bytes of it where it is longer
/// than there is room for.
pub fn pending_text(count: Option<u64>, keys: &Vec<String>) -> (r: String)
    ensures
        is_tail(r@, pending(count, keys.deep_view()), KEY_WIDTH as int),
{
    let ghost all = keys.deep_view();
    let mut text: Vec<char> = Vec::new();
    if let Some(count) = count {
        write_number(&mut text, count);
    }
    let ghost before = text@;
    let mut n: usize = 0;
    proof {
        assert(before =~= (match count {
            Some(count) => decimal(count as nat),
            None => Seq::empty(),
        }));
        assert(before + key_texts(all, 0) =~= before);
    }
    while n < keys.len()
        invariant
            n <= keys@.len(),
            all == keys.deep_view(),
            text@ == before + key_texts(all, n as nat),
        decreases keys@.len() - n,
    {
        proof {
            assert(all[n as int] == keys@[n as int]@);
        }
        append_str(&mut text, keys[n].as_str());
        n = n + 1;
        proof {
            assert(text@ =~= before + key_texts(all, n as nat));
        }
    }
    cut_tail(&text, KEY_WIDTH as usize)
}

/// Whether the sign of a workspace that is not trusted is shown: where trusting it would change
/// something to be seen, and trust is asked for at all.
pub fn workspace_trust_indicator_visible(insecure: bool, restricted: bool) -> (r: bool)
    ensures
        r == (!insecure && restricted),
{
    !insecure && restricted
}

/// Where the signs of the last row are drawn: the pending keys, the sign of a workspace that
/// is not trusted, and the register a macro is recorded to.
#[derive(Debug, Clone, Copy, PartialEq, Eq)]
pub struct LastRow {
    pub keys: u16,
    pub restricted: Option<u16>,
    pub recording: Option<u16>,
}

/// Where the signs of the last row are drawn; nowhere, where a message leaves no room for
/// them.
pub open spec fn signs_at(area: Rect, message: u16, restricted: bool, recording: bool) -> Option<
    LastRow,
> {
    let trust = if restricted {
        SIGN_WIDTH as int
    } else {
        0
    };
    let record = if recording {
        SIGN_WIDTH as int
    } else {
        0
    };
    if less(area.width as int, message as int) > KEY_WIDTH {
        Some(
            LastRow {
                keys: (area.x + less(area.width as int, KEY_WIDTH + record + trust)) as u16,
                restricted: if restricted {
                    Some((area.x + less(area.width as int, SIGN_WIDTH + record)) as u16)
                } else {
                    None
                },
                recording: if recording {
                    Some((area.x + less(area.width as int, SIGN_WIDTH as int)) as u16)
                } else {
                    None
                },
            },
        )
    } else {
        None
    }
}

pub fn last_row(area: Rect, message: u16, restricted: bool, recording: bool) -> (r: Option<LastRow>)
    requires
        area.fits(),
    ensures
        r == signs_at(area, message, restricted, recording),
{
    if area.width.saturating_sub(message) <= KEY_WIDTH {
        return None;
    }
    let record: u16 = if recording {
        SIGN_WIDTH
    } else {
        0
    };
    let trust: u16 = if restricted {
        SIGN_WIDTH
    } else {
        0
    };
    Some(
        LastRow {
            keys: area.x + area.width.saturating_sub(KEY_WIDTH + record + trust),
            restricted: if restricted {
                Some(area.x + area.width.saturating_sub(SIGN_WIDTH + record))
            } else {
                None
            },
            recording: if recording {
                Some(area.x + area.width.saturating_sub(SIGN_WIDTH))
            } else {
                None
            },
        },
    )
}

/// What a message is drawn in.
pub open spec fn message_style(severity: Severity, theme: ThemeStyles) -> Style {
    if severity == Severity::Error {
        theme.style("error"@)
    } else {
        theme.style("ui.text"@)
    }
}

/// What a sign behind the pending keys is drawn in.
pub open spec fn sign_style(theme: ThemeStyles) -> Style {
    Style { fg: Some(Color::Yellow), ..theme.style("ui.text"@) }.spec_bold()
}

/// The columns of a message, as far as the columns of the screen are counted.
pub open spec fn message_columns(text: Seq<char>) -> u16 {
    (width_of_text(text) % 0x1_0000) as u16
}

/// The message of the last row, at its start.
pub open spec fn message_text(
    message: Option<(Seq<char>, Severity)>,
    x: u16,
    y: u16,
    theme: ThemeStyles,
) -> Seq<DrawnTextView> {
    match message {
        Some((text, severity)) => seq![
            DrawnTextView { x, y, text, style: message_style(severity, theme) },
        ],
        None => Seq::empty(),
    }
}

/// A sign of the last row, where it is shown.
pub open spec fn sign_text(x: Option<u16>, y: u16, text: Seq<char>, theme: ThemeStyles) -> Seq<
    DrawnTextView,
> {
    match x {
        Some(x) => seq![DrawnTextView { x, y, text, style: sign_style(theme) }],
        None => Seq::empty(),
    }
}

/// The register a macro is recorded to, in brackets.
pub open spec fn register_text(register: Option<char>) -> Seq<char> {
    match register {
        Some(register) => seq!['[', register, ']'],
        None => Seq::empty(),
    }
}

/// The texts of the last row: the message, and where that leaves room for them, the pending
/// keys, the sign of a workspace that is not trusted and the register a macro is recorded to.
pub open spec fn last_row_texts(
    area: Rect,
    message: Option<(Seq<char>, Severity)>,
    keys: Seq<char>,
    restricted: bool,
    recording: Option<char>,
    theme: ThemeStyles,
) -> Seq<DrawnTextView> {
    let y = (area.y + less(area.height as int, 1)) as u16;
    let columns = match message {
        Some((text, _)) => message_columns(text),
        None => 0,
    };
    let told = message_text(message, area.x, y, theme);
    match signs_at(area, columns, restricted, recording is Some) {
        Some(signs) => told + seq![
            DrawnTextView { x: signs.keys, y, text: keys, style: theme.style("ui.text"@) },
        ] + sign_text(signs.restricted, y, "[\u{26a0}]"@, theme) + sign_text(
            signs.recording,
            y,
            register_text(recording),
            theme,
        ),
        None => told,
    }
}

/// The texts of the last row, each in its place and its style; `keys` is what there is of the
/// pending keys to show.
pub fn draw_last_row(
    area: Rect,
    message: Option<(&str, Severity)>,
    keys: &str,
    restricted: bool,
    recording: Option<char>,
    theme: &ThemeStyles,
) -> (r: Vec<DrawnText>)
    requires
        area.fits(),
    ensures
        r.deep_view() == last_row_texts(
            area,
            match message {
                Some((text, severity)) => Some((text@, severity)),
                None => None,
            },
            keys@,
            restricted,
            recording,
            *theme,
        ),
{
    let y: u16 = area.y + area.height.saturating_sub(1);
    let mut out: Vec<DrawnText> = Vec::new();
    let mut columns: u16 = 0;
    proof {
        assert(out.deep_view() =~= Seq::empty());
    }
    if let Some((text, severity)) = message {
        columns = (text_width(text) % 0x1_0000) as u16;
        let style: Style = if severity == Severity::Error {
            theme.get("error")
        } else {
            theme.get("ui.text")
        };
        draw(&mut out, area.x, y, text, style);
    }
    let ghost told = out.deep_view();
    let signs: LastRow = match last_row(area, columns, restricted, recording.is_some()) {
        Some(signs) => signs,
        None => {
            return out;
        },
    };
    let text: Style = theme.get("ui.text");
    let sign: Style = Style { fg: Some(Color::Yellow), ..text }.bold();
    draw(&mut out, signs.keys, y, keys, text);
    if let Some(x) = signs.restricted {
        draw(&mut out, x, y, "[\u{26a0}]", sign);
    }
    if let (Some(x), Some(register)) = (signs.recording, recording) {
        let letters: Vec<char> = vec!['[', register, ']'];
        proof {
            assert(letters@ =~= register_text(recording));
        }
        draw(&mut out, x, y, string(letters.as_slice()).as_str(), sign);
    }
    proof {
        assert(out.deep_view() =~= told + seq![
            DrawnTextView { x: signs.keys, y, text: keys@, style: text },
        ] + sign_text(signs.restricted, y, "[\u{26a0}]"@, *theme) + sign_text(
            signs.recording,
            y,
            register_text(recording),
            *theme,
        ));
    }
    out
}

} // verus!
