//! What is shown of the file the row in focus stands for.

use crate::graphics::{less, max, min, Rect};
use crate::picker::list::{Picker, MAX_FILE_SIZE_FOR_PREVIEW};
use crate::text::{append_str, chars, string};
use vstd::prelude::*;

verus! {

/// What there is at a path.
#[derive(Debug)]
pub enum Looked {
    /// Nothing, or nothing that can be read.
    Missing,
    /// A directory with the names in it and which of them are directories.
    Directory(Vec<(String, bool)>),
    /// A file of so many bytes, whether its first bytes are of a binary, and how many lines
    /// it has as a document. What could not be found out is not there.
    File { len: u64, binary: Option<bool>, lines: Option<usize> },
    /// Neither a directory nor a file.
    Other,
}

/// What is kept to be shown for a path.
#[derive(Debug)]
pub enum CachedPreview {
    /// A document of so many lines.
    Document(usize),
    Directory(Vec<(String, bool)>),
    Binary,
    LargeFile,
    NotFound,
}

/// The name of an entry as listed: a directory's ends in a slash.
pub open spec fn listed(entry: (Seq<char>, bool)) -> (Seq<char>, bool) {
    (
        if entry.1 {
            entry.0 + "/"@
        } else {
            entry.0
        },
        entry.1,
    )
}

fn list_entries(entries: &Vec<(String, bool)>) -> (r: Vec<(String, bool)>)
    ensures
        r.deep_view() == entries.deep_view().map_values(
            |entry: (Seq<char>, bool)| listed(entry),
        ),
{
    let ghost want = entries.deep_view().map_values(|entry: (Seq<char>, bool)| listed(entry));
    let mut out: Vec<(String, bool)> = Vec::new();
    let mut n: usize = 0;
    proof {
        assert(out.deep_view() =~= want.take(0));
    }
    while n < entries.len()
        invariant
            n <= entries@.len(),
            want == entries.deep_view().map_values(|entry: (Seq<char>, bool)| listed(entry)),
            out.deep_view() == want.take(n as int),
        decreases entries@.len() - n,
    {
        let ghost before = out.deep_view();
        let mut name: Vec<char> = chars(entries[n].0.as_str());
        let is_dir: bool = entries[n].1;
        if is_dir {
            append_str(&mut name, "/");
        }
        out.push((string(name.as_slice()), is_dir));
        n = n + 1;
        proof {
            assert(entries.deep_view()[n - 1] == entries@[n - 1].deep_view());
            assert(out.deep_view() =~= before.push(want[n - 1]));
            assert(out.deep_view() =~= want.take(n as int));
        }
    }
    proof {
        assert(want.take(n as int) =~= want);
    }
    out
}

/// What is kept of what was found at a path.
pub fn preview_of(looked: &Looked) -> (r: CachedPreview)
    ensures
        match *looked {
            Looked::Directory(entries) => r is Directory && r->Directory_0.deep_view()
                == entries.deep_view().map_values(|entry: (Seq<char>, bool)| listed(entry)),
            Looked::File { len, binary, lines } => r == if len > MAX_FILE_SIZE_FOR_PREVIEW {
                CachedPreview::LargeFile
            } else if binary is None || (binary == Some(false) && lines is None) {
                CachedPreview::NotFound
            } else if binary == Some(true) {
                CachedPreview::Binary
            } else {
                CachedPreview::Document(lines->0)
            },
            _ => r == CachedPreview::NotFound,
        },
{
    match looked {
        Looked::Directory(entries) => CachedPreview::Directory(list_entries(entries)),
        Looked::File { len, binary, lines } => {
            if *len > MAX_FILE_SIZE_FOR_PREVIEW {
                return CachedPreview::LargeFile;
            }
            match binary {
                None => CachedPreview::NotFound,
                Some(true) => CachedPreview::Binary,
                Some(false) => match lines {
                    Some(lines) => CachedPreview::Document(*lines),
                    None => CachedPreview::NotFound,
                },
            }
        },
        _ => CachedPreview::NotFound,
    }
}

/// Where a preview comes from.
#[derive(Debug, Clone, Copy, PartialEq, Eq, Structural)]
pub enum PreviewSource {
    /// A document that is open already.
    Editor,
    /// What was kept from an earlier look. `highlight` asks for its syntax, which it lacks.
    Cache { highlight: bool },
    /// The path has to be looked at, and what is found kept.
    Look,
}

/// Where the preview of the row in focus comes from, for a row that names an open document
/// (`by_id`) or a path: an open document before what was kept, and that before another look.
/// `plain` says of what was kept that it is a document without syntax.
pub fn preview_source(by_id: bool, open: bool, cached: bool, plain: bool) -> (r: PreviewSource)
    ensures
        r == if by_id || open {
            PreviewSource::Editor
        } else if cached {
            PreviewSource::Cache { highlight: plain }
        } else {
            PreviewSource::Look
        },
{
    if by_id || open {
        PreviewSource::Editor
    } else if cached {
        PreviewSource::Cache { highlight: plain }
    } else {
        PreviewSource::Look
    }
}

impl CachedPreview {
    /// Alternate text to show for the preview.
    pub fn placeholder(&self) -> (r: &'static str)
        ensures
            r@ == match *self {
                CachedPreview::Document(_) => "<Invalid file location>"@,
                CachedPreview::Directory(_) => "<Invalid directory location>"@,
                CachedPreview::Binary => "<Binary file>"@,
                CachedPreview::LargeFile => "<File too large to preview>"@,
                CachedPreview::NotFound => "<File not found>"@,
            },
    {
        match self {
            CachedPreview::Document(_) => "<Invalid file location>",
            CachedPreview::Directory(_) => "<Invalid directory location>",
            CachedPreview::Binary => "<Binary file>",
            CachedPreview::LargeFile => "<File too large to preview>",
            CachedPreview::NotFound => "<File not found>",
        }
    }

    /// Whether a range of lines can be shown of it.
    pub open spec fn shows(self, range: Option<(usize, usize)>) -> bool {
        match self {
            CachedPreview::Document(lines) => match range {
                Some((start, end)) => start <= end <= lines,
                None => true,
            },
            _ => false,
        }
    }
}

/// What is drawn in the preview.
#[derive(Debug, PartialEq, Eq)]
pub enum PreviewBody {
    Document,
    /// The first so many names of a directory, one a row.
    Entries(usize),
    /// A text in the middle, from a column and a row on.
    Placeholder(u16, u16, &'static str),
}

/// Where a preview is drawn in its part of the screen: inside a border, with one column of
/// gap on either side.
pub open spec fn preview_inside(area: Rect) -> Rect {
    area.spec_inside_border().spec_clip_left(1).spec_clip_right(1)
}

pub fn preview_room(area: Rect) -> (r: Rect)
    ensures
        r == preview_inside(area),
{
    area.inside_border().clip_left(1).clip_right(1)
}

/// What is drawn of what was kept, in a room of its own: a document whose range of lines is
/// there, the names of a directory, or a few words in the middle.
pub fn preview_body(preview: &CachedPreview, range: Option<(usize, usize)>, room: Rect) -> (r:
    PreviewBody)
    requires
        room.fits(),
    ensures
        if preview.shows(range) {
            r == PreviewBody::Document
        } else {
            match *preview {
                CachedPreview::Directory(entries) => r == PreviewBody::Entries(
                    min(entries@.len() as int, room.height as int) as usize,
                ),
                _ => {
                    &&& r matches PreviewBody::Placeholder(x, y, text)
                    &&& text@ == match *preview {
                        CachedPreview::Document(_) => "<Invalid file location>"@,
                        CachedPreview::Binary => "<Binary file>"@,
                        CachedPreview::LargeFile => "<File too large to preview>"@,
                        _ => "<File not found>"@,
                    }
                    &&& x == room.x + less(room.width as int, text@.len() as int) / 2
                    &&& y == room.y + room.height as int / 2
                },
            }
        },
{
    let shown: bool = match preview {
        CachedPreview::Document(lines) => match range {
            Some((start, end)) => start <= end && end <= *lines,
            None => true,
        },
        _ => false,
    };
    if shown {
        return PreviewBody::Document;
    }
    match preview {
        CachedPreview::Directory(entries) => {
            let height: usize = room.height as usize;
            PreviewBody::Entries(
                if entries.len() < height {
                    entries.len()
                } else {
                    height
                },
            )
        },
        _ => {
            let text: &'static str = preview.placeholder();
            let letters: Vec<char> = chars(text);
            let len: u16 = if letters.len() > 65535 {
                65535
            } else {
                letters.len() as u16
            };
            PreviewBody::Placeholder(
                room.x + room.width.saturating_sub(len) / 2,
                room.y + room.height / 2,
                text,
            )
        },
    }
}

/// Where a document starts on screen, as the place of a character and the rows of its line
/// that are above the screen. `start` is where the range starts and `aligned` the place from
/// which its middle falls in the middle: a range with room to spare is put in the middle,
/// but never so that it starts above the screen; another starts at the top.
pub fn preview_anchor(
    range: Option<(usize, usize)>,
    height: u16,
    start: usize,
    aligned: (usize, usize),
) -> (r: (usize, usize))
    requires
        range matches Some((first, last)) ==> first <= last,
    ensures
        r == match range {
            None => (0usize, 0usize),
            Some((first, last)) => if last - first < height && start >= aligned.0 {
                aligned
            } else {
                (start, 0usize)
            },
        },
{
    match range {
        None => (0, 0),
        Some((first, last)) => {
            if last - first < height as usize && start >= aligned.0 {
                aligned
            } else {
                (start, 0)
            }
        },
    }
}

/// The line a preview starts at once the wheel has moved it: one there is.
pub open spec fn scrolled_line(line: int, scrolled: int, lines: int) -> int {
    min(max(line + scrolled, 0), less(lines, 1))
}

/// Whether a line is marked: it is one of the range.
pub open spec fn marks(range: Option<(usize, usize)>, line: usize) -> bool {
    range matches Some((start, end)) && start <= line <= end
}

pub fn marks_line(range: Option<(usize, usize)>, line: usize) -> (r: bool)
    ensures
        r == marks(range, line),
{
    match range {
        Some((start, end)) => start <= line && line <= end,
        None => false,
    }
}

impl Picker {
    /// The line a preview of a document of so many lines starts at, once the wheel has moved
    /// it; none where the wheel has not.
    pub fn scroll_to(&self, line: usize, lines: usize) -> (r: Option<usize>)
        requires
            line <= i64::MAX,
            lines <= i64::MAX,
        ensures
            r == if self.scrolled_lines() == 0 {
                None
            } else {
                Some(scrolled_line(line as int, self.scrolled_lines(), lines as int) as usize)
            },
    {
        let scrolled: i64 = if self.preview_scroll.row == self.cursor {
            self.preview_scroll.lines
        } else {
            0
        };
        if scrolled == 0 {
            return None;
        }
        let last: i128 = lines.saturating_sub(1) as i128;
        let at: i128 = line as i128 + scrolled as i128;
        let at: i128 = if at < 0 {
            0
        } else {
            at
        };
        let at: i128 = if at > last {
            last
        } else {
            at
        };
        Some(at as usize)
    }
}

/// However far the wheel goes, the preview starts at a line there is.
pub proof fn the_wheel_stays_in_the_document(line: int, scrolled: int, lines: int)
    requires
        lines > 0,
    ensures
        0 <= scrolled_line(line, scrolled, lines) < lines,
{
}

} // verus!
