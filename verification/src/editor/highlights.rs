//! What is marked in a document: diagnostics, links, selections, rulers.

use crate::editor::view::EditorView;
use crate::graphics::{capped_cell, less, max, min, Rect};
use crate::keymap::Mode;
use crate::text::same_str;
use vstd::prelude::*;

verus! {

/// From a place in the text up to another, which is not part of it.
pub type Stretch = (usize, usize);

/// A scope of the theme, by its number.
pub type Highlight = u32;

/// What is drawn over the syntax of a document.
#[derive(Debug)]
pub enum Overlay {
    Homogeneous { highlight: Highlight, ranges: Vec<Stretch> },
    Heterogenous { highlights: Vec<(Highlight, Stretch)> },
}

// ---------------------------------------------------------------------------------------
// The theme
// ---------------------------------------------------------------------------------------

/// The scopes a theme has, each with its number.
#[derive(Debug)]
pub struct Theme {
    pub scopes: Vec<(String, Highlight)>,
}

impl Theme {
    /// The number of the first scope from `k` on of that name.
    pub open spec fn named(self, name: Seq<char>, k: int) -> Option<Highlight>
        decreases self.scopes@.len() - k,
    {
        if k >= self.scopes@.len() {
            None
        } else if self.scopes@[k].0@ == name {
            Some(self.scopes@[k].1)
        } else {
            self.named(name, k + 1)
        }
    }

    /// The number of a scope, by exactly its name.
    pub open spec fn scope(self, name: Seq<char>) -> Option<Highlight> {
        self.named(name, 0)
    }

    pub fn find_highlight_exact(&self, name: &str) -> (r: Option<Highlight>)
        ensures
            r == self.scope(name@),
    {
        let mut k: usize = 0;
        while k < self.scopes.len()
            invariant
                k <= self.scopes@.len(),
                self.scope(name@) == self.named(name@, k as int),
            decreases self.scopes@.len() - k,
        {
            if same_str(self.scopes[k].0.as_str(), name) {
                return Some(self.scopes[k].1);
            }
            k = k + 1;
        }
        None
    }
}

/// The first of two that is there.
pub open spec fn or(a: Option<Highlight>, b: Option<Highlight>) -> Option<Highlight> {
    match a {
        Some(_) => a,
        None => b,
    }
}

// ---------------------------------------------------------------------------------------
// Diagnostics
// ---------------------------------------------------------------------------------------

#[derive(Debug, Clone, Copy, PartialEq, Eq, Structural)]
pub enum Severity {
    Hint,
    Info,
    Warning,
    Error,
}

#[derive(Debug, Clone, Copy, PartialEq, Eq, Structural)]
pub enum DiagnosticTag {
    Unnecessary,
    Deprecated,
}

/// What a language server says of a stretch of the text.
#[derive(Debug)]
pub struct Diagnostic {
    pub range: Stretch,
    /// The line it starts on.
    pub line: usize,
    pub message: String,
    pub severity: Option<Severity>,
    pub code: Option<String>,
    pub source: Option<String>,
    pub tags: Vec<DiagnosticTag>,
}

/// What the stretches of diagnostics are marked as.
#[derive(Debug, Clone, Copy, PartialEq, Eq, Structural)]
pub enum Shade {
    Default,
    Info,
    Hint,
    Warning,
    Error,
    Unnecessary,
    Deprecated,
}

/// Stretches with one more: it is merged into the last where it overlaps it.
pub open spec fn merged_with(ranges: Seq<Stretch>, range: Stretch) -> Seq<Stretch> {
    if ranges.len() > 0 && range.0 <= ranges.last().1 {
        let last = ranges.last();
        ranges.drop_last().push((last.0, max(range.1 as int, last.1 as int) as usize))
    } else {
        ranges.push(range)
    }
}

/// How often a tag is among the first `n`.
pub open spec fn tagged(tags: Seq<DiagnosticTag>, tag: DiagnosticTag, n: nat) -> nat
    decreases n,
{
    if n == 0 {
        0
    } else {
        tagged(tags, tag, (n - 1) as nat) + (if tags[n - 1] == tag {
            1nat
        } else {
            0
        })
    }
}

/// The shade of a severity.
pub open spec fn shade_of(severity: Option<Severity>) -> Shade {
    match severity {
        Some(Severity::Info) => Shade::Info,
        Some(Severity::Hint) => Shade::Hint,
        Some(Severity::Warning) => Shade::Warning,
        Some(Severity::Error) => Shade::Error,
        None => Shade::Default,
    }
}

/// How often a diagnostic is marked in a shade. One with tags and no warning or error is
/// marked by its tags alone.
pub open spec fn times(diagnostic: Diagnostic, shade: Shade) -> nat {
    let tags = diagnostic.tags@;
    match shade {
        Shade::Unnecessary => tagged(tags, DiagnosticTag::Unnecessary, tags.len()),
        Shade::Deprecated => tagged(tags, DiagnosticTag::Deprecated, tags.len()),
        _ => if shade_of(diagnostic.severity) == shade && (tags.len() == 0 || shade
            == Shade::Warning || shade == Shade::Error) {
            1
        } else {
            0
        },
    }
}

/// Stretches with one more, so many times.
pub open spec fn merged_times(ranges: Seq<Stretch>, range: Stretch, n: nat) -> Seq<Stretch>
    decreases n,
{
    if n == 0 {
        ranges
    } else {
        merged_with(merged_times(ranges, range, (n - 1) as nat), range)
    }
}

/// The stretches the first `n` diagnostics mark in a shade.
pub open spec fn shaded(diagnostics: Seq<Diagnostic>, shade: Shade, n: nat) -> Seq<Stretch>
    decreases n,
{
    if n == 0 {
        Seq::empty()
    } else {
        let diagnostic = diagnostics[n - 1];
        merged_times(
            shaded(diagnostics, shade, (n - 1) as nat),
            diagnostic.range,
            times(diagnostic, shade),
        )
    }
}

fn merge(ranges: &mut Vec<Stretch>, range: Stretch)
    ensures
        final(ranges)@ == merged_with(old(ranges)@, range),
{
    let len: usize = ranges.len();
    if len > 0 {
        let last: Stretch = ranges[len - 1];
        if range.0 <= last.1 {
            let end: usize = if range.1 > last.1 {
                range.1
            } else {
                last.1
            };
            ranges[len - 1] = (last.0, end);
            proof {
                assert(ranges@ =~= merged_with(old(ranges)@, range));
            }
            return ;
        }
    }
    ranges.push(range);
}

fn count_tags(tags: &Vec<DiagnosticTag>, tag: DiagnosticTag) -> (r: usize)
    ensures
        r == tagged(tags@, tag, tags@.len()),
{
    let mut count: usize = 0;
    let mut n: usize = 0;
    while n < tags.len()
        invariant
            n <= tags@.len(),
            count <= n,
            count == tagged(tags@, tag, n as nat),
        decreases tags@.len() - n,
    {
        if tags[n] == tag {
            count = count + 1;
        }
        n = n + 1;
    }
    count
}

fn count_times(diagnostic: &Diagnostic, shade: Shade) -> (r: usize)
    ensures
        r == times(*diagnostic, shade),
{
    match shade {
        Shade::Unnecessary => count_tags(&diagnostic.tags, DiagnosticTag::Unnecessary),
        Shade::Deprecated => count_tags(&diagnostic.tags, DiagnosticTag::Deprecated),
        _ => {
            let own: Shade = match diagnostic.severity {
                Some(Severity::Info) => Shade::Info,
                Some(Severity::Hint) => Shade::Hint,
                Some(Severity::Warning) => Shade::Warning,
                Some(Severity::Error) => Shade::Error,
                None => Shade::Default,
            };
            if own == shade && (diagnostic.tags.len() == 0 || shade == Shade::Warning || shade
                == Shade::Error) {
                1
            } else {
                0
            }
        },
    }
}

/// The stretches the diagnostics of a document mark in a shade.
pub fn shaded_ranges(diagnostics: &Vec<Diagnostic>, shade: Shade) -> (r: Vec<Stretch>)
    ensures
        r@ == shaded(diagnostics@, shade, diagnostics@.len()),
{
    let mut ranges: Vec<Stretch> = Vec::new();
    let mut n: usize = 0;
    while n < diagnostics.len()
        invariant
            n <= diagnostics@.len(),
            ranges@ == shaded(diagnostics@, shade, n as nat),
        decreases diagnostics@.len() - n,
    {
        let count: usize = count_times(&diagnostics[n], shade);
        let range: Stretch = diagnostics[n].range;
        let ghost before = ranges@;
        let mut k: usize = 0;
        while k < count
            invariant
                k <= count,
                ranges@ == merged_times(before, range, k as nat),
            decreases count - k,
        {
            merge(&mut ranges, range);
            k = k + 1;
        }
        n = n + 1;
    }
    ranges
}

/// The scope of a shade: its own, or one of the scopes every theme has one of.
pub open spec fn scope_or_else(theme: Theme, name: Seq<char>) -> Option<Highlight> {
    or(
        theme.scope(name),
        or(
            theme.scope("diagnostic"@),
            or(theme.scope("ui.cursor"@), theme.scope("ui.selection"@)),
        ),
    )
}

/// The scope a shade is looked up by.
pub open spec fn shade_name(shade: Shade) -> Seq<char> {
    match shade {
        Shade::Default => "diagnostic"@,
        Shade::Info => "diagnostic.info"@,
        Shade::Hint => "diagnostic.hint"@,
        Shade::Warning => "diagnostic.warning"@,
        Shade::Error => "diagnostic.error"@,
        Shade::Unnecessary => "diagnostic.unnecessary"@,
        Shade::Deprecated => "diagnostic.deprecated"@,
    }
}

/// The scope a shade is drawn in. A tag the theme has no scope for is not drawn.
pub open spec fn shade_scope(theme: Theme, shade: Shade) -> Option<Highlight> {
    match shade {
        Shade::Unnecessary | Shade::Deprecated => theme.scope(shade_name(shade)),
        _ => scope_or_else(theme, shade_name(shade)),
    }
}

/// Whether every severity has a scope to be drawn in.
pub open spec fn draws_diagnostics(theme: Theme) -> bool {
    scope_or_else(theme, "diagnostic"@) is Some
}

/// The shades in the order they are drawn, what is drawn later over what is drawn before.
pub open spec fn shades() -> Seq<Shade> {
    seq![
        Shade::Default,
        Shade::Unnecessary,
        Shade::Deprecated,
        Shade::Info,
        Shade::Hint,
        Shade::Warning,
        Shade::Error,
    ]
}

/// An overlay seen as a number and its stretches.
pub open spec fn drawn_as(overlay: Overlay, highlight: Highlight, ranges: Seq<Stretch>) -> bool {
    overlay matches Overlay::Homogeneous { highlight: own, ranges: marked } && own == highlight
        && marked@ == ranges
}

/// The first `n` shades that are drawn.
pub open spec fn shades_drawn(theme: Theme, n: nat) -> Seq<Shade>
    decreases n,
{
    if n == 0 {
        Seq::empty()
    } else {
        let before = shades_drawn(theme, (n - 1) as nat);
        if shade_scope(theme, shades()[n - 1]) is Some {
            before.push(shades()[n - 1])
        } else {
            before
        }
    }
}

/// The shades the diagnostics of a document are drawn in, lowest first: none where there is
/// no diagnostic.
pub open spec fn shades_for(theme: Theme, diagnostics: Seq<Diagnostic>) -> Seq<Shade> {
    if diagnostics.len() == 0 {
        Seq::empty()
    } else {
        shades_drawn(theme, shades().len())
    }
}

fn find_shade(theme: &Theme, shade: Shade) -> (r: Option<Highlight>)
    ensures
        r == shade_scope(*theme, shade),
{
    let name: &str = match shade {
        Shade::Default => "diagnostic",
        Shade::Info => "diagnostic.info",
        Shade::Hint => "diagnostic.hint",
        Shade::Warning => "diagnostic.warning",
        Shade::Error => "diagnostic.error",
        Shade::Unnecessary => "diagnostic.unnecessary",
        Shade::Deprecated => "diagnostic.deprecated",
    };
    let own: Option<Highlight> = theme.find_highlight_exact(name);
    match shade {
        Shade::Unnecessary | Shade::Deprecated => {
            return own;
        },
        _ => {},
    }
    if own.is_some() {
        return own;
    }
    let wider: Option<Highlight> = theme.find_highlight_exact("diagnostic");
    if wider.is_some() {
        return wider;
    }
    let cursor: Option<Highlight> = theme.find_highlight_exact("ui.cursor");
    if cursor.is_some() {
        return cursor;
    }
    theme.find_highlight_exact("ui.selection")
}

impl EditorView {
    /// What the diagnostics of a document mark, as overlays behind those there are: one for each
    /// shade the theme draws, none where there is no diagnostic.
    #[verifier::rlimit(30)]
    pub fn doc_diagnostics_highlights_into(
        diagnostics: &Vec<Diagnostic>,
        theme: &Theme,
        overlays: &mut Vec<Overlay>,
    )
        requires
            draws_diagnostics(*theme),
        ensures
            final(overlays)@.len() == old(overlays)@.len() + shades_for(
                *theme,
                diagnostics@,
            ).len(),
            final(overlays)@.take(old(overlays)@.len() as int) == old(overlays)@,
            forall|i: int|
                0 <= i < shades_for(*theme, diagnostics@).len() ==> drawn_as(
                    #[trigger] final(overlays)@[old(overlays)@.len() + i],
                    shade_scope(*theme, shades_for(*theme, diagnostics@)[i])->0,
                    shaded(
                        diagnostics@,
                        shades_for(*theme, diagnostics@)[i],
                        diagnostics@.len(),
                    ),
                ),
    {
        if diagnostics.len() == 0 {
            proof {
                assert(overlays@.take(overlays@.len() as int) =~= overlays@);
            }
            return ;
        }
        let order: Vec<Shade> = vec![
            Shade::Default,
            Shade::Unnecessary,
            Shade::Deprecated,
            Shade::Info,
            Shade::Hint,
            Shade::Warning,
            Shade::Error,
        ];
        let ghost before = overlays@;
        let ghost count = before.len() as int;
        let mut n: usize = 0;
        proof {
            assert(order@ =~= shades());
            assert(overlays@.take(count) =~= before);
        }
        while n < order.len()
            invariant
                n <= order@.len(),
                order@ == shades(),
                count == before.len(),
                overlays@.len() == count + shades_drawn(*theme, n as nat).len(),
                overlays@.take(count) == before,
                forall|i: int|
                    0 <= i < shades_drawn(*theme, n as nat).len() ==> drawn_as(
                        #[trigger] overlays@[count + i],
                        shade_scope(*theme, shades_drawn(*theme, n as nat)[i])->0,
                        shaded(
                            diagnostics@,
                            shades_drawn(*theme, n as nat)[i],
                            diagnostics@.len(),
                        ),
                    ),
            decreases order@.len() - n,
        {
            let shade: Shade = order[n];
            let ghost so_far = overlays@;
            let ghost drawn = shades_drawn(*theme, n as nat);
            if let Some(highlight) = find_shade(theme, shade) {
                let ranges: Vec<Stretch> = shaded_ranges(diagnostics, shade);
                overlays.push(Overlay::Homogeneous { highlight, ranges });
                proof {
                    assert(overlays@.take(count) =~= so_far.take(count));
                    assert forall|i: int|
                        0 <= i < shades_drawn(*theme, (n + 1) as nat).len() implies drawn_as(
                        #[trigger] overlays@[count + i],
                        shade_scope(*theme, shades_drawn(*theme, (n + 1) as nat)[i])->0,
                        shaded(
                            diagnostics@,
                            shades_drawn(*theme, (n + 1) as nat)[i],
                            diagnostics@.len(),
                        ),
                    ) by {
                        if i < drawn.len() {
                            assert(overlays@[count + i] == so_far[count + i]);
                            assert(drawn_as(
                                so_far[count + i],
                                shade_scope(*theme, drawn[i])->0,
                                shaded(diagnostics@, drawn[i], diagnostics@.len()),
                            ));
                        }
                    }
                }
            }
            n = n + 1;
        }
    }
}

/// Whether a place is in one of the stretches.
pub open spec fn in_some(ranges: Seq<Stretch>, at: int) -> bool {
    exists|i: int| 0 <= i < ranges.len() && (#[trigger] ranges[i]).0 <= at < ranges[i].1
}

/// Stretches that are apart, in the order of the text, none starting behind a place.
pub open spec fn apart(ranges: Seq<Stretch>, at: int) -> bool {
    &&& forall|i: int| 0 <= i < ranges.len() ==> (#[trigger] ranges[i]).0 <= ranges[i].1
    &&& forall|i: int, j: int|
        0 <= i < j < ranges.len() ==> (#[trigger] ranges[i]).1 < (#[trigger] ranges[j]).0
    &&& ranges.len() > 0 ==> ranges.last().0 <= at
}

proof fn lemma_merged(before: Seq<Stretch>, range: Stretch, at: int)
    requires
        apart(before, range.0 as int),
        range.0 <= range.1,
    ensures
        apart(merged_with(before, range), range.0 as int),
        in_some(merged_with(before, range), at) == (in_some(before, at) || range.0 <= at < range.1),
{
    let after = merged_with(before, range);
    let here = range.0 <= at < range.1;
    if before.len() > 0 && range.0 <= before.last().1 {
        let k = before.len() - 1;
        let last = before[k];
        assert(after.len() == before.len());
        assert forall|i: int| 0 <= i < k implies after[i] == before[i] by {}
        if in_some(before, at) {
            let i = choose|i: int|
                0 <= i < before.len() && (#[trigger] before[i]).0 <= at < before[i].1;
            assert(after[i].0 <= at < after[i].1);
        }
        if here {
            assert(after[k].0 <= at < after[k].1);
        }
        if in_some(after, at) {
            let i = choose|i: int|
                0 <= i < after.len() && (#[trigger] after[i]).0 <= at < after[i].1;
            if i < k {
                assert(before[i].0 <= at < before[i].1);
            } else if at < last.1 {
                assert(before[k].0 <= at < before[k].1);
            }
        }
    } else {
        let k = before.len() as int;
        if in_some(before, at) {
            let i = choose|i: int|
                0 <= i < before.len() && (#[trigger] before[i]).0 <= at < before[i].1;
            assert(after[i] == before[i]);
        }
        if here {
            assert(after[k] == range);
        }
        if in_some(after, at) {
            let i = choose|i: int|
                0 <= i < after.len() && (#[trigger] after[i]).0 <= at < after[i].1;
            if i < k {
                assert(before[i] == after[i]);
            }
        }
    }
}

proof fn lemma_merged_times(before: Seq<Stretch>, range: Stretch, count: nat, at: int)
    requires
        apart(before, range.0 as int),
        range.0 <= range.1,
    ensures
        apart(merged_times(before, range, count), range.0 as int),
        in_some(merged_times(before, range, count), at) == (in_some(before, at) || (count > 0
            && range.0 <= at < range.1)),
    decreases count,
{
    if count > 0 {
        lemma_merged_times(before, range, (count - 1) as nat, at);
        lemma_merged(merged_times(before, range, (count - 1) as nat), range, at);
    }
}

/// Diagnostics in the order they start in.
pub open spec fn diagnostics_in_order(diagnostics: Seq<Diagnostic>) -> bool {
    &&& forall|i: int|
        0 <= i < diagnostics.len() ==> (#[trigger] diagnostics[i]).range.0 <= diagnostics[i].range.1
    &&& forall|i: int, j: int|
        0 <= i < j < diagnostics.len() ==> (#[trigger] diagnostics[i]).range.0 <= (
        #[trigger] diagnostics[j]).range.0
}

/// Whether one of the first `n` diagnostics marks a place in a shade.
pub open spec fn marks_place(diagnostics: Seq<Diagnostic>, shade: Shade, n: nat, at: int) -> bool {
    exists|i: int|
        0 <= i < n && times(#[trigger] diagnostics[i], shade) > 0 && diagnostics[i].range.0 <= at
            < diagnostics[i].range.1
}

/// Diagnostics that come in order mark, in each shade, the places they stand at and no
/// others, in stretches that are apart.
pub proof fn diagnostics_mark_where_they_stand(
    diagnostics: Seq<Diagnostic>,
    shade: Shade,
    n: nat,
    at: int,
)
    requires
        diagnostics_in_order(diagnostics),
        n <= diagnostics.len(),
    ensures
        in_some(shaded(diagnostics, shade, n), at) == marks_place(diagnostics, shade, n, at),
        n > 0 ==> apart(shaded(diagnostics, shade, n), diagnostics[n - 1].range.0 as int),
    decreases n,
{
    if n > 0 {
        let m = (n - 1) as nat;
        diagnostics_mark_where_they_stand(diagnostics, shade, m, at);
        let before = shaded(diagnostics, shade, m);
        let diagnostic = diagnostics[n - 1];
        assert(apart(before, diagnostic.range.0 as int));
        lemma_merged_times(before, diagnostic.range, times(diagnostic, shade), at);
        if marks_place(diagnostics, shade, m, at) {
            let i = choose|i: int|
                0 <= i < m && times(#[trigger] diagnostics[i], shade) > 0 && diagnostics[i].range.0
                    <= at < diagnostics[i].range.1;
            assert(times(diagnostics[i], shade) > 0);
        }
    }
}

/// Whether one of the first `n` links is at a place.
pub open spec fn link_at(links: Seq<Stretch>, n: nat, at: int) -> bool {
    exists|i: int| 0 <= i < n && (#[trigger] links[i]).0 <= at < links[i].1
}

/// Links that come in order are marked where they stand and nowhere else, in stretches that
/// are apart.
pub proof fn links_are_marked_where_they_stand(links: Seq<Stretch>, n: nat, at: int)
    requires
        forall|i: int, j: int|
            0 <= i < j < links.len() ==> (#[trigger] links[i]).0 <= (#[trigger] links[j]).0,
        n <= links.len(),
    ensures
        in_some(links_merged(links, n), at) == link_at(links, n, at),
        n > 0 ==> apart(links_merged(links, n), links[n - 1].0 as int),
    decreases n,
{
    if n > 0 {
        let m = (n - 1) as nat;
        links_are_marked_where_they_stand(links, m, at);
        let before = links_merged(links, m);
        let link = links[n - 1];
        assert(apart(before, link.0 as int));
        if link.0 < link.1 {
            lemma_merged(before, link, at);
        }
        if link_at(links, m, at) {
            let i = choose|i: int| 0 <= i < m && (#[trigger] links[i]).0 <= at < links[i].1;
            assert(links[i].0 <= at < links[i].1);
        }
    }
}

// ---------------------------------------------------------------------------------------
// Links and what a server marks
// ---------------------------------------------------------------------------------------

impl EditorView {
    /// What a server marks of what the caret is on, in the first scope there is for it.
    pub fn doc_document_highlights(ranges: Option<&Vec<Stretch>>, theme: &Theme) -> (r: Option<Overlay>)
        ensures
            ({
                let scope = or(
                    theme.scope("ui.highlight"@),
                    or(theme.scope("ui.selection"@), theme.scope("ui.cursor"@)),
                );
                if ranges is None || ranges->0@.len() == 0 || scope is None {
                    r is None
                } else {
                    r is Some && drawn_as(r->0, scope->0, ranges->0@)
                }
            }),
    {
        let ranges: &Vec<Stretch> = match ranges {
            Some(ranges) => ranges,
            None => {
                return None;
            },
        };
        if ranges.len() == 0 {
            return None;
        }
        let own: Option<Highlight> = theme.find_highlight_exact("ui.highlight");
        let selection: Option<Highlight> = theme.find_highlight_exact("ui.selection");
        let cursor: Option<Highlight> = theme.find_highlight_exact("ui.cursor");
        let highlight: Highlight = match (own, selection, cursor) {
            (Some(highlight), _, _) => highlight,
            (None, Some(highlight), _) => highlight,
            (None, None, Some(highlight)) => highlight,
            _ => {
                return None;
            },
        };
        let ranges: Vec<Stretch> = copy_ranges(ranges);
        Some(Overlay::Homogeneous { highlight, ranges })
    }
}

fn copy_ranges(ranges: &Vec<Stretch>) -> (r: Vec<Stretch>)
    ensures
        r@ == ranges@,
{
    let mut out: Vec<Stretch> = Vec::new();
    let mut n: usize = 0;
    while n < ranges.len()
        invariant
            n <= ranges@.len(),
            out@ == ranges@.take(n as int),
        decreases ranges@.len() - n,
    {
        out.push(ranges[n]);
        n = n + 1;
        proof {
            assert(out@ =~= ranges@.take(n as int));
        }
    }
    proof {
        assert(out@ =~= ranges@);
    }
    out
}

/// The first `n` links merged; one that holds nothing is none.
pub open spec fn links_merged(links: Seq<Stretch>, n: nat) -> Seq<Stretch>
    decreases n,
{
    if n == 0 {
        Seq::empty()
    } else {
        let before = links_merged(links, (n - 1) as nat);
        if links[n - 1].0 >= links[n - 1].1 {
            before
        } else {
            merged_with(before, links[n - 1])
        }
    }
}

impl EditorView {
    /// The links of a document.
    pub fn doc_document_link_highlights(links: &Vec<Stretch>, theme: &Theme) -> (r: Option<Overlay>)
        ensures
            ({
                let scope = or(theme.scope("markup.link.url"@), theme.scope("markup.link"@));
                let marked = links_merged(links@, links@.len());
                if scope is None || marked.len() == 0 {
                    r is None
                } else {
                    r is Some && drawn_as(r->0, scope->0, marked)
                }
            }),
    {
        let own: Option<Highlight> = theme.find_highlight_exact("markup.link.url");
        let wider: Option<Highlight> = theme.find_highlight_exact("markup.link");
        let highlight: Highlight = match (own, wider) {
            (Some(highlight), _) => highlight,
            (None, Some(highlight)) => highlight,
            _ => {
                return None;
            },
        };
        let mut ranges: Vec<Stretch> = Vec::new();
        let mut n: usize = 0;
        while n < links.len()
            invariant
                n <= links@.len(),
                ranges@ == links_merged(links@, n as nat),
            decreases links@.len() - n,
        {
            let link: Stretch = links[n];
            if link.0 < link.1 {
                merge(&mut ranges, link);
            }
            n = n + 1;
        }
        if ranges.len() == 0 {
            return None;
        }
        Some(Overlay::Homogeneous { highlight, ranges })
    }
}

impl EditorView {
    /// The bracket that matches the one under the caret.
    pub fn highlight_focused_view_elements(at: Option<usize>, theme: &Theme) -> (r: Option<Overlay>)
        requires
            at matches Some(at) ==> at < usize::MAX,
        ensures
            match (theme.scope("ui.cursor.match"@), at) {
                (Some(scope), Some(at)) => r is Some && drawn_as(
                    r->0,
                    scope,
                    seq![(at, (at + 1) as usize)],
                ),
                _ => r is None,
            },
    {
        match (theme.find_highlight_exact("ui.cursor.match"), at) {
            (Some(highlight), Some(at)) => {
                let ranges: Vec<Stretch> = vec![(at, at + 1)];
                proof {
                    assert(ranges@ =~= seq![(at, (at + 1) as usize)]);
                }
                Some(Overlay::Homogeneous { highlight, ranges })
            },
            _ => None,
        }
    }
}

/// The first `n` tabstops' stretches, one after the other.
pub open spec fn tabstop_ranges(tabstops: Seq<Seq<Stretch>>, n: nat) -> Seq<Stretch>
    decreases n,
{
    if n == 0 {
        Seq::empty()
    } else {
        tabstop_ranges(tabstops, (n - 1) as nat) + tabstops[n - 1]
    }
}

impl EditorView {
    /// The places a snippet stops at, while one is being filled in.
    pub fn tabstop_highlights(tabstops: Option<&Vec<Vec<Stretch>>>, theme: &Theme) -> (r: Option<
        Overlay,
    >)
        ensures
            match (tabstops, theme.scope("tabstop"@)) {
                (Some(stops), Some(scope)) => r is Some && drawn_as(
                    r->0,
                    scope,
                    tabstop_ranges(
                        stops@.map_values(|ranges: Vec<Stretch>| ranges@),
                        stops@.len(),
                    ),
                ),
                _ => r is None,
            },
    {
        match (tabstops, theme.find_highlight_exact("tabstop")) {
            (Some(stops), Some(highlight)) => {
                let ghost all = stops@.map_values(|ranges: Vec<Stretch>| ranges@);
                let mut ranges: Vec<Stretch> = Vec::new();
                let mut n: usize = 0;
                while n < stops.len()
                    invariant
                        n <= stops@.len(),
                        all == stops@.map_values(|ranges: Vec<Stretch>| ranges@),
                        ranges@ == tabstop_ranges(all, n as nat),
                    decreases stops@.len() - n,
                {
                    let mut own: Vec<Stretch> = copy_ranges(&stops[n]);
                    ranges.append(&mut own);
                    n = n + 1;
                }
                Some(Overlay::Homogeneous { highlight, ranges })
            },
            _ => None,
        }
    }
}

// ---------------------------------------------------------------------------------------
// Selections
// ---------------------------------------------------------------------------------------

/// A selection as it stands in the text, with what the text makes of it.
#[derive(Debug, Clone, Copy, PartialEq, Eq)]
pub struct Selected {
    pub anchor: usize,
    pub head: usize,
    /// The same made one character wide where it was none.
    pub wide: (usize, usize),
    /// Where the character before the head of that starts.
    pub before: usize,
    /// Where the character at the head of that ends.
    pub after: usize,
}

/// The scopes a selection and its cursor are drawn in.
#[derive(Debug, Clone, Copy, PartialEq, Eq, Structural)]
pub struct Scopes {
    pub cursor: Highlight,
    pub selection: Highlight,
}

/// What decides how selections are drawn.
#[derive(Debug, Clone, Copy, PartialEq, Eq, Structural)]
pub struct Cursors {
    pub mode: Mode,
    /// Whether the cursor of the mode is a block.
    pub block: bool,
    /// Whether the editor draws the block of the primary selection itself.
    pub drawn: bool,
    /// Whether typing replaces what is selected.
    pub replaces: bool,
}

/// Where a name ends for a mode.
pub open spec fn mode_scope(mode: Mode, primary: bool) -> Seq<char> {
    match (mode, primary) {
        (Mode::Insert, false) => "ui.cursor.insert"@,
        (Mode::Select, false) => "ui.cursor.select"@,
        (Mode::Normal, false) => "ui.cursor.normal"@,
        (Mode::Insert, true) => "ui.cursor.primary.insert"@,
        (Mode::Select, true) => "ui.cursor.primary.select"@,
        (Mode::Normal, true) => "ui.cursor.primary.normal"@,
    }
}

/// The scopes of a selection, in a theme that has one for selections. `primary_cursor` is
/// what the theme has for `ui.cursor.primary` or the nearest scope above it.
pub open spec fn scopes_for(
    theme: Theme,
    primary_cursor: Option<Highlight>,
    mode: Mode,
    primary: bool,
) -> Scopes {
    let selection = theme.scope("ui.selection"@)->0;
    let cursor = or(theme.scope("ui.cursor"@), Some(selection));
    if primary {
        Scopes {
            cursor: or(theme.scope(mode_scope(mode, true)), or(primary_cursor, cursor))->0,
            selection: or(theme.scope("ui.selection.primary"@), Some(selection))->0,
        }
    } else {
        Scopes { cursor: or(theme.scope(mode_scope(mode, false)), cursor)->0, selection }
    }
}

fn pick(a: Option<Highlight>, b: Highlight) -> (r: Highlight)
    ensures
        Some(r) == or(a, Some(b)),
{
    match a {
        Some(a) => a,
        None => b,
    }
}

/// The scopes of a selection.
pub fn selection_scopes(
    theme: &Theme,
    primary_cursor: Option<Highlight>,
    mode: Mode,
    primary: bool,
) -> (r: Scopes)
    requires
        theme.scope("ui.selection"@) is Some,
    ensures
        r == scopes_for(*theme, primary_cursor, mode, primary),
{
    let selection: Highlight = match theme.find_highlight_exact("ui.selection") {
        Some(selection) => selection,
        None => 0,
    };
    let cursor: Highlight = pick(theme.find_highlight_exact("ui.cursor"), selection);
    let own: Option<Highlight> = match (mode, primary) {
        (Mode::Insert, false) => theme.find_highlight_exact("ui.cursor.insert"),
        (Mode::Select, false) => theme.find_highlight_exact("ui.cursor.select"),
        (Mode::Normal, false) => theme.find_highlight_exact("ui.cursor.normal"),
        (Mode::Insert, true) => theme.find_highlight_exact("ui.cursor.primary.insert"),
        (Mode::Select, true) => theme.find_highlight_exact("ui.cursor.primary.select"),
        (Mode::Normal, true) => theme.find_highlight_exact("ui.cursor.primary.normal"),
    };
    if primary {
        Scopes {
            cursor: pick(own, pick(primary_cursor, cursor)),
            selection: pick(theme.find_highlight_exact("ui.selection.primary"), selection),
        }
    } else {
        Scopes { cursor: pick(own, cursor), selection }
    }
}

/// Whether the cursor of a selection is drawn by the editor: the terminal draws the primary
/// one where it is no block, or where the terminal is not in focus.
pub open spec fn draws_cursor(primary: bool, cursors: Cursors) -> bool {
    !primary || (cursors.block && cursors.drawn)
}

/// What is drawn of a selection in a text of `len` characters. A cursor that is no block
/// looks as if it stood before the character, so the selection takes that one in, except
/// where typing would put text beside it.
pub open spec fn spans_for(
    range: Selected,
    len: usize,
    primary: bool,
    scopes: Scopes,
    cursors: Cursors,
) -> Seq<(Highlight, Stretch)> {
    let drawn = draws_cursor(primary, cursors);
    let anchor = range.wide.0;
    let head = range.wide.1;
    let insert = cursors.mode == Mode::Insert;
    if range.head == range.anchor && range.head == len {
        // The cursor at the end of the text.
        if drawn {
            seq![(scopes.cursor, (range.head, (range.head + 1) as usize))]
        } else {
            Seq::empty()
        }
    } else if head > anchor {
        let end = if primary && !cursors.block && (!insert || cursors.replaces) {
            head
        } else {
            range.before
        };
        let selection = seq![(scopes.selection, (anchor, end))];
        if drawn {
            selection.push((scopes.cursor, (range.before, head)))
        } else {
            selection
        }
    } else {
        let start = if primary && !cursors.block && !(insert && !cursors.replaces && range.after
            == anchor) {
            head
        } else {
            range.after
        };
        let selection = seq![(scopes.selection, (start, anchor))];
        if drawn {
            seq![(scopes.cursor, (head, range.after))] + selection
        } else {
            selection
        }
    }
}

/// What is drawn of the first `n` selections.
pub open spec fn selection_spans(
    ranges: Seq<Selected>,
    primary: int,
    len: usize,
    main: Scopes,
    other: Scopes,
    cursors: Cursors,
    n: nat,
) -> Seq<(Highlight, Stretch)>
    decreases n,
{
    if n == 0 {
        Seq::empty()
    } else {
        selection_spans(ranges, primary, len, main, other, cursors, (n - 1) as nat) + spans_for(
            ranges[n - 1],
            len,
            n - 1 == primary,
            if n - 1 == primary {
                main
            } else {
                other
            },
            cursors,
        )
    }
}

impl EditorView {
    /// What is drawn of the selections of a view in a text of `len` characters.
    pub fn doc_selection_highlights(
        ranges: &Vec<Selected>,
        primary: usize,
        len: usize,
        theme: &Theme,
        primary_cursor: Option<Highlight>,
        cursors: Cursors,
    ) -> (r: Vec<(Highlight, Stretch)>)
        requires
            theme.scope("ui.selection"@) is Some,
            len < usize::MAX,
        ensures
            r@ == selection_spans(
                ranges@,
                primary as int,
                len,
                scopes_for(*theme, primary_cursor, cursors.mode, true),
                scopes_for(*theme, primary_cursor, cursors.mode, false),
                cursors,
                ranges@.len(),
            ),
    {
        let main: Scopes = selection_scopes(theme, primary_cursor, cursors.mode, true);
        let other: Scopes = selection_scopes(theme, primary_cursor, cursors.mode, false);
        let mut spans: Vec<(Highlight, Stretch)> = Vec::new();
        let mut n: usize = 0;
        while n < ranges.len()
            invariant
                n <= ranges@.len(),
                len < usize::MAX,
                spans@ == selection_spans(
                    ranges@,
                    primary as int,
                    len,
                    main,
                    other,
                    cursors,
                    n as nat,
                ),
            decreases ranges@.len() - n,
        {
            let is_primary: bool = n == primary;
            let scopes: Scopes = if is_primary {
                main
            } else {
                other
            };
            let ghost before = spans@;
            add_spans(&mut spans, ranges[n], len, is_primary, scopes, cursors);
            n = n + 1;
        }
        spans
    }
}

fn add_spans(
    spans: &mut Vec<(Highlight, Stretch)>,
    range: Selected,
    len: usize,
    primary: bool,
    scopes: Scopes,
    cursors: Cursors,
)
    requires
        len < usize::MAX,
    ensures
        final(spans)@ == old(spans)@ + spans_for(range, len, primary, scopes, cursors),
{
    let drawn: bool = !primary || (cursors.block && cursors.drawn);
    let insert: bool = cursors.mode == Mode::Insert;
    let (anchor, head): (usize, usize) = range.wide;
    if range.head == range.anchor && range.head == len {
        if drawn {
            spans.push((scopes.cursor, (range.head, range.head + 1)));
        }
    } else if head > anchor {
        let end: usize = if primary && !cursors.block && (!insert || cursors.replaces) {
            head
        } else {
            range.before
        };
        spans.push((scopes.selection, (anchor, end)));
        if drawn {
            spans.push((scopes.cursor, (range.before, head)));
        }
    } else {
        if drawn {
            spans.push((scopes.cursor, (head, range.after)));
        }
        let start: usize = if primary && !cursors.block && !(insert && !cursors.replaces
            && range.after == anchor) {
            head
        } else {
            range.after
        };
        spans.push((scopes.selection, (start, anchor)));
    }
    proof {
        assert(spans@ =~= old(spans)@ + spans_for(range, len, primary, scopes, cursors));
    }
}

// ---------------------------------------------------------------------------------------
// Lines and columns
// ---------------------------------------------------------------------------------------

impl EditorView {
    /// Where the lines on screen start and end in the text, for `height` rows from the line `row`
    /// on. `lines` says where each line starts, and last where the text ends.
    pub fn viewport_byte_range(lines: &Vec<usize>, row: usize, height: u16) -> (r: Stretch)
        requires
            lines@.len() > 1,
        ensures
            ({
                let last = lines@.len() - 2;
                let last_visible = min(less(row + height, 1), last);
                r == (lines@[min(row as int, last)], lines@[last_visible + 1])
            }),
    {
        let last: usize = lines.len() - 2;
        let visible: usize = row.saturating_add(height as usize).saturating_sub(1);
        let visible: usize = if visible < last {
            visible
        } else {
            last
        };
        let start: usize = if row < last {
            row
        } else {
            last
        };
        (lines[start], lines[visible + 1])
    }
}

/// The lines of a review that are looked at for what they mark: those on screen and one more,
/// as far as there are any.
pub fn review_lines(first: usize, height: u16, lines: usize) -> (r: (usize, usize))
    ensures
        r.0 == first,
        r.1 == min(first + height + 1, lines as int),
{
    let end: usize = first.saturating_add(height as usize).saturating_add(1);
    (
        first,
        if end < lines {
            end
        } else {
            lines
        },
    )
}

/// The rulers on screen among the first `n`, each a column wide: a view that is scrolled to
/// the side has them closer.
pub open spec fn rulers_shown(rulers: Seq<u16>, offset: int, viewport: Rect, n: nat) -> Seq<Rect>
    decreases n,
{
    if n == 0 {
        Seq::empty()
    } else {
        let before = rulers_shown(rulers, offset, viewport, (n - 1) as nat);
        let at = rulers[n - 1] - 1 - offset;
        if 0 <= at < viewport.width {
            before.push(Rect { width: 1, ..viewport.spec_clip_left(at) })
        } else {
            before
        }
    }
}

/// Where the rulers are drawn: a language's own in place of the editor's.
pub fn ruler_areas(own: Option<&Vec<u16>>, rulers: &Vec<u16>, offset: u16, viewport: Rect) -> (r:
    Vec<Rect>)
    ensures
        ({
            let used = match own {
                Some(own) => own@,
                None => rulers@,
            };
            r@ == rulers_shown(used, offset as int, viewport, used.len())
        }),
{
    let used: &Vec<u16> = match own {
        Some(own) => own,
        None => rulers,
    };
    let mut out: Vec<Rect> = Vec::new();
    let mut n: usize = 0;
    while n < used.len()
        invariant
            n <= used@.len(),
            out@ == rulers_shown(used@, offset as int, viewport, n as nat),
        decreases used@.len() - n,
    {
        let ruler: u16 = used[n];
        if ruler > offset {
            let at: u16 = ruler - 1 - offset;
            if at < viewport.width {
                let line: Rect = Rect { width: 1, ..viewport.clip_left(at) };
                out.push(line);
            }
        }
        n = n + 1;
    }
    out
}

/// How a line is marked for the cursors on it.
#[derive(Debug, Clone, Copy, PartialEq, Eq, Structural)]
pub enum CursorLine {
    Primary,
    Secondary,
    Plain,
}

impl EditorView {
    /// How a line is marked: for the primary cursor before any other.
    pub fn cursorline(line: usize, primary: usize, lines: &Vec<usize>) -> (r: CursorLine)
        ensures
            r == if line == primary {
                CursorLine::Primary
            } else if lines@.contains(line) {
                CursorLine::Secondary
            } else {
                CursorLine::Plain
            },
    {
        if line == primary {
            return CursorLine::Primary;
        }
        let mut n: usize = 0;
        while n < lines.len()
            invariant
                n <= lines@.len(),
                line != primary,
                forall|i: int| 0 <= i < n ==> lines@[i] != line,
            decreases lines@.len() - n,
        {
            if lines[n] == line {
                return CursorLine::Secondary;
            }
            n = n + 1;
        }
        CursorLine::Plain
    }
}

/// The column of the screen a cursor is in, from top to bottom of its view; none where the
/// cursor is to the side of what is on screen. `inner` is where the text of the view is, and
/// `area` the view.
pub fn cursor_column(column: usize, offset: usize, inner: Rect, area: Rect) -> (r: Option<Rect>)
    requires
        inner.fits(),
    ensures
        r == if offset <= column && column - offset < inner.width {
            Some(
                Rect {
                    x: (inner.x + (column - offset)) as u16,
                    y: area.y,
                    width: 1,
                    height: area.height,
                },
            )
        } else {
            None
        },
{
    if column < offset || column - offset >= inner.width as usize {
        return None;
    }
    let at: u16 = (column - offset) as u16;
    Some(Rect::new(inner.x + at, area.y, 1, area.height))
}

/// How a row of the gutter is drawn.
#[derive(Debug, Clone, Copy, PartialEq, Eq, Structural)]
pub enum GutterShade {
    Plain,
    Selected,
    Virtual,
    SelectedVirtual,
}

/// How a row of the gutter is drawn, told apart for a line with a cursor on it, and for the rows of a
/// wrapped line behind its first.
pub fn gutter_shade(selected: bool, first_row: bool) -> (r: GutterShade)
    ensures
        r == match (selected, first_row) {
            (false, true) => GutterShade::Plain,
            (true, true) => GutterShade::Selected,
            (false, false) => GutterShade::Virtual,
            (true, false) => GutterShade::SelectedVirtual,
        },
{
    match (selected, first_row) {
        (false, true) => GutterShade::Plain,
        (true, true) => GutterShade::Selected,
        (false, false) => GutterShade::Virtual,
        (true, false) => GutterShade::SelectedVirtual,
    }
}

/// The columns the first `n` gutters take.
pub open spec fn gutter_columns(widths: Seq<u16>, n: nat) -> nat
    decreases n,
{
    if n == 0 {
        0
    } else {
        gutter_columns(widths, (n - 1) as nat) + widths[n - 1] as nat
    }
}

/// Where each gutter starts, from a column on: one beside the other.
pub fn gutter_places(widths: &Vec<u16>, x: u16) -> (r: Vec<u16>)
    ensures
        r@.len() == widths@.len(),
        forall|i: int|
            0 <= i < r@.len() ==> #[trigger] r@[i] == capped_cell(
                x + gutter_columns(widths@, i as nat),
            ),
{
    let mut out: Vec<u16> = Vec::new();
    let mut at: u16 = x;
    let mut n: usize = 0;
    while n < widths.len()
        invariant
            n <= widths@.len(),
            out@.len() == n,
            at == capped_cell(x + gutter_columns(widths@, n as nat)),
            forall|i: int|
                0 <= i < n ==> #[trigger] out@[i] == capped_cell(
                    x + gutter_columns(widths@, i as nat),
                ),
        decreases widths@.len() - n,
    {
        out.push(at);
        at = at.saturating_add(widths[n]);
        n = n + 1;
    }
    out
}

} // verus!
