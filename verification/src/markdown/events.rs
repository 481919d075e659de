//! Markdown as the parser reads it: what starts, what ends and what stands between.

use crate::markdown::table::Align;
use pulldown_cmark as cmark;
use vstd::prelude::*;

verus! {

#[derive(Debug, Clone, Copy, PartialEq, Eq, Structural)]
pub enum Level {
    H1,
    H2,
    H3,
    H4,
    H5,
    H6,
}

/// The kind of a GitHub alert, `> [!NOTE]`.
#[derive(Debug, Clone, Copy, PartialEq, Eq, Structural)]
pub enum Alert {
    Note,
    Tip,
    Important,
    Warning,
    Caution,
}

#[derive(Debug, PartialEq)]
pub enum MarkdownTag {
    Paragraph,
    Heading(Level),
    BlockQuote(Option<Alert>),
    /// A code block; a fenced one with its language.
    CodeBlock(Option<String>),
    HtmlBlock,
    /// A list; an ordered one with the number of its first item.
    List(Option<u64>),
    Item,
    FootnoteDefinition(String),
    Table(Vec<Align>),
    TableHead,
    TableRow,
    TableCell,
    Emphasis,
    Strong,
    Strikethrough,
    /// A link, and where it goes.
    Link(String),
    Image,
    /// A tag the preview shows nothing of.
    Other,
}

#[derive(Debug, Clone, Copy, PartialEq, Eq, Structural)]
pub enum MarkdownEnd {
    Paragraph,
    Heading(Level),
    BlockQuote,
    CodeBlock,
    HtmlBlock,
    List,
    Item,
    FootnoteDefinition,
    Table,
    TableHead,
    TableRow,
    TableCell,
    Emphasis,
    Strong,
    Strikethrough,
    Link,
    Image,
    Other,
}

#[derive(Debug, PartialEq)]
pub enum MarkdownEvent {
    Start(MarkdownTag),
    End(MarkdownEnd),
    Text(String),
    Code(String),
    InlineMath(String),
    DisplayMath(String),
    Html(String),
    InlineHtml(String),
    FootnoteReference(String),
    SoftBreak,
    HardBreak,
    Rule,
    TaskListMarker(bool),
}

#[verifier::ext_equal]
pub enum MarkdownTagView {
    Paragraph,
    Heading(Level),
    BlockQuote(Option<Alert>),
    CodeBlock(Option<Seq<char>>),
    HtmlBlock,
    List(Option<u64>),
    Item,
    FootnoteDefinition(Seq<char>),
    Table(Seq<Align>),
    TableHead,
    TableRow,
    TableCell,
    Emphasis,
    Strong,
    Strikethrough,
    Link(Seq<char>),
    Image,
    Other,
}

#[verifier::ext_equal]
pub enum MarkdownEventView {
    Start(MarkdownTagView),
    End(MarkdownEnd),
    Text(Seq<char>),
    Code(Seq<char>),
    InlineMath(Seq<char>),
    DisplayMath(Seq<char>),
    Html(Seq<char>),
    InlineHtml(Seq<char>),
    FootnoteReference(Seq<char>),
    SoftBreak,
    HardBreak,
    Rule,
    TaskListMarker(bool),
}

impl DeepView for MarkdownTag {
    type V = MarkdownTagView;

    open spec fn deep_view(&self) -> MarkdownTagView {
        match self {
            MarkdownTag::Paragraph => MarkdownTagView::Paragraph,
            MarkdownTag::Heading(level) => MarkdownTagView::Heading(*level),
            MarkdownTag::BlockQuote(kind) => MarkdownTagView::BlockQuote(*kind),
            MarkdownTag::CodeBlock(language) => MarkdownTagView::CodeBlock(language.deep_view()),
            MarkdownTag::HtmlBlock => MarkdownTagView::HtmlBlock,
            MarkdownTag::List(start) => MarkdownTagView::List(*start),
            MarkdownTag::Item => MarkdownTagView::Item,
            MarkdownTag::FootnoteDefinition(label) => MarkdownTagView::FootnoteDefinition(label@),
            MarkdownTag::Table(alignments) => MarkdownTagView::Table(alignments@),
            MarkdownTag::TableHead => MarkdownTagView::TableHead,
            MarkdownTag::TableRow => MarkdownTagView::TableRow,
            MarkdownTag::TableCell => MarkdownTagView::TableCell,
            MarkdownTag::Emphasis => MarkdownTagView::Emphasis,
            MarkdownTag::Strong => MarkdownTagView::Strong,
            MarkdownTag::Strikethrough => MarkdownTagView::Strikethrough,
            MarkdownTag::Link(target) => MarkdownTagView::Link(target@),
            MarkdownTag::Image => MarkdownTagView::Image,
            MarkdownTag::Other => MarkdownTagView::Other,
        }
    }
}

impl DeepView for MarkdownEvent {
    type V = MarkdownEventView;

    open spec fn deep_view(&self) -> MarkdownEventView {
        match self {
            MarkdownEvent::Start(tag) => MarkdownEventView::Start(tag.deep_view()),
            MarkdownEvent::End(tag) => MarkdownEventView::End(*tag),
            MarkdownEvent::Text(text) => MarkdownEventView::Text(text@),
            MarkdownEvent::Code(text) => MarkdownEventView::Code(text@),
            MarkdownEvent::InlineMath(text) => MarkdownEventView::InlineMath(text@),
            MarkdownEvent::DisplayMath(text) => MarkdownEventView::DisplayMath(text@),
            MarkdownEvent::Html(html) => MarkdownEventView::Html(html@),
            MarkdownEvent::InlineHtml(html) => MarkdownEventView::InlineHtml(html@),
            MarkdownEvent::FootnoteReference(label) => MarkdownEventView::FootnoteReference(label@),
            MarkdownEvent::SoftBreak => MarkdownEventView::SoftBreak,
            MarkdownEvent::HardBreak => MarkdownEventView::HardBreak,
            MarkdownEvent::Rule => MarkdownEventView::Rule,
            MarkdownEvent::TaskListMarker(checked) => MarkdownEventView::TaskListMarker(*checked),
        }
    }
}

// ---------------------------------------------------------------------------------------
// The parser
// ---------------------------------------------------------------------------------------

/// What `pulldown_cmark` reads in a text, each event with the byte it starts at: tables,
/// strikethrough, task lists and GitHub's alerts are on.
pub uninterp spec fn markdown_of(text: Seq<char>) -> Seq<(MarkdownEventView, usize)>;

#[verifier::external_type_specification]
#[verifier::external_body]
pub struct ExHeadingLevel(pulldown_cmark::HeadingLevel);

#[verifier::external_type_specification]
#[verifier::external_body]
pub struct ExBlockQuoteKind(pulldown_cmark::BlockQuoteKind);

#[verifier::external_type_specification]
#[verifier::external_body]
pub struct ExAlignment(pulldown_cmark::Alignment);

#[verifier::external_type_specification]
#[verifier::external_body]
pub struct ExTag<'a>(pulldown_cmark::Tag<'a>);

#[verifier::external_type_specification]
#[verifier::external_body]
pub struct ExCodeBlockKind<'a>(pulldown_cmark::CodeBlockKind<'a>);

#[verifier::external_type_specification]
#[verifier::external_body]
pub struct ExTagEnd(pulldown_cmark::TagEnd);

#[verifier::external_type_specification]
#[verifier::external_body]
pub struct ExEvent<'a>(pulldown_cmark::Event<'a>);

/// `pulldown_cmark::HeadingLevel`, level for level.
#[verifier::external_body]
fn level_of(level: cmark::HeadingLevel) -> Level {
    match level {
        cmark::HeadingLevel::H1 => Level::H1,
        cmark::HeadingLevel::H2 => Level::H2,
        cmark::HeadingLevel::H3 => Level::H3,
        cmark::HeadingLevel::H4 => Level::H4,
        cmark::HeadingLevel::H5 => Level::H5,
        cmark::HeadingLevel::H6 => Level::H6,
    }
}

/// `pulldown_cmark::BlockQuoteKind`, kind for kind.
#[verifier::external_body]
fn kind_of(kind: cmark::BlockQuoteKind) -> Alert {
    match kind {
        cmark::BlockQuoteKind::Note => Alert::Note,
        cmark::BlockQuoteKind::Tip => Alert::Tip,
        cmark::BlockQuoteKind::Important => Alert::Important,
        cmark::BlockQuoteKind::Warning => Alert::Warning,
        cmark::BlockQuoteKind::Caution => Alert::Caution,
    }
}

/// `pulldown_cmark::Alignment`, alignment for alignment.
#[verifier::external_body]
fn alignment_of(alignment: cmark::Alignment) -> Align {
    match alignment {
        cmark::Alignment::None => Align::Unset,
        cmark::Alignment::Left => Align::Left,
        cmark::Alignment::Center => Align::Center,
        cmark::Alignment::Right => Align::Right,
    }
}

/// `pulldown_cmark::CodeBlockKind`: the name a fence is given, none for an indented block.
#[verifier::external_body]
fn fence_of(kind: cmark::CodeBlockKind<'_>) -> Option<String> {
    match kind {
        cmark::CodeBlockKind::Fenced(name) => Some(name.into_string()),
        cmark::CodeBlockKind::Indented => None,
    }
}

/// The tags of `pulldown_cmark::Tag` that carry something, each with what the preview
/// shows of it; any other tag is handed back.
#[verifier::external_body]
fn full_tag(tag: cmark::Tag<'_>) -> Result<MarkdownTag, cmark::Tag<'_>> {
    match tag {
        cmark::Tag::Heading { level, .. } => Ok(MarkdownTag::Heading(level_of(level))),
        cmark::Tag::BlockQuote(kind) => Ok(MarkdownTag::BlockQuote(kind.map(kind_of))),
        cmark::Tag::CodeBlock(kind) => Ok(MarkdownTag::CodeBlock(fence_of(kind))),
        cmark::Tag::List(start) => Ok(MarkdownTag::List(start)),
        cmark::Tag::FootnoteDefinition(label) => Ok(MarkdownTag::FootnoteDefinition(label.into_string())),
        cmark::Tag::Table(all) => Ok(MarkdownTag::Table(all.into_iter().map(alignment_of).collect())),
        cmark::Tag::Link { dest_url, .. } => Ok(MarkdownTag::Link(dest_url.into_string())),
        other => Err(other),
    }
}

/// The tags of `pulldown_cmark::Tag` that carry nothing, tag for tag. The last arm takes
/// those the preview shows nothing of: superscript, subscript, definition lists, metadata.
#[verifier::external_body]
fn bare_tag(tag: cmark::Tag<'_>) -> MarkdownTag {
    match tag {
        cmark::Tag::Paragraph => MarkdownTag::Paragraph,
        cmark::Tag::HtmlBlock => MarkdownTag::HtmlBlock,
        cmark::Tag::Item => MarkdownTag::Item,
        cmark::Tag::TableHead => MarkdownTag::TableHead,
        cmark::Tag::TableRow => MarkdownTag::TableRow,
        cmark::Tag::TableCell => MarkdownTag::TableCell,
        cmark::Tag::Emphasis => MarkdownTag::Emphasis,
        cmark::Tag::Strong => MarkdownTag::Strong,
        cmark::Tag::Strikethrough => MarkdownTag::Strikethrough,
        cmark::Tag::Image { .. } => MarkdownTag::Image,
        _ => MarkdownTag::Other,
    }
}

fn tag_of(tag: cmark::Tag<'_>) -> MarkdownTag {
    match full_tag(tag) {
        Ok(tag) => tag,
        Err(tag) => bare_tag(tag),
    }
}

/// The ends of blocks in `pulldown_cmark::TagEnd`, end for end; any other end is handed
/// back.
#[verifier::external_body]
fn block_end(tag: cmark::TagEnd) -> Result<MarkdownEnd, cmark::TagEnd> {
    match tag {
        cmark::TagEnd::Paragraph => Ok(MarkdownEnd::Paragraph),
        cmark::TagEnd::Heading(level) => Ok(MarkdownEnd::Heading(level_of(level))),
        cmark::TagEnd::BlockQuote(_) => Ok(MarkdownEnd::BlockQuote),
        cmark::TagEnd::CodeBlock => Ok(MarkdownEnd::CodeBlock),
        cmark::TagEnd::HtmlBlock => Ok(MarkdownEnd::HtmlBlock),
        cmark::TagEnd::List(_) => Ok(MarkdownEnd::List),
        cmark::TagEnd::Item => Ok(MarkdownEnd::Item),
        cmark::TagEnd::FootnoteDefinition => Ok(MarkdownEnd::FootnoteDefinition),
        other => Err(other),
    }
}

/// The other ends of `pulldown_cmark::TagEnd`, end for end. The last arm takes those the
/// preview shows nothing of.
#[verifier::external_body]
fn inner_end(tag: cmark::TagEnd) -> MarkdownEnd {
    match tag {
        cmark::TagEnd::Table => MarkdownEnd::Table,
        cmark::TagEnd::TableHead => MarkdownEnd::TableHead,
        cmark::TagEnd::TableRow => MarkdownEnd::TableRow,
        cmark::TagEnd::TableCell => MarkdownEnd::TableCell,
        cmark::TagEnd::Emphasis => MarkdownEnd::Emphasis,
        cmark::TagEnd::Strong => MarkdownEnd::Strong,
        cmark::TagEnd::Strikethrough => MarkdownEnd::Strikethrough,
        cmark::TagEnd::Link => MarkdownEnd::Link,
        cmark::TagEnd::Image => MarkdownEnd::Image,
        _ => MarkdownEnd::Other,
    }
}

fn end_of(tag: cmark::TagEnd) -> MarkdownEnd {
    match block_end(tag) {
        Ok(tag) => tag,
        Err(tag) => inner_end(tag),
    }
}

/// The events of `pulldown_cmark::Event` that are text, event for event; any other event
/// is handed back.
#[verifier::external_body]
fn text_event(event: cmark::Event<'_>) -> Result<MarkdownEvent, cmark::Event<'_>> {
    match event {
        cmark::Event::Text(text) => Ok(MarkdownEvent::Text(text.into_string())),
        cmark::Event::Code(text) => Ok(MarkdownEvent::Code(text.into_string())),
        cmark::Event::Html(html) => Ok(MarkdownEvent::Html(html.into_string())),
        cmark::Event::InlineHtml(html) => Ok(MarkdownEvent::InlineHtml(html.into_string())),
        cmark::Event::FootnoteReference(label) =>
            Ok(MarkdownEvent::FootnoteReference(label.into_string())),
        cmark::Event::InlineMath(text) => Ok(MarkdownEvent::InlineMath(text.into_string())),
        cmark::Event::DisplayMath(text) => Ok(MarkdownEvent::DisplayMath(text.into_string())),
        other => Err(other),
    }
}

/// The other events of `pulldown_cmark::Event`, event for event: once text is taken out,
/// the last arm is left to the rule.
#[verifier::external_body]
fn mark_event(event: cmark::Event<'_>) -> MarkdownEvent {
    match event {
        cmark::Event::Start(tag) => MarkdownEvent::Start(tag_of(tag)),
        cmark::Event::End(tag) => MarkdownEvent::End(end_of(tag)),
        cmark::Event::SoftBreak => MarkdownEvent::SoftBreak,
        cmark::Event::HardBreak => MarkdownEvent::HardBreak,
        cmark::Event::TaskListMarker(checked) => MarkdownEvent::TaskListMarker(checked),
        _ => MarkdownEvent::Rule,
    }
}

fn event_of(event: cmark::Event<'_>) -> MarkdownEvent {
    match text_event(event) {
        Ok(event) => event,
        Err(event) => mark_event(event),
    }
}

/// `pulldown_cmark::Parser`, with the byte each event starts at: what it reads is a
/// function of the text alone.
#[verifier::external_body]
pub(crate) fn read_markdown(text: &str) -> (r: Vec<(MarkdownEvent, usize)>)
    ensures
        r.deep_view() == markdown_of(text@),
{
    let options = cmark::Options::ENABLE_TABLES | cmark::Options::ENABLE_STRIKETHROUGH
        | cmark::Options::ENABLE_TASKLISTS | cmark::Options::ENABLE_GFM;
    let events = cmark::Parser::new_ext(text, options).into_offset_iter();
    events.map(|(event, range)| (event_of(event), range.start)).collect()
}

} // verus!
