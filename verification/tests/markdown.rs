//! Markdown, laid out as rows.

use sid_term::graphics::{Rect, Span, Style};
use sid_term::input::{KeyCode, KeyEvent, KeyModifiers};
use sid_term::markdown::html::{decode_entities, heading_line, html_attribute, slug};
use sid_term::markdown::preview::{
    follow, follow_checked, row_for_line, slice_columns, Focused, Layout, Leads, MarkdownPreview,
    PreviewSelection,
};
use sid_term::markdown::render::{markdown_code, render_markdown};
use sid_term::markdown::sheet::{Row, Styles};

fn styles() -> Styles {
    let plain = Style::plain();
    Styles {
        text: plain,
        h1: plain,
        h2: plain,
        h3: plain,
        h4: plain,
        h5: plain,
        h6: plain,
        code: plain,
        rule: plain,
        quote: plain,
        list: plain,
        link: plain,
        dim: plain,
        note: plain,
        tip: plain,
        important: plain,
        warning: plain,
        caution: plain,
    }
}

fn rows(text: &str, width: u16) -> Vec<Row> {
    let highlighted = markdown_code(text)
        .into_iter()
        .map(|(_, code)| {
            code.lines()
                .map(|line| vec![Span::styled(line.to_string(), Style::plain())])
                .collect()
        })
        .collect();
    render_markdown(text, width, styles(), &highlighted)
}

fn text_of(row: &Row) -> String {
    row.spans.iter().map(|span| span.text.as_str()).collect()
}

fn draw(text: &str, width: u16) -> Vec<String> {
    rows(text, width).iter().map(|row| text_of(row).trim_end().to_string()).collect()
}

#[test]
fn a_paragraph_reflows_to_the_panel() {
    let text = "one two\nthree four five six\n";

    assert_eq!(draw(text, 12), ["one two", "three four", "five six"]);
}

#[test]
fn a_word_wider_than_the_panel_is_cut_through() {
    assert_eq!(draw("abcdefghij", 4), ["abcd", "efgh", "ij"]);
}

#[test]
fn blocks_are_one_blank_row_apart_and_the_big_headings_are_underlined() {
    let text = "# Title\n\nSome text.\n\n## Part\n\nMore.\n\n### Small\n";

    assert_eq!(
        draw(text, 8),
        [
            "Title",
            "━━━━━━━━",
            "",
            "Some",
            "text.",
            "",
            "Part",
            "────────",
            "",
            "More.",
            "",
            "Small"
        ],
    );
}

#[test]
fn a_list_item_wraps_under_its_own_text() {
    let text = "- first item here\n- second\n  - nested one\n1. one\n2. two\n";

    assert_eq!(
        draw(text, 12),
        [
            "• first item",
            "  here",
            "• second",
            "  ◦ nested",
            "    one",
            "",
            "1. one",
            "2. two",
        ],
    );
}

#[test]
fn a_task_shows_whether_it_is_done() {
    assert_eq!(draw("- [x] done\n- [ ] to do\n", 20), ["☑ done", "☐ to do"]);
}

#[test]
fn a_quote_keeps_its_bar_on_every_row_and_no_further() {
    let text = "> quoted words wrap\n>\n> again\n\nafter\n";

    assert_eq!(
        draw(text, 10),
        ["▎ quoted", "▎ words", "▎ wrap", "▎", "▎ again", "", "after"],
    );
}

#[test]
fn an_alert_says_what_it_is() {
    assert_eq!(
        draw("> [!WARNING]\n> Careful.\n", 20),
        ["▎ Warning", "▎ Careful."]
    );
}

#[test]
fn a_table_lines_its_columns_up() {
    let text = "| Name | Age |\n|------|----:|\n| alice | 30 |\n| bob | 7 |\n";

    assert_eq!(
        draw(text, 40),
        ["Name  │ Age", "──────┼────", "alice │  30", "bob   │   7"],
    );
}

#[test]
fn a_table_too_wide_gives_from_its_widest_column() {
    let text = "| a | b |\n|---|---|\n| short | a very long cell |\n";

    assert_eq!(
        draw(text, 16),
        ["a     │ b", "──────┼─────────", "short │ a very…"],
    );
}

#[test]
fn code_keeps_its_lines_and_is_indented() {
    let text = "```\nlet a = 1;\n  let b = 2;\n```\n";

    assert_eq!(draw(text, 40), ["  let a = 1;", "    let b = 2;"]);
}

#[test]
fn every_row_knows_the_line_it_came_from() {
    let text = "# Title\n\nfirst paragraph\ncontinues here\n\n```\ncode\n```\n\n- item\n";
    let rows = rows(text, 10);
    let lines: Vec<(String, usize)> = rows
        .iter()
        .filter(|row| !row.blank)
        .map(|row| (text_of(row).trim_end().to_string(), row.line))
        .collect();

    assert_eq!(
        lines,
        [
            ("Title".to_string(), 0),
            ("━━━━━━━━━━".to_string(), 0),
            ("first".to_string(), 2),
            ("paragraph".to_string(), 2),
            ("continues".to_string(), 3),
            ("here".to_string(), 3),
            ("  code".to_string(), 6),
            ("• item".to_string(), 9),
        ],
    );
}

#[test]
fn the_preview_scrolls_to_the_block_at_the_files_top_line() {
    let text = "# Title\n\nfirst paragraph\ncontinues here\n\nsecond\n";
    let rows = rows(text, 10);
    let at = |line| text_of(&rows[row_for_line(&rows, line)]);

    assert_eq!(at(0), "Title");
    // A blank line between blocks belongs to the block above it.
    assert_eq!(at(1), "Title");
    assert_eq!(at(3), "continues");
    assert_eq!(at(5), "second");
    assert_eq!(at(99), "second");
}

fn links(text: &str, width: u16) -> Vec<Vec<(usize, usize, String)>> {
    rows(text, width)
        .iter()
        .map(|row| {
            row.links
                .iter()
                .map(|link| (link.from, link.to, link.target.to_string()))
                .collect()
        })
        .collect()
}

#[test]
fn a_link_knows_the_columns_it_covers() {
    let text = "see [the docs](docs/x.md) now\n";

    assert_eq!(draw(text, 40), ["see the docs now"]);
    assert_eq!(links(text, 40), [vec![(4, 12, "docs/x.md".to_string())]]);
}

#[test]
fn a_link_wrapped_over_rows_is_on_each_of_them() {
    let text = "[a long link text](x) tail\n";

    assert_eq!(draw(text, 8), ["a long", "link", "text", "tail"]);
    assert_eq!(
        links(text, 8),
        [
            vec![(0, 6, "x".to_string())],
            vec![(0, 4, "x".to_string())],
            vec![(0, 4, "x".to_string())],
            vec![],
        ],
    );
}

#[test]
fn a_link_moves_past_the_prefix_and_bold_inside_it_is_still_one_link() {
    let text = "- [a **b** c](t)\n";

    assert_eq!(draw(text, 20), ["• a b c"]);
    assert_eq!(links(text, 20), [vec![(2, 7, "t".to_string())]]);
}

#[test]
fn an_anchor_finds_its_heading_the_way_github_names_it() {
    let text = "# sid\n\ntext\n\n## Tabs, splits and the mouse\n\n### C++ & Rust\n";

    assert_eq!(heading_line(text, "tabs-splits-and-the-mouse"), Some(4));
    assert_eq!(heading_line(text, "sid"), Some(0));
    assert_eq!(heading_line(text, "c--rust"), Some(6));
    assert_eq!(heading_line(text, "missing"), None);
}

#[test]
fn html_shows_its_text_and_images_not_its_tags() {
    let text = "<div align=\"center\">\n\n<img alt=\"Logo\" src=\"x.svg\">\n\n# sid\n\n\
                </div>\n\n<!-- a note -->\n\n<p>Tom &amp; Jerry</p>\n\nA<br>B\n";

    assert_eq!(
        draw(text, 20),
        [
            "[image: Logo]",
            "",
            "sid",
            "━━━━━━━━━━━━━━━━━━━━",
            "",
            "Tom & Jerry",
            "",
            "A",
            "B"
        ],
    );
}

#[test]
fn code_comes_with_the_language_it_is_in() {
    let blocks = markdown_code("```rust\nfn a() {}\n```\n\n    indented\n");
    assert_eq!(blocks.len(), 2);
    assert_eq!(blocks[0], ("rust".to_string(), "fn a() {}".to_string()));
    assert_eq!(blocks[1].0, "");
}

#[test]
fn rows_fit_the_panel_and_keep_the_text() {
    let text = "Some words of a paragraph that is longer than the panel it is in.";
    let rows = draw(text, 9);
    assert!(rows.iter().all(|row| row.chars().count() <= 9));
    assert_eq!(rows.join(" "), text);
}

#[test]
fn entities_and_attributes_are_read() {
    let letters = |text: &str| text.chars().collect::<Vec<char>>();
    let string = |text: Vec<char>| text.into_iter().collect::<String>();
    assert_eq!(string(decode_entities(&letters("a &lt;b&gt; &amp;nbsp;"))), "a <b> &nbsp;");
    assert_eq!(string(html_attribute(&letters("img alt='x &amp; y'"), "alt")), "x & y");
    assert_eq!(string(html_attribute(&letters("img"), "alt")), "");
    assert_eq!(string(slug(&letters("Tabs, splits and the mouse"))), "tabs-splits-and-the-mouse");
}

#[test]
fn a_link_leads_outside_or_to_a_file() {
    assert!(matches!(follow("https://example.org/a"), Leads::Outside));
    assert!(!matches!(follow("docs/x.md"), Leads::Outside));
    assert!(matches!(follow_checked("anything", true), Leads::Outside));
}

#[test]
fn columns_are_cut_by_width() {
    let text: Vec<char> = "a\u{4e2d}bc".chars().collect();
    assert_eq!(slice_columns(&text, 0, 1), vec!['a']);
    assert_eq!(slice_columns(&text, 3, 5), vec!['b', 'c']);
}

#[test]
fn the_preview_opens_for_markdown_alone() {
    let mut preview = MarkdownPreview::new(None);
    assert!(preview.toggle(false).is_err());
    assert!(preview.toggle(true).is_ok());
    assert!(preview.open);
    assert_eq!(preview.width(true, Rect { x: 0, y: 0, width: 100, height: 20 }, 20), 50);
    assert!(preview.toggle(false).is_ok());
    assert!(!preview.open);
    assert!(preview.toggle_full(true).is_ok());
    assert!(preview.is_full(true));
    assert!(!preview.is_full(false));
    assert!(!preview.full);
    assert!(!preview.has_selection());
    assert!(preview.selected_text().is_none());
}

#[test]
fn an_edit_waits_until_it_rests() {
    let mut preview = MarkdownPreview::new(None);
    assert_eq!(preview.wants_layout(1, 1, 40, "dark"), Layout::Now);
    let shift = KeyEvent {
        code: KeyCode::Down,
        modifiers: KeyModifiers { shift: true, control: false, alt: false, meta: false },
    };
    let sees = Focused { doc: 1, top_line: 0 };
    assert!(!preview.handle_key(shift, sees, 3));
}

#[test]
fn a_preview_is_placed_and_leaves_the_screen() {
    let mut preview = MarkdownPreview::new(None);
    preview.place_beside(Rect { x: 50, y: 1, width: 50, height: 20 });
    assert!(preview.contains(5, 60));
    assert_eq!(preview.content, Rect { x: 52, y: 1, width: 47, height: 20 });
    preview.place_full(Rect { x: 0, y: 1, width: 120, height: 20 });
    assert_eq!(preview.content, Rect { x: 15, y: 1, width: 90, height: 20 });
    preview.place_full(Rect { x: 0, y: 1, width: 40, height: 20 });
    assert_eq!(preview.content, Rect { x: 2, y: 1, width: 36, height: 20 });
    preview.leave_screen();
    assert!(!preview.contains(5, 10));

    assert!(!preview.clear_selection());
    preview.selection = Some(PreviewSelection { anchor: (2, 1), head: (0, 3) });
    assert!(preview.has_selection());
    assert_eq!(preview.selection.unwrap().ends(), ((0, 3), (2, 1)));
    assert!(preview.clear_selection());
    assert!(!preview.has_selection());
}

#[test]
fn an_anchor_is_in_small_letters_whatever_the_alphabet() {
    let anchor = |heading: &str| -> String {
        slug(&heading.chars().collect::<Vec<_>>()).into_iter().collect()
    };
    assert_eq!(anchor(" ÉTÉ & Rust"), "été--rust");
    assert_eq!(anchor("Ünïcode_2 (Ж)"), "ünïcode_2-ж");
    assert_eq!(heading_line("a\n## ÉTÉ\n", "été"), Some(1));
}

#[test]
fn an_attribute_is_not_one_that_ends_like_it() {
    let value = |tag: &str, name: &str| -> String {
        html_attribute(&tag.chars().collect::<Vec<_>>(), name).into_iter().collect()
    };
    assert_eq!(value("img data-alt=\"no\" alt=\"yes\"", "alt"), "yes");
    assert_eq!(value("img data-alt=\"no\"", "alt"), "");
    assert_eq!(value("alt='first'", "alt"), "first");
    assert_eq!(value("img src=\"x\"alt=\"y\"", "alt"), "y");
    assert_eq!(value("img/alt=\"y\"", "alt"), "y");
    assert_eq!(value("img\n  alt='a &amp; b'", "alt"), "a & b");
}

#[test]
fn parts_of_a_row_that_meet_are_one() {
    let text: Vec<char> = "a\u{65e5}b".chars().collect();
    let part = |from: usize, to: usize| -> String {
        slice_columns(&text, from, to).into_iter().collect()
    };
    assert_eq!(part(0, 2), "a");
    assert_eq!(part(2, 4), "b");
    assert_eq!(part(0, 3) + &part(3, 4), part(0, 4));
    assert_eq!(part(0, usize::MAX), "a\u{65e5}b");
}
