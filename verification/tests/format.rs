//! Formatting JSON and XML.

use sid_term::format::json::json;
use sid_term::format::xml::xml;
use sid_term::format::Kept;

fn xml_text(text: &str) -> Result<String, String> {
    xml(text, "  ", "\n").map(|formatted| formatted.text)
}

#[test]
fn json_is_indented_keeping_order_numbers_and_escapes() {
    let text = r#"{"b":1.50,"a":[1, 2,{}],"s":"x\"y, {z}: ","e":[],
        "n":{"deep":  null}}"#;
    let formatted = json(text, "  ", "\n").unwrap();
    assert_eq!(
        formatted,
        "{\n  \"b\": 1.50,\n  \"a\": [\n    1,\n    2,\n    {}\n  ],\n  \"s\": \"x\\\"y, {z}: \",\n  \"e\": [],\n  \"n\": {\n    \"deep\": null\n  }\n}\n"
    );
    assert_eq!(json(&formatted, "  ", "\n").unwrap(), formatted);
}

#[test]
fn invalid_json_is_refused() {
    assert!(json("{\"a\": 1,}", "  ", "\n").is_err());
    assert!(json("{\"a\": 1}\n{\"b\": 2}\n", "  ", "\n").is_err());
    assert!(json("// note\n{}", "  ", "\n").is_err());
}

#[test]
fn json_numbers_beyond_f64_are_still_json() {
    assert_eq!(json("[1e400]", "  ", "\n").unwrap(), "[\n  1e400\n]\n");
}

#[test]
fn xml_is_indented_keeping_text_elements_on_one_line() {
    let text = "<?xml version=\"1.0\"?><root a=\"x > y\"><!-- note --><name>  Golf </name>\
        <empty/><list><item>1</item><item></item></list><raw><![CDATA[<raw>]]></raw></root>";
    let formatted = xml_text(text).unwrap();
    assert_eq!(
        formatted,
        "<?xml version=\"1.0\"?>\n<root a=\"x > y\">\n  <!-- note -->\n  <name>  Golf </name>\n  <empty/>\n  <list>\n    <item>1</item>\n    <item></item>\n  </list>\n  <raw><![CDATA[<raw>]]></raw>\n</root>\n"
    );
    assert_eq!(xml_text(&formatted).unwrap(), formatted);
}

#[test]
fn unbalanced_xml_is_refused() {
    assert!(xml_text("<a><b></a>").is_err());
    assert!(xml_text("<a>").is_err());
    assert!(xml_text("<a><!-- open </a>").is_err());
}

#[test]
fn text_outside_the_root_element_is_refused_rather_than_dropped() {
    let err = xml_text("<a/>\nhello\n<b/>").unwrap_err();
    assert!(err.contains("text outside the root element"), "{err}");
    assert!(xml_text("<a></a>\ntail").is_err());
    assert!(xml_text("head <a/>").is_err());
    // Line breaks and indentation around the root are not text.
    assert_eq!(xml_text("\n  <a/>\n\n").unwrap(), "<a/>\n");
}

#[test]
fn a_doctype_with_an_internal_subset_is_one_piece() {
    let text = "<!DOCTYPE x [<!ENTITY a \"b\"><!ELEMENT x (#PCDATA)>]><x>&a;</x>";
    assert_eq!(
        xml_text(text).unwrap(),
        "<!DOCTYPE x [<!ENTITY a \"b\"><!ELEMENT x (#PCDATA)>]>\n<x>&a;</x>\n"
    );
    // A bracket inside a quoted value does not open a subset.
    assert_eq!(
        xml_text("<!DOCTYPE x \"[\"><x/>").unwrap(),
        "<!DOCTYPE x \"[\">\n<x/>\n"
    );
    assert!(xml_text("<!DOCTYPE x [<!ENTITY a \"b\">").is_err());
}

#[test]
fn xml_preserves_text_and_space_sensitive_subtrees() {
    for text in [
        "<root xml:space=\"preserve\">  keep these spaces  </root>",
        "<root xml:space = 'preserve'><a/> \n <b/></root>",
        "<root><name>  Golf </name></root>",
        "<root><space> \t </space></root>",
        "<root><raw> <![CDATA[ x ]]> </raw></root>",
        "<p>Hello <b>world</b> !</p>",
        "<p><b>Hello</b> <i>world</i>!</p>",
        "<p><![CDATA[  text  ]]> and <b>more</b></p>",
    ] {
        let formatted = xml(text, "  ", "\n").unwrap();
        // Compare the literal character data, including whitespace-only leaves.
        let expected = if text.starts_with("<root><") {
            text.replacen("<root>", "<root>\n  ", 1)
                .replace("</root>", "\n</root>\n")
        } else {
            format!("{text}\n")
        };
        assert_eq!(formatted.text, expected);
        assert_eq!(formatted.kept.len(), 1, "{text}");
        assert_eq!(xml_text(&formatted.text).unwrap(), formatted.text);
    }
}

#[test]
fn what_was_kept_is_named() {
    let formatted = xml(
        "<root><a xml:space=\"preserve\"> x </a><b>text</b><c> y </c><d/></root>",
        "  ",
        "\n",
    )
    .unwrap();
    assert_eq!(
        formatted.kept_message().unwrap(),
        "3 elements kept as written: xml:space=\"preserve\" and character data"
    );
    let one = xml("<root><b>text</b></root>", "  ", "\n").unwrap();
    assert_eq!(
        one.kept_message().unwrap(),
        "1 element kept as written: character data"
    );
    assert_eq!(xml("<root><a/></root>", "  ", "\n").unwrap().kept, vec![]);
    assert_eq!(
        sid_term::format::format("json", "{}", "  ", "\n")
            .unwrap()
            .unwrap()
            .kept_message(),
        None
    );
}

#[test]
fn whitespace_with_a_line_break_in_a_leaf_is_indentation() {
    assert_eq!(
        xml_text("<root>\n  <a>\n    </a>\n  <b>\n</b></root>").unwrap(),
        "<root>\n  <a></a>\n  <b></b>\n</root>\n"
    );
}

#[test]
fn spaces_between_child_elements_are_reflowed() {
    assert_eq!(
        xml_text("<root> <a/> <b>1</b> </root>").unwrap(),
        "<root>\n  <a/>\n  <b>1</b>\n</root>\n"
    );
    // A leaf's spaces are its content, and text among the children makes them so.
    assert_eq!(xml_text("<root> </root>").unwrap(), "<root> </root>\n");
    assert_eq!(
        xml_text("<root> <a/> x </root>").unwrap(),
        "<root> <a/> x </root>\n"
    );
}

#[test]
fn cdata_alone_does_not_keep_the_parent_as_written() {
    // A CDATA on a line of its own among elements: indented with them.
    assert_eq!(
        xml_text("<root>\n<![CDATA[x]]>\n<a/>\n<b/>\n</root>").unwrap(),
        "<root>\n  <![CDATA[x]]>\n  <a/>\n  <b/>\n</root>\n"
    );
    // A leaf holding one CDATA sits on one line, or around it when it spans lines.
    assert_eq!(
        xml_text("<root>\n  <raw>\n    <![CDATA[x]]>\n  </raw>\n</root>").unwrap(),
        "<root>\n  <raw><![CDATA[x]]></raw>\n</root>\n"
    );
    assert_eq!(
        xml_text("<root><script><![CDATA[\n  code\n]]></script></root>").unwrap(),
        "<root>\n  <script>\n    <![CDATA[\n  code\n]]>\n  </script>\n</root>\n"
    );
}

#[test]
fn line_breaks_inside_kept_pieces_follow_the_chosen_newline() {
    let text = "<root>\r\n<p>Hello\r\n<b>world</b></p>\r\n<!-- a\r\nnote -->\r\n<a\r\n  b=\"1\"/>\r\n</root>\r\n";
    assert_eq!(
        xml_text(text).unwrap(),
        "<root>\n  <p>Hello\n<b>world</b></p>\n  <!-- a\nnote -->\n  <a\n  b=\"1\"/>\n</root>\n"
    );
    assert_eq!(
        xml("<p>a\n<b/></p>", "  ", "\r\n").unwrap().text,
        "<p>a\r\n<b/></p>\r\n"
    );
}

#[test]
fn json_keeps_its_white_space_in_strings_and_its_newline() {
    assert_eq!(json("{\"a\":\"  x  \"}", "\t", "\r\n").unwrap(), "{\r\n\t\"a\": \"  x  \"\r\n}\r\n");
    assert_eq!(json("  7 ", "  ", "\n").unwrap(), "7\n");
    assert_eq!(json("[ ]", "  ", "\n").unwrap(), "[]\n");
}

#[test]
fn only_json_and_xml_are_known() {
    assert!(sid_term::format::format("toml", "a = 1", "  ", "\n").is_none());
    assert!(sid_term::format::format("xml", "<a/>", "  ", "\n").unwrap().is_ok());
    assert!(sid_term::format::format("xml", "<a>", "  ", "\n").unwrap().is_err());
    assert!(sid_term::format::format("json", "{", "  ", "\n").unwrap().is_err());
}

#[test]
fn what_is_kept_is_told_apart() {
    let formatted = xml("<root><a xml:space=\"preserve\"> x </a><b>text</b></root>", "  ", "\n").unwrap();
    assert_eq!(formatted.kept, vec![Kept::XmlSpace, Kept::CharacterData]);
}

#[test]
fn xml_once_formatted_stays() {
    let text = "<a><b><c/>\n<d>t</d></b><!-- x --></a>";
    let once = xml(text, "\t", "\n").unwrap().text;
    assert_eq!(xml(&once, "\t", "\n").unwrap().text, once);
    let ink = |text: &str| text.chars().filter(|c| !c.is_whitespace()).collect::<String>();
    assert_eq!(ink(text), ink(&once));
}
