use mdhtml::convert;

#[test]
fn heading() {
    assert_eq!(convert(String::from("# Header")), "<h1>Header</h1>");
}

#[test]
fn paragraph() {
    assert_eq!(convert(String::from("Paragraph")), "<p>Paragraph</p>");
}

#[test]
fn headings_and_paragraphs() {
    assert_eq!(
        convert(String::from("# Header\nParagraph\n\n## Header 2\nParagraph 2")),
        "<h1>Header</h1><p>Paragraph<br></p><h2>Header 2</h2><p>Paragraph 2</p>"
    );
}

#[test]
fn inline_styles() {
    assert_eq!(
        convert(String::from("**bold**, __underlined__, ~~struck~~ and *italic*")),
        "<p><strong>bold</strong>, <u>underlined</u>, <s>struck</s> and <i>italic</i></p>"
    );
}

#[test]
fn link() {
    assert_eq!(
        convert(String::from("Click [here](https://example.com) now.")),
        "<p>Click <a href=\"https://example.com\" target=\"_blank\">here</a> now.</p>"
    );
}

#[test]
fn image_closes_paragraph() {
    assert_eq!(
        convert(String::from("See ![alt](https://example.com/img.png)")),
        "<p>See </p><img src=\"https://example.com/img.png\" alt=\"alt\">"
    );
}

#[test]
fn deterministic() {
    let input = "# Header\n**bold** and [a](b)\n\n![x](y)";
    let first = convert(String::from(input));
    let second = convert(String::from(input));
    assert_eq!(first, second);
}

#[test]
fn unterminated_toggle() {
    assert_eq!(convert(String::from("**bold")), "<p>bold</p>");
}

#[test]
fn empty_input_is_one_blank_line() {
    assert_eq!(convert(String::from("")), "<br>");
}

#[test]
fn deep_heading_level() {
    assert_eq!(convert(String::from("### Three")), "<h3>Three</h3>");
}

#[test]
fn underline_at_line_start() {
    assert_eq!(convert(String::from("__u__")), "<p><u>u</u></p>");
}

#[test]
fn stray_delimiter_leaves_no_text_node() {
    let mut style = mdhtml::parser::ObjectStyle::default();
    let nodes = mdhtml::parser::parse_text(&mut style, "[**x__y");
    assert_eq!(nodes.len(), 2);
}

#[test]
fn parse_text_threads_style() {
    let mut style = mdhtml::parser::ObjectStyle::default();
    let nodes = mdhtml::parser::parse_text(&mut style, "**open");
    assert!(style.bold);
    assert_eq!(nodes.len(), 2);
}

#[test]
fn format_internal_tracks_paragraph() {
    let mut infos = mdhtml::formatter::FormattingInformations::default();
    let objects = vec![mdhtml::parser::Object::Text(String::from("hi"))];
    let html = mdhtml::formatter::format_internal(objects, &mut infos);
    assert_eq!(html, "<p>hi");
    assert!(infos.in_paragraph);
}

#[test]
fn format_closes_paragraph() {
    let objects = vec![mdhtml::parser::Object::Text(String::from("hi"))];
    assert_eq!(mdhtml::parser::parse(String::from("hi")).len(), 1);
    assert_eq!(mdhtml::formatter::format(objects), "<p>hi</p>");
}

#[test]
fn line_break_keeps_paragraph_open() {
    assert_eq!(convert(String::from("a\n\nb")), "<p>a<br>b</p>");
}

#[test]
fn link_with_toggles_in_text() {
    assert_eq!(
        convert(String::from("[*x*](u)")),
        "<p><i></i><a href=\"u\" target=\"_blank\">x</a></p>"
    );
}
