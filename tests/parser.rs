use gm_unleashed_md::{parse, tokenize, Span, Style, StyleSpan};

const SAMPLE_TEXT: &str = "Some text";
const LINK_TARGET: &str = "Linky Link";

#[test]
fn simple_text() {
    let md = parse(tokenize(SAMPLE_TEXT));
    assert_eq!(md.text[0], SAMPLE_TEXT);
    assert_eq!(md.text.len(), 1);
    assert_eq!(md.styles.len(), 0);
}

#[test]
fn italic_text() {
    let md = parse(tokenize(&format!("{} *{}* {}", SAMPLE_TEXT, SAMPLE_TEXT, SAMPLE_TEXT)));
    assert_eq!(md.text[0], format!("{} ", SAMPLE_TEXT));
    assert_eq!(md.text[1], SAMPLE_TEXT);
    assert_eq!(md.text[2], format!(" {}", SAMPLE_TEXT));
    assert_eq!(md.text.len(), 3);
    assert_eq!(md.styles[0], StyleSpan { span: Span { start: 1, end: 1 }, style: Style::Italic });
    assert_eq!(md.styles.len(), 1);
}

#[test]
fn bold_text() {
    let md = parse(tokenize(&format!("{} **{}** {}", SAMPLE_TEXT, SAMPLE_TEXT, SAMPLE_TEXT)));
    assert_eq!(md.text[0], format!("{} ", SAMPLE_TEXT));
    assert_eq!(md.text[1], SAMPLE_TEXT);
    assert_eq!(md.text[2], format!(" {}", SAMPLE_TEXT));
    assert_eq!(md.text.len(), 3);
    assert_eq!(md.styles[0], StyleSpan { span: Span { start: 1, end: 1 }, style: Style::Bold });
    assert_eq!(md.styles.len(), 1);
}

#[test]
fn bold_and_italic_overlapping_text() {
    let md = parse(tokenize(&format!(
        "{}*{}**{}{}*{}**{}",
        SAMPLE_TEXT, SAMPLE_TEXT, SAMPLE_TEXT, SAMPLE_TEXT, SAMPLE_TEXT, SAMPLE_TEXT
    )));
    assert_eq!(md.text.len(), 5);
    assert_eq!(md.styles[0], StyleSpan { span: Span { start: 1, end: 2 }, style: Style::Italic });
    assert_eq!(md.styles[1], StyleSpan { span: Span { start: 2, end: 3 }, style: Style::Bold });
    assert_eq!(md.styles.len(), 2);
}

#[test]
fn linked_text() {
    let md = parse(tokenize(&format!("{}[{}]({}){}", SAMPLE_TEXT, SAMPLE_TEXT, LINK_TARGET, SAMPLE_TEXT)));
    assert_eq!(md.text.len(), 3);
    assert_eq!(
        md.styles[0],
        StyleSpan { span: Span { start: 1, end: 1 }, style: Style::Link { target: LINK_TARGET.to_string() } }
    );
    assert_eq!(md.styles.len(), 1);
}

#[test]
fn line_break_text() {
    let md = parse(tokenize(&format!("{}\n{}", SAMPLE_TEXT, SAMPLE_TEXT)));
    assert_eq!(md.text.len(), 2);
    assert_eq!(md.breaks[0].pos, 1);
    assert_eq!(md.breaks.len(), 1);
}

#[test]
fn multiple_italic_spans() {
    let md = parse(tokenize(&format!(
        "{}*{}*{}*{}*{}*{}*{}",
        SAMPLE_TEXT, SAMPLE_TEXT, SAMPLE_TEXT, SAMPLE_TEXT, SAMPLE_TEXT, SAMPLE_TEXT, SAMPLE_TEXT
    )));
    assert_eq!(md.text.len(), 7);
    assert_eq!(md.styles[0], StyleSpan { span: Span { start: 1, end: 1 }, style: Style::Italic });
    assert_eq!(md.styles[1], StyleSpan { span: Span { start: 3, end: 3 }, style: Style::Italic });
    assert_eq!(md.styles[2], StyleSpan { span: Span { start: 5, end: 5 }, style: Style::Italic });
    assert_eq!(md.styles.len(), 3);
}
