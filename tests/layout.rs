use gm_unleashed_md::{parse, segment_layout, tokenize, FontStyle, SegmentLayout, Style};

fn plan(raw: &str) -> Vec<(FontStyle, usize)> {
    segment_layout(&parse(tokenize(raw))).iter().map(|l| (l.font, l.breaks_after)).collect()
}

#[test]
fn fonts_combine_and_separate() {
    assert_eq!(FontStyle::Normal + Style::Italic, FontStyle::Italic);
    assert_eq!(FontStyle::Normal + Style::Bold, FontStyle::Bold);
    assert_eq!(FontStyle::Italic + Style::Bold, FontStyle::BoldItalic);
    assert_eq!(FontStyle::Bold + Style::Italic, FontStyle::BoldItalic);
    assert_eq!(FontStyle::Bold + Style::Bold, FontStyle::Bold);
    assert_eq!(FontStyle::Normal + Style::Link { target: "t".to_string() }, FontStyle::Normal);
    assert_eq!(FontStyle::BoldItalic - Style::Bold, FontStyle::Italic);
    assert_eq!(FontStyle::BoldItalic - Style::Italic, FontStyle::Bold);
    assert_eq!(FontStyle::Italic - Style::Italic, FontStyle::Normal);
    assert_eq!(FontStyle::Bold - Style::Bold, FontStyle::Normal);
    assert_eq!(FontStyle::Normal - Style::Bold, FontStyle::Normal);
    assert_eq!(FontStyle::Italic.with_style(&Style::Bold), FontStyle::BoldItalic);
    assert_eq!(FontStyle::Italic.without_style(&Style::Bold), FontStyle::Italic);
}

#[test]
fn all_font_styles() {
    assert_eq!(
        FontStyle::all(),
        vec![FontStyle::Normal, FontStyle::Bold, FontStyle::Italic, FontStyle::BoldItalic]
    );
}

#[test]
fn italic_segment_is_drawn_italic() {
    assert_eq!(
        plan("foo *bar* baz"),
        vec![(FontStyle::Normal, 0), (FontStyle::Italic, 0), (FontStyle::Normal, 0)]
    );
}

#[test]
fn crossing_spans_give_bold_italic_in_the_middle() {
    assert_eq!(
        plan("foo*bar**bazqux*quux**corge"),
        vec![
            (FontStyle::Normal, 0),
            (FontStyle::Italic, 0),
            (FontStyle::BoldItalic, 0),
            (FontStyle::Bold, 0),
            (FontStyle::Normal, 0),
        ]
    );
}

#[test]
fn breaks_follow_their_segment() {
    assert_eq!(
        segment_layout(&parse(tokenize("foo\nbar\n\nbaz"))),
        vec![
            SegmentLayout { font: FontStyle::Normal, breaks_after: 1 },
            SegmentLayout { font: FontStyle::Normal, breaks_after: 2 },
            SegmentLayout { font: FontStyle::Normal, breaks_after: 0 },
        ]
    );
}

#[test]
fn link_keeps_the_font() {
    assert_eq!(
        plan("a [**b**](c) d"),
        vec![(FontStyle::Normal, 0), (FontStyle::Bold, 0), (FontStyle::Normal, 0)]
    );
}

#[test]
fn break_before_first_segment_holds_back_later_breaks() {
    assert_eq!(plan("\nfoo\nbar"), vec![(FontStyle::Normal, 0), (FontStyle::Normal, 0)]);
}
