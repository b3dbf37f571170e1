use gm_unleashed_md::{extract_links, parse, tokenize, Break, Link, Span, Style, StyleSpan, Token};

fn texts(md: &gm_unleashed_md::Markdown) -> Vec<&str> {
    md.text.iter().map(|s| s.as_str()).collect()
}

#[test]
fn plain_string_is_one_token_and_one_segment() {
    let input = "just words, no markup at all";
    let tokens = tokenize(input);
    assert_eq!(tokens, vec![Token::Text(input.to_string())]);
    let md = parse(tokens);
    assert_eq!(texts(&md), vec![input]);
    assert!(md.styles.is_empty());
    assert!(md.breaks.is_empty());
}

#[test]
fn empty_input_gives_nothing() {
    assert!(tokenize("").is_empty());
    let md = parse(tokenize(""));
    assert!(md.text.is_empty());
    assert!(md.styles.is_empty());
    assert!(md.breaks.is_empty());
    assert!(extract_links(&tokenize("")).is_empty());
}

#[test]
fn italic_symmetry_scenario() {
    let md = parse(tokenize("foo *bar* baz"));
    assert_eq!(texts(&md), vec!["foo ", "bar", " baz"]);
    assert_eq!(md.styles, vec![StyleSpan { span: Span { start: 1, end: 1 }, style: Style::Italic }]);
    assert!(md.breaks.is_empty());
}

#[test]
fn bold_scenario() {
    let md = parse(tokenize("foo **bar** baz"));
    assert_eq!(texts(&md), vec!["foo ", "bar", " baz"]);
    assert_eq!(md.styles, vec![StyleSpan { span: Span { start: 1, end: 1 }, style: Style::Bold }]);
}

#[test]
fn crossing_spans_scenario() {
    let md = parse(tokenize("foo*bar**bazqux*quux**corge"));
    assert_eq!(texts(&md), vec!["foo", "bar", "bazqux", "quux", "corge"]);
    assert_eq!(
        md.styles,
        vec![
            StyleSpan { span: Span { start: 1, end: 2 }, style: Style::Italic },
            StyleSpan { span: Span { start: 2, end: 3 }, style: Style::Bold },
        ]
    );
}

#[test]
fn link_scenario() {
    let md = parse(tokenize("foo[bar](baz)qux"));
    assert_eq!(texts(&md), vec!["foo", "bar", "qux"]);
    assert_eq!(
        md.styles,
        vec![StyleSpan { span: Span { start: 1, end: 1 }, style: Style::Link { target: "baz".to_string() } }]
    );
}

#[test]
fn line_break_scenario() {
    let md = parse(tokenize("foo\nbar"));
    assert_eq!(texts(&md), vec!["foo", "bar"]);
    assert_eq!(md.breaks, vec![Break { pos: 1 }]);
}

#[test]
fn break_after_last_segment() {
    let md = parse(tokenize("foo\n\n"));
    assert_eq!(texts(&md), vec!["foo"]);
    assert_eq!(md.breaks, vec![Break { pos: 1 }, Break { pos: 1 }]);
}

#[test]
fn segments_join_to_input_without_markup_and_targets() {
    let md = parse(tokenize("a*b*[c](d)e\nf)g"));
    assert_eq!(texts(&md), vec!["a", "b", "c", "e", "f", "g"]);
    assert_eq!(md.text.concat(), "abcefg");
    assert_eq!(md.breaks, vec![Break { pos: 4 }]);
}

#[test]
fn stray_close_paren_is_dropped() {
    let md = parse(tokenize("a) b"));
    assert_eq!(texts(&md), vec!["a", " b"]);
    assert!(md.styles.is_empty());
}

#[test]
fn lone_brackets_and_open_paren_are_text() {
    let tokens = tokenize("a]b(c");
    assert_eq!(
        tokens,
        vec![
            Token::Text("a".to_string()),
            Token::Text("]".to_string()),
            Token::Text("b".to_string()),
            Token::Text("(".to_string()),
            Token::Text("c".to_string()),
        ]
    );
    assert_eq!(parse(tokens).text.concat(), "a]b(c");
}

#[test]
fn unterminated_markers_give_no_span() {
    let md = parse(tokenize("*a **b [c](d"));
    assert_eq!(texts(&md), vec!["a ", "b ", "c"]);
    assert!(md.styles.is_empty());
}

#[test]
fn second_open_bracket_is_ignored() {
    let md = parse(tokenize("[a[b](c)"));
    assert_eq!(texts(&md), vec!["a", "b"]);
    assert_eq!(
        md.styles,
        vec![StyleSpan { span: Span { start: 0, end: 1 }, style: Style::Link { target: "c".to_string() } }]
    );
}

#[test]
fn consecutive_links_each_get_their_own_start() {
    let md = parse(tokenize("[a](x) [b](y)"));
    assert_eq!(texts(&md), vec!["a", " ", "b"]);
    assert_eq!(
        md.styles,
        vec![
            StyleSpan { span: Span { start: 0, end: 0 }, style: Style::Link { target: "x".to_string() } },
            StyleSpan { span: Span { start: 2, end: 2 }, style: Style::Link { target: "y".to_string() } },
        ]
    );
}

#[test]
fn link_target_without_opening_bracket_gives_no_span() {
    let md = parse(tokenize("a](x)b"));
    assert_eq!(texts(&md), vec!["a", "b"]);
    assert!(md.styles.is_empty());
    assert!(extract_links(&tokenize("a](x)b")).is_empty());
}

#[test]
fn empty_span_before_any_segment_ends_at_usize_max() {
    let md = parse(tokenize("*\n*a"));
    assert_eq!(md.styles, vec![StyleSpan { span: Span { start: 0, end: usize::MAX }, style: Style::Italic }]);
    assert_eq!(md.breaks, vec![Break { pos: 0 }]);
}

#[test]
fn links_extracted_in_order_among_emphasis() {
    let tokens = tokenize("*x* [a](one) **y** z) [b *c*](t*w*o) ](q) end");
    let links = extract_links(&tokens);
    let targets: Vec<&str> = links.iter().map(|l| l.target()).collect();
    assert_eq!(targets, vec!["one", "two"]);
}

#[test]
fn link_keeps_its_target() {
    assert_eq!(Link::new("here".to_string()).target(), "here");
}

#[test]
fn text_payloads_retokenize_to_themselves() {
    let tokens = tokenize("x]y(z *a* [b](c)\nd");
    for tok in &tokens {
        if let Token::Text(t) = tok {
            assert!(!t.is_empty());
            assert_eq!(tokenize(t), vec![Token::Text(t.clone())]);
        }
    }
    let md = parse(tokens);
    for seg in &md.text {
        assert_eq!(tokenize(seg), vec![Token::Text(seg.clone())]);
    }
}

fn written_back(tokens: &[Token]) -> String {
    tokens
        .iter()
        .map(|t| match t {
            Token::Text(s) => s.as_str(),
            Token::Asterisk => "*",
            Token::DoubleAsterisk => "**",
            Token::OpenSquareBrace => "[",
            Token::LinkMiddle => "](",
            Token::CloseRoundBrace => ")",
            Token::LineBreak => "\n",
        })
        .collect()
}

#[test]
fn tokens_written_back_give_the_input() {
    for input in ["", "***a**](b)]c(d[e\n)", "x * y ** z", "]](((", "\n\n*"] {
        assert_eq!(written_back(&tokenize(input)), input);
    }
}

#[test]
fn document_indices_stay_in_range() {
    let md = parse(tokenize("*a\n**b*c[d](e)**\n\n"));
    let n = md.text.len();
    assert_eq!(n, 4);
    for b in &md.breaks {
        assert!(b.pos <= n);
    }
    for s in &md.styles {
        assert!(s.span.start <= n);
        assert!(s.span.end < n || s.span.end == usize::MAX);
    }
}
