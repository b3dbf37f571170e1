use gm_unleashed_md::{tokenize, Token};

const SAMPLE_TEXT: &str = "Some Text";

#[test]
fn plain_text() {
    let tokens = tokenize(SAMPLE_TEXT);
    assert_eq!(tokens.len(), 1);
    assert_eq!(tokens[0], Token::Text(SAMPLE_TEXT.to_string()));
}

#[test]
fn lib_italic_text() {
    let tokens = tokenize(&format!("*{}*", SAMPLE_TEXT));
    assert_eq!(tokens.len(), 3);
    assert_eq!(tokens[0], Token::Asterisk);
    assert_eq!(tokens[1], Token::Text(SAMPLE_TEXT.to_string()));
    assert_eq!(tokens[2], Token::Asterisk);
}

#[test]
fn lib_bold_text() {
    let tokens = tokenize(&format!("**{}**", SAMPLE_TEXT));
    assert_eq!(tokens.len(), 3);
    assert_eq!(tokens[0], Token::DoubleAsterisk);
    assert_eq!(tokens[1], Token::Text(SAMPLE_TEXT.to_string()));
    assert_eq!(tokens[2], Token::DoubleAsterisk);
}

#[test]
fn italic_bold_text() {
    let tokens = tokenize(&format!("***{}***", SAMPLE_TEXT));
    assert_eq!(tokens.len(), 5);
    assert_eq!(tokens[0], Token::DoubleAsterisk);
    assert_eq!(tokens[1], Token::Asterisk);
    assert_eq!(tokens[2], Token::Text(SAMPLE_TEXT.to_string()));
    assert_eq!(tokens[3], Token::DoubleAsterisk);
    assert_eq!(tokens[4], Token::Asterisk);
}

#[test]
fn lib_linked_text() {
    let tokens = tokenize(&format!("[{}]({})", SAMPLE_TEXT, SAMPLE_TEXT));
    assert_eq!(tokens.len(), 5);
    assert_eq!(tokens[0], Token::OpenSquareBrace);
    assert_eq!(tokens[1], Token::Text(SAMPLE_TEXT.to_string()));
    assert_eq!(tokens[2], Token::LinkMiddle);
    assert_eq!(tokens[3], Token::Text(SAMPLE_TEXT.to_string()));
    assert_eq!(tokens[4], Token::CloseRoundBrace);
}

#[test]
fn non_linked_text() {
    let tokens = tokenize(&format!("[{}({})", SAMPLE_TEXT, SAMPLE_TEXT));
    assert_eq!(tokens.len(), 5);
    assert_eq!(tokens[0], Token::OpenSquareBrace);
    assert_eq!(tokens[1], Token::Text(SAMPLE_TEXT.to_string()));
    assert_eq!(tokens[2], Token::Text("(".to_string()));
    assert_eq!(tokens[3], Token::Text(SAMPLE_TEXT.to_string()));
    assert_eq!(tokens[4], Token::CloseRoundBrace);
}

#[test]
fn line_broken_text() {
    let tokens = tokenize(&format!("{}\n{}", SAMPLE_TEXT, SAMPLE_TEXT));
    assert_eq!(tokens.len(), 3);
    assert_eq!(tokens[0], Token::Text(SAMPLE_TEXT.to_string()));
    assert_eq!(tokens[1], Token::LineBreak);
    assert_eq!(tokens[2], Token::Text(SAMPLE_TEXT.to_string()));
}
