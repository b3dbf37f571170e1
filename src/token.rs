use vstd::prelude::*;

verus! {

/// A lexical unit of the markup dialect.
#[derive(PartialEq, Eq, Debug)]
pub enum Token {
    Text(String),
    Asterisk,
    DoubleAsterisk,
    OpenSquareBrace,
    /// The two characters `](`, read as one unit.
    LinkMiddle,
    CloseRoundBrace,
    LineBreak,
}

pub type Tokens = Vec<Token>;

/// The mathematical value of a token: its text payload as a sequence of characters.
pub enum TokenView {
    Text(Seq<char>),
    Asterisk,
    DoubleAsterisk,
    OpenSquareBrace,
    LinkMiddle,
    CloseRoundBrace,
    LineBreak,
}

impl View for Token {
    type V = TokenView;

    open spec fn view(&self) -> TokenView {
        match self {
            Token::Text(s) => TokenView::Text(s@),
            Token::Asterisk => TokenView::Asterisk,
            Token::DoubleAsterisk => TokenView::DoubleAsterisk,
            Token::OpenSquareBrace => TokenView::OpenSquareBrace,
            Token::LinkMiddle => TokenView::LinkMiddle,
            Token::CloseRoundBrace => TokenView::CloseRoundBrace,
            Token::LineBreak => TokenView::LineBreak,
        }
    }
}

/// The views of a sequence of tokens.
pub open spec fn tokens_view(ts: Seq<Token>) -> Seq<TokenView> {
    ts.map_values(|t: Token| t@)
}

} // verus!
