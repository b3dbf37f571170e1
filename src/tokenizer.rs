use vstd::prelude::*;
use itertools::Itertools;
use crate::token::{Token, TokenView, Tokens, tokens_view};

verus! {

/// The six characters that carry markup.
pub open spec fn is_special(c: char) -> bool {
    c == '*' || c == '(' || c == ')' || c == '[' || c == ']' || c == '\n'
}

/// The length of the longest prefix of `s` that holds no special character.
pub open spec fn text_run_len(s: Seq<char>) -> nat
    decreases s.len(),
{
    if s.len() == 0 || is_special(s[0]) {
        0
    } else {
        1 + text_run_len(s.drop_first())
    }
}

/// How many characters the first token of `s` takes.
pub open spec fn first_len(s: Seq<char>) -> nat {
    if (s[0] == '*' && s.len() > 1 && s[1] == '*') || (s[0] == ']' && s.len() > 1 && s[1] == '(') {
        2
    } else if is_special(s[0]) {
        1
    } else {
        text_run_len(s)
    }
}

/// The first token of a non-empty `s`.
pub open spec fn first_token(s: Seq<char>) -> TokenView {
    if s[0] == '*' {
        if s.len() > 1 && s[1] == '*' {
            TokenView::DoubleAsterisk
        } else {
            TokenView::Asterisk
        }
    } else if s[0] == '[' {
        TokenView::OpenSquareBrace
    } else if s[0] == ']' {
        if s.len() > 1 && s[1] == '(' {
            TokenView::LinkMiddle
        } else {
            TokenView::Text(seq![']'])
        }
    } else if s[0] == ')' {
        TokenView::CloseRoundBrace
    } else if s[0] == '(' {
        TokenView::Text(seq!['('])
    } else if s[0] == '\n' {
        TokenView::LineBreak
    } else {
        TokenView::Text(s.take(text_run_len(s) as int))
    }
}

/// The token sequence of a raw markup string, read left to right with one
/// character of lookahead.
pub open spec fn tokens_of(s: Seq<char>) -> Seq<TokenView>
    decreases s.len()
    via tokens_of_decreases
{
    if s.len() == 0 {
        Seq::empty()
    } else {
        seq![first_token(s)] + tokens_of(s.skip(first_len(s) as int))
    }
}

pub(crate) proof fn lemma_text_run_len_bound(s: Seq<char>)
    ensures
        text_run_len(s) <= s.len(),
    decreases s.len(),
{
    if s.len() > 0 && !is_special(s[0]) {
        lemma_text_run_len_bound(s.drop_first());
    }
}

pub proof fn lemma_first_len(s: Seq<char>)
    requires
        s.len() > 0,
    ensures
        1 <= first_len(s) <= s.len(),
{
    lemma_text_run_len_bound(s);
    if !is_special(s[0]) {
        assert(text_run_len(s) == 1 + text_run_len(s.drop_first()));
    }
}

#[via_fn]
proof fn tokens_of_decreases(s: Seq<char>) {
    if s.len() > 0 {
        lemma_first_len(s);
    }
}

fn is_special_char(ch: char) -> (r: bool)
    ensures
        r == is_special(ch),
{
    ch == '*' || ch == '(' || ch == ')' || ch == '[' || ch == ']' || ch == '\n'
}

fn is_plain_char(ch: char) -> (r: bool)
    ensures
        r == !is_special(ch),
{
    !is_special_char(ch)
}

/// Relies on std's `str::chars`: the characters of the string in order.
#[verifier::external_body]
fn chars_of(text: &str) -> (r: Vec<char>)
    ensures
        r@ == text@,
{
    text.chars().collect()
}

/// Relies on std's `FromIterator<char>` for `String`: the characters in order.
#[verifier::external_body]
fn string_of(chars: &Vec<char>) -> (r: String)
    ensures
        r@ == chars@,
{
    chars.iter().collect()
}

/// Relies on itertools' `take_while_ref`: it yields the leading items for which
/// the predicate holds and leaves the first one that fails unconsumed.
#[verifier::external_body]
fn leading_plain(chars: &Vec<char>, start: usize) -> (r: Vec<char>)
    requires
        start <= chars@.len(),
    ensures
        r@.len() <= chars@.skip(start as int).len(),
        r@ == chars@.skip(start as int).take(r@.len() as int),
        forall|k: int| 0 <= k < r@.len() ==> !is_special(#[trigger] r@[k]),
        r@.len() < chars@.skip(start as int).len() ==> is_special(
            chars@.skip(start as int)[r@.len() as int],
        ),
{
    let mut it = chars[start..].iter().copied();
    it.take_while_ref(|c| is_plain_char(*c)).collect()
}

pub(crate) proof fn lemma_text_run_len(s: Seq<char>, n: nat)
    requires
        n <= s.len(),
        forall|k: int| 0 <= k < n ==> !is_special(#[trigger] s[k]),
        n < s.len() ==> is_special(s[n as int]),
    ensures
        text_run_len(s) == n,
    decreases n,
{
    if n > 0 {
        assert forall|k: int| 0 <= k < n - 1 implies !is_special(#[trigger] s.drop_first()[k]) by {
            assert(s.drop_first()[k] == s[k + 1]);
        }
        lemma_text_run_len(s.drop_first(), (n - 1) as nat);
    }
}

proof fn lemma_push_view(ts: Seq<Token>, t: Token)
    ensures
        tokens_view(ts.push(t)) == tokens_view(ts) + seq![t@],
{
    assert(tokens_view(ts.push(t)) =~= tokens_view(ts) + seq![t@]);
}

/// Splits raw markup into tokens.
///
/// `*` followed by `*` is one `DoubleAsterisk`; `]` followed by `(` is one
/// `LinkMiddle`; a lone `]` and every `(` become one-character text; `)` is
/// always `CloseRoundBrace`; each maximal run of other characters is one text
/// token. Every character of `text` lands in exactly one token.
pub fn tokenize(text: &str) -> (r: Tokens)
    ensures
        tokens_view(r@) == tokens_of(text@),
{
    let cs = chars_of(text);
    let mut tokens: Tokens = Vec::new();
    let mut i: usize = 0;
    proof {
        assert(cs@.skip(0) =~= cs@);
        assert(tokens_view(tokens@) =~= Seq::<TokenView>::empty());
    }
    while i < cs.len()
        invariant
            i <= cs@.len(),
            cs@ == text@,
            tokens_view(tokens@) + tokens_of(cs@.skip(i as int)) == tokens_of(text@),
        decreases cs@.len() - i,
    {
        let ghost rest = cs@.skip(i as int);
        let ghost before = tokens@;
        assert(rest[0] == cs@[i as int]);
        let c = cs[i];
        let tok: Token;
        let step: usize;
        if c == '*' {
            if i + 1 < cs.len() && cs[i + 1] == '*' {
                assert(rest[1] == cs@[i + 1]);
                tok = Token::DoubleAsterisk;
                step = 2;
            } else {
                tok = Token::Asterisk;
                step = 1;
            }
        } else if c == '[' {
            tok = Token::OpenSquareBrace;
            step = 1;
        } else if c == ']' {
            if i + 1 < cs.len() && cs[i + 1] == '(' {
                assert(rest[1] == cs@[i + 1]);
                tok = Token::LinkMiddle;
                step = 2;
            } else {
                proof {
                    reveal_strlit("]");
                }
                let lit = "]".to_owned();
                assert(lit@ =~= seq![']']);
                tok = Token::Text(lit);
                step = 1;
            }
        } else if c == ')' {
            tok = Token::CloseRoundBrace;
            step = 1;
        } else if c == '(' {
            proof {
                reveal_strlit("(");
            }
            let lit = "(".to_owned();
            assert(lit@ =~= seq!['(']);
            tok = Token::Text(lit);
            step = 1;
        } else if c == '\n' {
            tok = Token::LineBreak;
            step = 1;
        } else {
            let run = leading_plain(&cs, i);
            proof {
                assert forall|k: int| 0 <= k < run@.len() implies !is_special(#[trigger] rest[k]) by {
                    assert(rest[k] == run@[k]);
                }
                if run@.len() == 0 {
                    assert(is_special(rest[0]));
                }
                lemma_text_run_len(rest, run@.len());
            }
            tok = Token::Text(string_of(&run));
            step = run.len();
        }
        tokens.push(tok);
        proof {
            lemma_push_view(before, tok);
            assert(rest.skip(step as int) =~= cs@.skip(i + step));
            assert(tokens_view(tokens@) + tokens_of(cs@.skip(i + step)) =~= tokens_view(before)
                + tokens_of(rest));
        }
        i = i + step;
    }
    proof {
        assert(cs@.skip(i as int) =~= Seq::<char>::empty());
        assert(tokens_view(tokens@) + Seq::<TokenView>::empty() =~= tokens_view(tokens@));
    }
    tokens
}

} // verus!
