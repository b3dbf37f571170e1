use vstd::prelude::*;
use crate::token::TokenView;
use crate::tokenizer::{
    first_len, first_token, is_special, lemma_first_len, lemma_text_run_len, lemma_text_run_len_bound, text_run_len,
    tokens_of,
};
use crate::markdown::MarkdownView;
use crate::parser::{initial_state, parse_doc, parse_from, parse_step, ParseState};

verus! {

/// Feeding two token sequences one after the other is feeding their concatenation.
pub proof fn lemma_parse_from_append(st: ParseState, a: Seq<TokenView>, b: Seq<TokenView>)
    ensures
        parse_from(st, a + b) == parse_from(parse_from(st, a), b),
    decreases b.len(),
{
    if b.len() == 0 {
        assert(a + b =~= a);
    } else {
        assert((a + b).drop_last() =~= a + b.drop_last());
        lemma_parse_from_append(st, a, b.drop_last());
    }
}

/// A string that holds no markup character tokenizes to one text token equal
/// to it, which parses to one segment equal to it, with no style and no break.
pub proof fn lemma_plain_text(s: Seq<char>)
    requires
        s.len() > 0,
        forall|k: int| 0 <= k < s.len() ==> !is_special(#[trigger] s[k]),
    ensures
        tokens_of(s) == seq![TokenView::Text(s)],
        parse_doc(tokens_of(s)) == (MarkdownView {
            text: seq![s],
            styles: Seq::empty(),
            breaks: Seq::empty(),
        }),
{
    lemma_text_run_len(s, s.len());
    assert(s.take(s.len() as int) =~= s);
    assert(s.skip(s.len() as int) =~= Seq::<char>::empty());
    assert(tokens_of(s.skip(s.len() as int)) == Seq::<TokenView>::empty());
    assert(tokens_of(s) =~= seq![TokenView::Text(s)]);
    let ts = seq![TokenView::Text(s)];
    assert(ts.drop_last() =~= Seq::<TokenView>::empty());
    assert(parse_from(initial_state(), ts.drop_last()) == initial_state());
    assert(parse_from(initial_state(), ts) == parse_step(initial_state(), TokenView::Text(s)));
    assert(parse_doc(ts).text =~= seq![s]);
    assert(parse_doc(ts).styles =~= Seq::empty());
    assert(parse_doc(ts).breaks =~= Seq::empty());
}

/// The payload of each text token that `s` yields is non-empty and
/// tokenizes back to that same single text token: no markup hides inside it.
pub proof fn lemma_text_payload_stable(s: Seq<char>)
    ensures
        forall|i: int|
            0 <= i < tokens_of(s).len() && (#[trigger] tokens_of(s)[i]) is Text ==> {
                let t = tokens_of(s)[i]->Text_0;
                t.len() > 0 && tokens_of(t) == seq![TokenView::Text(t)]
            },
    decreases s.len(),
{
    if s.len() > 0 {
        lemma_first_len(s);
        let rest = s.skip(first_len(s) as int);
        lemma_text_payload_stable(rest);
        let h = first_token(s);
        if h is Text {
            let t = h->Text_0;
            if s[0] == ']' || s[0] == '(' {
                assert(t.len() == 1);
                assert(t.skip(1) =~= Seq::<char>::empty());
                assert(tokens_of(t.skip(1)) == Seq::<TokenView>::empty());
                assert(tokens_of(t) =~= seq![TokenView::Text(t)]);
            } else {
                let n = text_run_len(s);
                assert(n == 1 + text_run_len(s.drop_first()));
                assert forall|k: int| 0 <= k < t.len() implies !is_special(#[trigger] t[k]) by {
                    lemma_run_plain(s, k);
                }
                lemma_plain_text(t);
            }
        }
        assert forall|i: int|
            0 <= i < tokens_of(s).len() && (#[trigger] tokens_of(s)[i]) is Text implies {
                let t = tokens_of(s)[i]->Text_0;
                t.len() > 0 && tokens_of(t) == seq![TokenView::Text(t)]
            } by {
            if i > 0 {
                assert(tokens_of(s)[i] == tokens_of(rest)[i - 1]);
            }
        }
    }
}

proof fn lemma_run_plain(s: Seq<char>, k: int)
    requires
        0 <= k < text_run_len(s),
    ensures
        !is_special(s[k]),
    decreases k,
{
    lemma_text_run_len_bound(s);
    if s.len() == 0 || is_special(s[0]) {
        assert(text_run_len(s) == 0);
    } else if k > 0 {
        lemma_run_plain(s.drop_first(), k - 1);
        assert(s.drop_first()[k - 1] == s[k]);
    }
}

/// Each segment of a parsed document is the payload of one of its text tokens.
proof fn lemma_segments_are_payloads(ts: Seq<TokenView>)
    ensures
        forall|j: int|
            0 <= j < parse_doc(ts).text.len() ==> exists|i: int|
                0 <= i < ts.len() && ts[i] == TokenView::Text(#[trigger] parse_doc(ts).text[j]),
    decreases ts.len(),
{
    if ts.len() > 0 {
        let init = ts.drop_last();
        lemma_segments_are_payloads(init);
        let prev = parse_doc(init);
        assert forall|j: int| 0 <= j < parse_doc(ts).text.len() implies exists|i: int|
            0 <= i < ts.len() && ts[i] == TokenView::Text(#[trigger] parse_doc(ts).text[j]) by {
            if j < prev.text.len() {
                assert(parse_doc(ts).text[j] == prev.text[j]);
                let i = choose|i: int| 0 <= i < init.len() && init[i] == TokenView::Text(prev.text[j]);
                assert(ts[i] == init[i]);
            } else {
                assert(ts[ts.len() - 1] == ts.last());
            }
        }
    }
}

/// Each segment of the document parsed from `s` is non-empty and tokenizes
/// to one text token equal to it: a segment holds no markup.
pub proof fn lemma_segments_stable(s: Seq<char>)
    ensures
        forall|j: int|
            0 <= j < parse_doc(tokens_of(s)).text.len() ==> {
                let t = #[trigger] parse_doc(tokens_of(s)).text[j];
                t.len() > 0 && tokens_of(t) == seq![TokenView::Text(t)]
            },
{
    lemma_segments_are_payloads(tokens_of(s));
    lemma_text_payload_stable(s);
    assert forall|j: int| 0 <= j < parse_doc(tokens_of(s)).text.len() implies {
        let t = #[trigger] parse_doc(tokens_of(s)).text[j];
        t.len() > 0 && tokens_of(t) == seq![TokenView::Text(t)]
    } by {
        let t = parse_doc(tokens_of(s)).text[j];
        let i = choose|i: int| 0 <= i < tokens_of(s).len() && tokens_of(s)[i] == TokenView::Text(t);
        assert(tokens_of(s)[i] is Text);
    }
}

/// The characters a token was read from.
pub open spec fn token_chars(t: TokenView) -> Seq<char> {
    match t {
        TokenView::Text(s) => s,
        TokenView::Asterisk => seq!['*'],
        TokenView::DoubleAsterisk => seq!['*', '*'],
        TokenView::OpenSquareBrace => seq!['['],
        TokenView::LinkMiddle => seq![']', '('],
        TokenView::CloseRoundBrace => seq![')'],
        TokenView::LineBreak => seq!['\n'],
    }
}

/// The characters of a token sequence, joined in order.
pub open spec fn tokens_chars(ts: Seq<TokenView>) -> Seq<char>
    decreases ts.len(),
{
    if ts.len() == 0 {
        Seq::empty()
    } else {
        token_chars(ts[0]) + tokens_chars(ts.drop_first())
    }
}

/// Tokenizing loses no character: the tokens of `s`, written back out, are `s`.
pub proof fn lemma_tokens_cover_input(s: Seq<char>)
    ensures
        tokens_chars(tokens_of(s)) == s,
    decreases s.len(),
{
    if s.len() == 0 {
        assert(tokens_of(s) == Seq::<TokenView>::empty());
    } else {
        lemma_first_len(s);
        let k = first_len(s);
        let rest = s.skip(k as int);
        lemma_tokens_cover_input(rest);
        let ts = tokens_of(s);
        assert(ts[0] == first_token(s));
        assert(ts.drop_first() =~= tokens_of(rest));
        if !is_special(s[0]) {
            assert(first_token(s) == TokenView::Text(s.take(k as int)));
        } else if k == 2 {
            assert(token_chars(first_token(s)) =~= s.take(2));
        } else {
            assert(token_chars(first_token(s)) =~= s.take(1));
        }
        assert(s.take(k as int) + rest =~= s);
    }
}

/// Every index a document holds names a segment, or the gap after the last
/// one: a break stands at most at the number of segments; a span starts at
/// most there and ends at an existing segment, or wraps to `usize::MAX` when
/// no segment precedes its closing marker.
pub open spec fn indices_in_range(d: MarkdownView) -> bool {
    &&& forall|i: int| 0 <= i < d.breaks.len() ==> #[trigger] d.breaks[i] <= d.text.len()
    &&& forall|i: int|
        0 <= i < d.styles.len() ==> (#[trigger] d.styles[i]).start <= d.text.len() && (
        d.styles[i].end < d.text.len() || d.styles[i].end == usize::MAX)
}

pub open spec fn state_in_range(st: ParseState) -> bool {
    let n = st.doc.text.len();
    &&& indices_in_range(st.doc)
    &&& st.italic matches Some(v) ==> v <= n
    &&& st.bold matches Some(v) ==> v <= n
    &&& st.link_start matches Some(v) ==> v <= n
    &&& st.in_target ==> st.link_end < n || st.link_end == usize::MAX
}

proof fn lemma_step_in_range(st: ParseState, t: TokenView)
    requires
        state_in_range(st),
    ensures
        state_in_range(parse_step(st, t)),
{
    let n = st.doc.text.len();
    let st1 = parse_step(st, t);
    assert forall|i: int| 0 <= i < st1.doc.breaks.len() implies #[trigger] st1.doc.breaks[i]
        <= st1.doc.text.len() by {
        if i < st.doc.breaks.len() {
            assert(st1.doc.breaks[i] == st.doc.breaks[i]);
        }
    }
    assert forall|i: int| 0 <= i < st1.doc.styles.len() implies (#[trigger] st1.doc.styles[i]).start
        <= st1.doc.text.len() && (st1.doc.styles[i].end < st1.doc.text.len()
        || st1.doc.styles[i].end == usize::MAX) by {
        if i < st.doc.styles.len() {
            assert(st1.doc.styles[i] == st.doc.styles[i]);
        }
    }
}

proof fn lemma_parse_from_in_range(ts: Seq<TokenView>)
    ensures
        state_in_range(parse_from(initial_state(), ts)),
    decreases ts.len(),
{
    if ts.len() > 0 {
        lemma_parse_from_in_range(ts.drop_last());
        lemma_step_in_range(parse_from(initial_state(), ts.drop_last()), ts.last());
    }
}

/// Whatever the tokens, the indices of the document they parse to are in range.
pub proof fn lemma_document_indices(ts: Seq<TokenView>)
    ensures
        indices_in_range(parse_doc(ts)),
{
    lemma_parse_from_in_range(ts);
}

/// The segments of a document joined in order.
pub open spec fn concat(ss: Seq<Seq<char>>) -> Seq<char>
    decreases ss.len(),
{
    if ss.len() == 0 {
        Seq::empty()
    } else {
        concat(ss.drop_last()) + ss.last()
    }
}

/// The characters of `s` that reach a document's text when reading starts
/// inside a link target or not: all but `*`, `[`, `)`, line breaks, the pair
/// `](`, and the characters of link targets (between a `](` and the next `)`).
pub open spec fn visible_chars(s: Seq<char>, in_target: bool) -> Seq<char>
    decreases s.len(),
{
    if s.len() == 0 {
        Seq::empty()
    } else if s[0] == ']' && s.len() > 1 && s[1] == '(' {
        visible_chars(s.drop_first().drop_first(), true)
    } else if s[0] == ')' {
        visible_chars(s.drop_first(), false)
    } else if s[0] == '*' || s[0] == '[' || s[0] == '\n' {
        visible_chars(s.drop_first(), in_target)
    } else {
        (if in_target {
            Seq::empty()
        } else {
            seq![s[0]]
        }) + visible_chars(s.drop_first(), in_target)
    }
}

/// The number of line breaks in `s`.
pub open spec fn newline_count(s: Seq<char>) -> nat
    decreases s.len(),
{
    if s.len() == 0 {
        0
    } else {
        (if s[0] == '\n' {
            1nat
        } else {
            0nat
        }) + newline_count(s.drop_first())
    }
}

proof fn lemma_plain_run(s: Seq<char>, n: nat, m: bool)
    requires
        n <= s.len(),
        forall|k: int| 0 <= k < n ==> !is_special(#[trigger] s[k]),
    ensures
        visible_chars(s, m) == (if m {
            Seq::empty()
        } else {
            s.take(n as int)
        }) + visible_chars(s.skip(n as int), m),
        newline_count(s) == newline_count(s.skip(n as int)),
    decreases n,
{
    if n == 0 {
        assert(s.skip(0) =~= s);
        assert(s.take(0) =~= Seq::<char>::empty());
        assert(Seq::<char>::empty() + visible_chars(s, m) =~= visible_chars(s, m));
    } else {
        let t = s.drop_first();
        assert forall|k: int| 0 <= k < n - 1 implies !is_special(#[trigger] t[k]) by {
            assert(t[k] == s[k + 1]);
        }
        lemma_plain_run(t, (n - 1) as nat, m);
        assert(t.skip(n - 1) =~= s.skip(n as int));
        assert(!is_special(s[0]));
        if m {
            assert(Seq::<char>::empty() + visible_chars(t, m) =~= visible_chars(t, m));
        } else {
            assert(s.take(n as int) =~= seq![s[0]] + t.take(n - 1));
            assert(seq![s[0]] + (t.take(n - 1) + visible_chars(s.skip(n as int), m)) =~= s.take(
                n as int,
            ) + visible_chars(s.skip(n as int), m));
        }
    }
}

proof fn lemma_concat_push(ss: Seq<Seq<char>>, x: Seq<char>)
    ensures
        concat(ss.push(x)) == concat(ss) + x,
{
    assert(ss.push(x).drop_last() =~= ss);
}

/// Parsing the tokens of `s` from any state adds to its text the visible
/// characters of `s`, and one break per line break of `s`.
proof fn lemma_text_and_breaks_from(st: ParseState, s: Seq<char>)
    ensures
        concat(parse_from(st, tokens_of(s)).doc.text) == concat(st.doc.text) + visible_chars(
            s,
            st.in_target,
        ),
        parse_from(st, tokens_of(s)).doc.breaks.len() == st.doc.breaks.len() + newline_count(s),
    decreases s.len(),
{
    if s.len() == 0 {
        assert(tokens_of(s) == Seq::<TokenView>::empty());
        assert(concat(st.doc.text) + Seq::<char>::empty() =~= concat(st.doc.text));
    } else {
        lemma_first_len(s);
        let k = first_len(s);
        let h = first_token(s);
        let rest = s.skip(k as int);
        let hs = seq![h];
        assert(tokens_of(s) == hs + tokens_of(rest));
        lemma_parse_from_append(st, hs, tokens_of(rest));
        assert(hs.drop_last() =~= Seq::<TokenView>::empty());
        assert(parse_from(st, hs.drop_last()) == st);
        let st1 = parse_step(st, h);
        assert(parse_from(st, hs) == st1);
        lemma_text_and_breaks_from(st1, rest);
        let d = s.drop_first();
        assert(s.skip(1) =~= d);
        if k == 2 && is_special(s[0]) {
            assert(s.skip(2) =~= d.drop_first());
            assert(d[0] == s[1]);
            assert(newline_count(d) == newline_count(d.drop_first()));
            if s[0] == '*' {
                assert(visible_chars(d, st.in_target) == visible_chars(d.drop_first(), st.in_target));
            }
            assert(visible_chars(s, st.in_target) == visible_chars(rest, st1.in_target));
        }
        if !is_special(s[0]) {
            let n = text_run_len(s);
            assert forall|j: int| 0 <= j < n implies !is_special(#[trigger] s[j]) by {
                lemma_run_plain(s, j);
            }
            lemma_plain_run(s, n, st.in_target);
            if !st.in_target {
                lemma_concat_push(st.doc.text, s.take(n as int));
                assert(concat(st1.doc.text) == concat(st.doc.text) + s.take(n as int));
            } else {
                assert(Seq::<char>::empty() + visible_chars(rest, true) =~= visible_chars(rest, true));
            }
        } else if h is Text {
            if !st.in_target {
                lemma_concat_push(st.doc.text, seq![s[0]]);
                assert(h->Text_0 =~= seq![s[0]]);
                assert(visible_chars(s, false) == seq![s[0]] + visible_chars(rest, false));
            } else {
                assert(Seq::<char>::empty() + visible_chars(d, true) =~= visible_chars(d, true));
            }
        }
        assert(concat(st1.doc.text) + visible_chars(rest, st1.in_target) =~= concat(st.doc.text)
            + visible_chars(s, st.in_target));
    }
}

/// Joining the segments of the document parsed from `s` gives `s` without its
/// markup characters and without its link targets; the document holds one
/// break for each line break of `s`.
pub proof fn lemma_document_text(s: Seq<char>)
    ensures
        concat(parse_doc(tokens_of(s)).text) == visible_chars(s, false),
        parse_doc(tokens_of(s)).breaks.len() == newline_count(s),
{
    lemma_text_and_breaks_from(initial_state(), s);
    assert(concat(Seq::<Seq<char>>::empty()) + visible_chars(s, false) =~= visible_chars(s, false));
}

} // verus!
