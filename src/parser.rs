use vstd::prelude::*;
use vstd::string::StringExecFns;
use crate::token::{Token, TokenView, Tokens, tokens_view};
use crate::markdown::{Break, Markdown, MarkdownView, Span, Style, StyleSpan, StyleSpanView, StyleView};

verus! {

/// The index of the segment before the `n`-th one. With no segment before
/// it, the index wraps to `usize::MAX`: such a span covers no segment.
pub open spec fn last_before(n: nat) -> nat {
    if n == 0 {
        usize::MAX as nat
    } else {
        (n - 1) as nat
    }
}

/// What the parser carries from one token to the next.
pub struct ParseState {
    pub doc: MarkdownView,
    pub italic: Option<nat>,
    pub bold: Option<nat>,
    pub link_start: Option<nat>,
    pub link_end: nat,
    pub in_target: bool,
    pub target: Seq<char>,
}

pub open spec fn initial_state() -> ParseState {
    ParseState {
        doc: MarkdownView::empty(),
        italic: None,
        bold: None,
        link_start: None,
        link_end: 0,
        in_target: false,
        target: Seq::empty(),
    }
}

/// Emits a span of `style` from `start` up to the last segment produced so far.
pub open spec fn close_span(doc: MarkdownView, start: nat, style: StyleView) -> MarkdownView {
    MarkdownView {
        styles: doc.styles.push(
            StyleSpanView { start, end: last_before(doc.text.len()), style },
        ),
        ..doc
    }
}

/// The effect of one token on the parser's state.
///
/// The `)` that ends a link target closes the link, so the next `[` opens a
/// new one; a target that no `[` opened gives no span.
pub open spec fn parse_step(st: ParseState, t: TokenView) -> ParseState {
    let cur = st.doc.text.len();
    match t {
        TokenView::Text(s) => if st.in_target {
            ParseState { target: st.target + s, ..st }
        } else {
            ParseState { doc: MarkdownView { text: st.doc.text.push(s), ..st.doc }, ..st }
        },
        TokenView::Asterisk => match st.italic {
            Some(b) => ParseState {
                doc: close_span(st.doc, b, StyleView::Italic),
                italic: None,
                ..st
            },
            None => ParseState { italic: Some(cur), ..st },
        },
        TokenView::DoubleAsterisk => match st.bold {
            Some(b) => ParseState { doc: close_span(st.doc, b, StyleView::Bold), bold: None, ..st },
            None => ParseState { bold: Some(cur), ..st },
        },
        TokenView::OpenSquareBrace => if st.link_start is None {
            ParseState { link_start: Some(cur), ..st }
        } else {
            st
        },
        TokenView::LinkMiddle => ParseState { link_end: last_before(cur), in_target: true, ..st },
        TokenView::CloseRoundBrace => if st.in_target {
            let doc = match st.link_start {
                Some(b) => MarkdownView {
                    styles: st.doc.styles.push(
                        StyleSpanView { start: b, end: st.link_end, style: StyleView::Link(st.target) },
                    ),
                    ..st.doc
                },
                None => st.doc,
            };
            ParseState { doc, link_start: None, in_target: false, target: Seq::empty(), ..st }
        } else {
            st
        },
        TokenView::LineBreak => ParseState {
            doc: MarkdownView { breaks: st.doc.breaks.push(cur), ..st.doc },
            ..st
        },
    }
}

/// The state after feeding `ts` in order, starting from `st`.
pub open spec fn parse_from(st: ParseState, ts: Seq<TokenView>) -> ParseState
    decreases ts.len(),
{
    if ts.len() == 0 {
        st
    } else {
        parse_step(parse_from(st, ts.drop_last()), ts.last())
    }
}

/// The document that a token sequence parses to.
pub open spec fn parse_doc(ts: Seq<TokenView>) -> MarkdownView {
    parse_from(initial_state(), ts).doc
}

/// The executable scan state; its view is a `ParseState`.
struct Scan {
    doc: Markdown,
    italic: Option<usize>,
    bold: Option<usize>,
    link_start: Option<usize>,
    link_end: usize,
    in_target: bool,
    target: String,
}

pub open spec fn opt_nat(o: Option<usize>) -> Option<nat> {
    match o {
        Some(v) => Some(v as nat),
        None => None,
    }
}

impl View for Scan {
    type V = ParseState;

    closed spec fn view(&self) -> ParseState {
        ParseState {
            doc: self.doc@,
            italic: opt_nat(self.italic),
            bold: opt_nat(self.bold),
            link_start: opt_nat(self.link_start),
            link_end: self.link_end as nat,
            in_target: self.in_target,
            target: self.target@,
        }
    }
}

fn last_before_exec(n: usize) -> (r: usize)
    ensures
        r as nat == last_before(n as nat),
{
    if n == 0 {
        usize::MAX
    } else {
        n - 1
    }
}

impl Scan {
    fn new() -> (r: Scan)
        ensures
            r@ == initial_state(),
    {
        let r = Scan {
            doc: Markdown { text: Vec::new(), styles: Vec::new(), breaks: Vec::new() },
            italic: None,
            bold: None,
            link_start: None,
            link_end: 0,
            in_target: false,
            target: String::new(),
        };
        assert(r.doc@.text =~= Seq::<Seq<char>>::empty());
        assert(r.doc@.styles =~= Seq::<StyleSpanView>::empty());
        assert(r.doc@.breaks =~= Seq::<nat>::empty());
        r
    }

    fn push_style(&mut self, span: Span, style: Style)
        ensures
            final(self)@ == (ParseState {
                doc: MarkdownView {
                    styles: old(self)@.doc.styles.push(
                        StyleSpanView { start: span.start as nat, end: span.end as nat, style: style@ },
                    ),
                    ..old(self)@.doc
                },
                ..old(self)@
            }),
    {
        let ghost before = self.doc.styles@;
        self.doc.styles.push(StyleSpan { span, style });
        assert(self.doc.styles@.map_values(|s: StyleSpan| s@) =~= before.map_values(
            |s: StyleSpan| s@,
        ).push(StyleSpanView { start: span.start as nat, end: span.end as nat, style: style@ }));
    }

    fn feed(&mut self, tok: &Token)
        ensures
            final(self)@ == parse_step(old(self)@, tok@),
    {
        let cur = self.doc.text.len();
        match tok {
            Token::Text(s) => {
                if self.in_target {
                    self.target.append(s.as_str());
                } else {
                    let ghost before = self.doc.text@;
                    self.doc.text.push(s.clone());
                    assert(self.doc.text@.map_values(|s: String| s@) =~= before.map_values(
                        |s: String| s@,
                    ).push(s@));
                }
            },
            Token::Asterisk => {
                match self.italic {
                    Some(b) => {
                        self.push_style(Span { start: b, end: last_before_exec(cur) }, Style::Italic);
                        self.italic = None;
                    },
                    None => {
                        self.italic = Some(cur);
                    },
                }
            },
            Token::DoubleAsterisk => {
                match self.bold {
                    Some(b) => {
                        self.push_style(Span { start: b, end: last_before_exec(cur) }, Style::Bold);
                        self.bold = None;
                    },
                    None => {
                        self.bold = Some(cur);
                    },
                }
            },
            Token::OpenSquareBrace => {
                if self.link_start.is_none() {
                    self.link_start = Some(cur);
                }
            },
            Token::LinkMiddle => {
                self.link_end = last_before_exec(cur);
                self.in_target = true;
            },
            Token::CloseRoundBrace => {
                if self.in_target {
                    let target = self.target.clone();
                    self.target = String::new();
                    if let Some(b) = self.link_start {
                        self.push_style(Span { start: b, end: self.link_end }, Style::Link { target });
                    }
                    self.link_start = None;
                    self.in_target = false;
                }
            },
            Token::LineBreak => {
                let ghost before = self.doc.breaks@;
                self.doc.breaks.push(Break { pos: cur });
                assert(self.doc.breaks@.map_values(|b: Break| b.pos as nat) =~= before.map_values(
                    |b: Break| b.pos as nat,
                ).push(cur as nat));
            },
        }
    }
}

/// Parses a token sequence into a document.
///
/// Text outside a link target becomes a segment; `*` and `**` toggle italic
/// and bold independently, so their spans may cross; `[`, `](` and `)` make a
/// link span whose target is the text between `](` and `)`; a line break
/// records the index of the next segment. Markers left open at the end give
/// no span, and a `)` outside a link target is dropped.
pub fn parse(tokens: Tokens) -> (r: Markdown)
    ensures
        r@ == parse_doc(tokens_view(tokens@)),
{
    let mut scan = Scan::new();
    let mut i: usize = 0;
    let ghost tv = tokens_view(tokens@);
    proof {
        assert(tv.take(0) =~= Seq::<TokenView>::empty());
    }
    while i < tokens.len()
        invariant
            i <= tokens@.len(),
            tv == tokens_view(tokens@),
            scan@ == parse_from(initial_state(), tv.take(i as int)),
        decreases tokens@.len() - i,
    {
        scan.feed(&tokens[i]);
        proof {
            assert(tv.take(i + 1).drop_last() =~= tv.take(i as int));
        }
        i = i + 1;
    }
    proof {
        assert(tv.take(i as int) =~= tv);
    }
    scan.doc
}

} // verus!
