use vstd::prelude::*;
use vstd::string::StringExecFns;
use crate::token::{Token, TokenView, tokens_view};

verus! {

/// A link target found in a token sequence.
pub struct Link {
    target: String,
}

pub type Links = Vec<Link>;

impl View for Link {
    type V = Seq<char>;

    closed spec fn view(&self) -> Seq<char> {
        self.target@
    }
}

impl Link {
    pub fn new(target: String) -> (r: Link)
        ensures
            r@ == target@,
    {
        Link { target }
    }

    pub fn target(&self) -> (r: &str)
        ensures
            r@ == self@,
    {
        self.target.as_str()
    }
}

/// The targets of a sequence of links.
pub open spec fn targets(ls: Seq<Link>) -> Seq<Seq<char>> {
    ls.map_values(|l: Link| l@)
}

/// Where the extractor stands within one `[..](..)` occurrence.
pub enum Phase {
    Initial,
    LinkOpened,
    TargetOpened,
}

pub struct ExtractState {
    pub phase: Phase,
    pub target: Seq<char>,
    pub links: Seq<Seq<char>>,
}

pub open spec fn extract_initial() -> ExtractState {
    ExtractState { phase: Phase::Initial, target: Seq::empty(), links: Seq::empty() }
}

/// The effect of one token on the extractor: `[` opens a link, `](` opens its
/// target, text inside the target is collected and `)` emits it. Every
/// other token leaves the state as it is.
pub open spec fn extract_step(st: ExtractState, t: TokenView) -> ExtractState {
    match st.phase {
        Phase::Initial => if t is OpenSquareBrace {
            ExtractState { phase: Phase::LinkOpened, ..st }
        } else {
            st
        },
        Phase::LinkOpened => if t is LinkMiddle {
            ExtractState { phase: Phase::TargetOpened, ..st }
        } else {
            st
        },
        Phase::TargetOpened => match t {
            TokenView::CloseRoundBrace => ExtractState {
                phase: Phase::Initial,
                target: Seq::empty(),
                links: st.links.push(st.target),
            },
            TokenView::Text(s) => ExtractState { target: st.target + s, ..st },
            _ => st,
        },
    }
}

pub open spec fn extract_from(st: ExtractState, ts: Seq<TokenView>) -> ExtractState
    decreases ts.len(),
{
    if ts.len() == 0 {
        st
    } else {
        extract_step(extract_from(st, ts.drop_last()), ts.last())
    }
}

/// The link targets of a token sequence, in order.
pub open spec fn links_of(ts: Seq<TokenView>) -> Seq<Seq<char>> {
    extract_from(extract_initial(), ts).links
}

/// One `[..](..)` occurrence, with the tokens that come before it.
pub struct LinkOccurrence {
    pub before: Seq<TokenView>,
    pub label: Seq<TokenView>,
    pub target: Seq<TokenView>,
}

impl LinkOccurrence {
    pub open spec fn tokens(self) -> Seq<TokenView> {
        self.before + seq![TokenView::OpenSquareBrace] + self.label + seq![TokenView::LinkMiddle]
            + self.target + seq![TokenView::CloseRoundBrace]
    }

    /// Nothing before it opens a link, its label holds no `](` and its
    /// target no `)`; any other token may stand anywhere.
    pub open spec fn well_formed(self) -> bool {
        &&& forall|i: int| 0 <= i < self.before.len() ==> !(#[trigger] self.before[i] is OpenSquareBrace)
        &&& forall|i: int| 0 <= i < self.label.len() ==> !(#[trigger] self.label[i] is LinkMiddle)
        &&& forall|i: int| 0 <= i < self.target.len() ==> !(#[trigger] self.target[i] is CloseRoundBrace)
    }

    /// The text that its target tokens hold.
    pub open spec fn target_text(self) -> Seq<char> {
        text_of(self.target)
    }
}

/// The payloads of the text tokens of `ts`, joined in order.
pub open spec fn text_of(ts: Seq<TokenView>) -> Seq<char>
    decreases ts.len(),
{
    if ts.len() == 0 {
        Seq::empty()
    } else {
        text_of(ts.drop_last()) + match ts.last() {
            TokenView::Text(s) => s,
            _ => Seq::empty(),
        }
    }
}

/// The tokens of several occurrences, one after the other.
pub open spec fn occurrences_tokens(os: Seq<LinkOccurrence>) -> Seq<TokenView>
    decreases os.len(),
{
    if os.len() == 0 {
        Seq::empty()
    } else {
        occurrences_tokens(os.drop_last()) + os.last().tokens()
    }
}

proof fn lemma_extract_from_append(st: ExtractState, a: Seq<TokenView>, b: Seq<TokenView>)
    ensures
        extract_from(st, a + b) == extract_from(extract_from(st, a), b),
    decreases b.len(),
{
    if b.len() == 0 {
        assert(a + b =~= a);
    } else {
        assert((a + b).drop_last() =~= a + b.drop_last());
        lemma_extract_from_append(st, a, b.drop_last());
    }
}

proof fn lemma_extract_one(st: ExtractState, t: TokenView)
    ensures
        extract_from(st, seq![t]) == extract_step(st, t),
{
    assert(seq![t].drop_last() =~= Seq::<TokenView>::empty());
    assert(extract_from(st, seq![t].drop_last()) == st);
}

/// Before a link opens, tokens other than `[` change nothing; after it
/// opens and before its target does, tokens other than `](` change nothing.
proof fn lemma_extract_waiting(st: ExtractState, ts: Seq<TokenView>)
    requires
        st.phase is Initial ==> forall|i: int| 0 <= i < ts.len() ==> !(#[trigger] ts[i] is OpenSquareBrace),
        st.phase is LinkOpened ==> forall|i: int| 0 <= i < ts.len() ==> !(#[trigger] ts[i] is LinkMiddle),
        !(st.phase is TargetOpened),
    ensures
        extract_from(st, ts) == st,
    decreases ts.len(),
{
    if ts.len() > 0 {
        lemma_extract_waiting(st, ts.drop_last());
        assert(ts.last() == ts[ts.len() - 1]);
    }
}

/// Inside a target, the text of tokens other than `)` is collected.
proof fn lemma_extract_target(st: ExtractState, ts: Seq<TokenView>)
    requires
        st.phase is TargetOpened,
        forall|i: int| 0 <= i < ts.len() ==> !(#[trigger] ts[i] is CloseRoundBrace),
    ensures
        extract_from(st, ts) == (ExtractState { target: st.target + text_of(ts), ..st }),
    decreases ts.len(),
{
    if ts.len() == 0 {
        assert(st.target + text_of(ts) =~= st.target);
    } else {
        lemma_extract_target(st, ts.drop_last());
        assert(ts.last() == ts[ts.len() - 1]);
        let prev = st.target + text_of(ts.drop_last());
        match ts.last() {
            TokenView::Text(x) => {
                assert(prev + x =~= st.target + text_of(ts));
            },
            _ => {
                assert(prev =~= st.target + text_of(ts));
            },
        }
    }
}

proof fn lemma_extract_occurrence(links: Seq<Seq<char>>, o: LinkOccurrence)
    requires
        o.well_formed(),
    ensures
        extract_from(
            ExtractState { phase: Phase::Initial, target: Seq::empty(), links },
            o.tokens(),
        ) == (ExtractState {
            phase: Phase::Initial,
            target: Seq::empty(),
            links: links.push(o.target_text()),
        }),
{
    let s0 = ExtractState { phase: Phase::Initial, target: Seq::empty(), links };
    let s1 = ExtractState { phase: Phase::LinkOpened, ..s0 };
    let s2 = ExtractState { phase: Phase::TargetOpened, ..s0 };
    let s3 = ExtractState { target: o.target_text(), ..s2 };
    let p1 = o.before + seq![TokenView::OpenSquareBrace];
    let p2 = p1 + o.label;
    let p3 = p2 + seq![TokenView::LinkMiddle];
    let p4 = p3 + o.target;
    lemma_extract_waiting(s0, o.before);
    lemma_extract_from_append(s0, o.before, seq![TokenView::OpenSquareBrace]);
    lemma_extract_one(s0, TokenView::OpenSquareBrace);
    lemma_extract_waiting(s1, o.label);
    lemma_extract_from_append(s0, p1, o.label);
    lemma_extract_from_append(s0, p2, seq![TokenView::LinkMiddle]);
    lemma_extract_one(s1, TokenView::LinkMiddle);
    lemma_extract_target(s2, o.target);
    assert(Seq::<char>::empty() + o.target_text() =~= o.target_text());
    lemma_extract_from_append(s0, p3, o.target);
    lemma_extract_from_append(s0, p4, seq![TokenView::CloseRoundBrace]);
    lemma_extract_one(s3, TokenView::CloseRoundBrace);
}

/// Between occurrences of well-formed links, and after the last, any tokens
/// that open no link may stand, bold and italic markers among them: the
/// extractor returns the target of each occurrence, one per occurrence, left
/// to right.
pub proof fn lemma_links_of_occurrences(os: Seq<LinkOccurrence>, tail: Seq<TokenView>)
    requires
        forall|i: int| 0 <= i < os.len() ==> (#[trigger] os[i]).well_formed(),
        forall|i: int| 0 <= i < tail.len() ==> !(#[trigger] tail[i] is OpenSquareBrace),
    ensures
        links_of(occurrences_tokens(os) + tail) == os.map_values(|o: LinkOccurrence| o.target_text()),
{
    lemma_extract_occurrences(os);
    let mid = extract_from(extract_initial(), occurrences_tokens(os));
    lemma_extract_from_append(extract_initial(), occurrences_tokens(os), tail);
    lemma_extract_waiting(mid, tail);
}

proof fn lemma_extract_occurrences(os: Seq<LinkOccurrence>)
    requires
        forall|i: int| 0 <= i < os.len() ==> (#[trigger] os[i]).well_formed(),
    ensures
        extract_from(extract_initial(), occurrences_tokens(os)) == (ExtractState {
            phase: Phase::Initial,
            target: Seq::empty(),
            links: os.map_values(|o: LinkOccurrence| o.target_text()),
        }),
    decreases os.len(),
{
    if os.len() == 0 {
        assert(os.map_values(|o: LinkOccurrence| o.target_text()) =~= Seq::<Seq<char>>::empty());
    } else {
        let init = os.drop_last();
        lemma_extract_occurrences(init);
        lemma_extract_from_append(extract_initial(), occurrences_tokens(init), os.last().tokens());
        assert(os.last() == os[os.len() - 1]);
        lemma_extract_occurrence(init.map_values(|o: LinkOccurrence| o.target_text()), os.last());
        assert(init.map_values(|o: LinkOccurrence| o.target_text()).push(os.last().target_text())
            =~= os.map_values(|o: LinkOccurrence| o.target_text()));
    }
}

/// Collects the targets of the links in `tokens`, left to right, without
/// building a document.
pub fn extract_links(tokens: &Vec<Token>) -> (r: Links)
    ensures
        targets(r@) == links_of(tokens_view(tokens@)),
{
    let ghost tv = tokens_view(tokens@);
    let mut links: Links = Vec::new();
    let mut phase = Phase::Initial;
    let mut target = String::new();
    let mut i: usize = 0;
    proof {
        assert(tv.take(0) =~= Seq::<TokenView>::empty());
        assert(targets(links@) =~= Seq::<Seq<char>>::empty());
    }
    while i < tokens.len()
        invariant
            i <= tokens@.len(),
            tv == tokens_view(tokens@),
            (ExtractState { phase, target: target@, links: targets(links@) }) == extract_from(
                extract_initial(),
                tv.take(i as int),
            ),
        decreases tokens@.len() - i,
    {
        let token = &tokens[i];
        assert(tv[i as int] == token@);
        match phase {
            Phase::Initial => {
                if let Token::OpenSquareBrace = token {
                    phase = Phase::LinkOpened;
                }
            },
            Phase::LinkOpened => {
                if let Token::LinkMiddle = token {
                    phase = Phase::TargetOpened;
                }
            },
            Phase::TargetOpened => {
                match token {
                    Token::CloseRoundBrace => {
                        let ghost before = links@;
                        links.push(Link::new(target));
                        target = String::new();
                        phase = Phase::Initial;
                        assert(targets(links@) =~= targets(before).push(links@.last()@));
                    },
                    Token::Text(s) => {
                        target.append(s.as_str());
                    },
                    _ => {},
                }
            },
        }
        proof {
            assert(tv.take(i + 1).drop_last() =~= tv.take(i as int));
        }
        i = i + 1;
    }
    proof {
        assert(tv.take(i as int) =~= tv);
    }
    links
}

} // verus!
