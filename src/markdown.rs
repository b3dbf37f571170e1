use vstd::prelude::*;

verus! {

/// An inclusive range of text segment indices.
#[derive(PartialEq, Eq, Debug, Clone, Copy)]
pub struct Span {
    pub start: usize,
    pub end: usize,
}

#[derive(PartialEq, Eq, Debug, Clone)]
pub enum Style {
    Italic,
    Bold,
    Link { target: String },
}

/// A style applied to the segments of `span`.
#[derive(PartialEq, Eq, Debug, Clone)]
pub struct StyleSpan {
    pub span: Span,
    pub style: Style,
}

/// A line break inserted before the segment at index `pos`.
#[derive(PartialEq, Eq, Debug)]
pub struct Break {
    pub pos: usize,
}

/// A parsed document: plain text segments, the styles laid over them and
/// the positions of line breaks, all indexed by segment.
pub struct Markdown {
    pub text: Vec<String>,
    pub styles: Vec<StyleSpan>,
    pub breaks: Vec<Break>,
}

pub enum StyleView {
    Italic,
    Bold,
    Link(Seq<char>),
}

pub struct StyleSpanView {
    pub start: nat,
    pub end: nat,
    pub style: StyleView,
}

pub struct MarkdownView {
    pub text: Seq<Seq<char>>,
    pub styles: Seq<StyleSpanView>,
    pub breaks: Seq<nat>,
}

impl View for Style {
    type V = StyleView;

    open spec fn view(&self) -> StyleView {
        match self {
            Style::Italic => StyleView::Italic,
            Style::Bold => StyleView::Bold,
            Style::Link { target } => StyleView::Link(target@),
        }
    }
}

impl View for StyleSpan {
    type V = StyleSpanView;

    open spec fn view(&self) -> StyleSpanView {
        StyleSpanView { start: self.span.start as nat, end: self.span.end as nat, style: self.style@ }
    }
}

impl View for Markdown {
    type V = MarkdownView;

    open spec fn view(&self) -> MarkdownView {
        MarkdownView {
            text: self.text@.map_values(|s: String| s@),
            styles: self.styles@.map_values(|s: StyleSpan| s@),
            breaks: self.breaks@.map_values(|b: Break| b.pos as nat),
        }
    }
}

impl MarkdownView {
    pub open spec fn empty() -> MarkdownView {
        MarkdownView { text: Seq::empty(), styles: Seq::empty(), breaks: Seq::empty() }
    }
}

} // verus!
