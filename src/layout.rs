use vstd::prelude::*;
use crate::font::{font_with, font_without, FontStyle};
use crate::markdown::{Markdown, MarkdownView};

verus! {

/// How one segment is drawn: in which font, and how many line breaks follow
/// it (none: the next segment continues the line).
#[derive(PartialEq, Eq, Debug, Clone, Copy, Structural)]
pub struct SegmentLayout {
    pub font: FontStyle,
    pub breaks_after: usize,
}

/// What the layout walk carries from one segment to the next. Styles are
/// taken in the order the document lists them, and only while the next one
/// starts at the current segment; `active` holds the indices of the styles
/// taken and not yet ended.
pub struct LayoutState {
    pub next_style: nat,
    pub next_break: nat,
    pub font: FontStyle,
    pub active: Seq<nat>,
    pub out: Seq<(FontStyle, nat)>,
}

pub open spec fn layout_initial() -> LayoutState {
    LayoutState {
        next_style: 0,
        next_break: 0,
        font: FontStyle::Normal,
        active: Seq::empty(),
        out: Seq::empty(),
    }
}

/// Takes the styles that start at segment `idx`, in list order.
pub open spec fn open_styles(md: MarkdownView, st: LayoutState, idx: nat) -> LayoutState
    decreases md.styles.len() - st.next_style,
{
    if st.next_style < md.styles.len() && md.styles[st.next_style as int].start == idx {
        let s = md.styles[st.next_style as int];
        open_styles(
            md,
            LayoutState {
                next_style: st.next_style + 1,
                font: font_with(st.font, s.style),
                active: st.active.push(st.next_style),
                ..st
            },
            idx,
        )
    } else {
        st
    }
}

/// Ends, in order, the active styles whose span ends at segment `idx`: the
/// font after them, and the styles that stay active.
pub open spec fn close_styles(md: MarkdownView, font: FontStyle, active: Seq<nat>, idx: nat) -> (
    FontStyle,
    Seq<nat>,
)
    decreases active.len(),
{
    if active.len() == 0 {
        (font, Seq::empty())
    } else {
        let (f, kept) = close_styles(md, font, active.drop_last(), idx);
        let j = active.last();
        if md.styles[j as int].end == idx {
            (font_without(f, md.styles[j as int].style), kept)
        } else {
            (f, kept.push(j))
        }
    }
}

/// The number of breaks at position `pos` that stand one after the other
/// from index `from` of `breaks`.
pub open spec fn break_run(breaks: Seq<nat>, from: nat, pos: nat) -> nat
    decreases breaks.len() - from,
{
    if from < breaks.len() && breaks[from as int] == pos {
        1 + break_run(breaks, from + 1, pos)
    } else {
        0
    }
}

/// Lays out segment `idx`.
pub open spec fn layout_step(md: MarkdownView, st: LayoutState, idx: nat) -> LayoutState {
    let o = open_styles(md, st, idx);
    let (f, kept) = close_styles(md, o.font, o.active, idx);
    let n = break_run(md.breaks, o.next_break, idx + 1);
    LayoutState {
        next_style: o.next_style,
        next_break: o.next_break + n,
        font: f,
        active: kept,
        out: o.out.push((o.font, n)),
    }
}

pub open spec fn layout_upto(md: MarkdownView, k: nat) -> LayoutState
    decreases k,
{
    if k == 0 {
        layout_initial()
    } else {
        layout_step(md, layout_upto(md, (k - 1) as nat), (k - 1) as nat)
    }
}

/// The layout of every segment of `md`, in order.
pub open spec fn layout_of(md: MarkdownView) -> Seq<(FontStyle, nat)> {
    layout_upto(md, md.text.len()).out
}

pub open spec fn layouts_view(v: Seq<SegmentLayout>) -> Seq<(FontStyle, nat)> {
    v.map_values(|l: SegmentLayout| (l.font, l.breaks_after as nat))
}

pub open spec fn indices_below(s: Seq<nat>, n: nat) -> bool {
    forall|i: int| 0 <= i < s.len() ==> #[trigger] s[i] < n
}

proof fn lemma_open_styles_bounds(md: MarkdownView, st: LayoutState, idx: nat)
    requires
        st.next_style <= md.styles.len(),
        indices_below(st.active, md.styles.len()),
    ensures
        st.next_style <= open_styles(md, st, idx).next_style <= md.styles.len(),
        indices_below(open_styles(md, st, idx).active, md.styles.len()),
        open_styles(md, st, idx).out == st.out,
        open_styles(md, st, idx).next_break == st.next_break,
    decreases md.styles.len() - st.next_style,
{
    if st.next_style < md.styles.len() && md.styles[st.next_style as int].start == idx {
        let s = md.styles[st.next_style as int];
        let st1 = LayoutState {
            next_style: st.next_style + 1,
            font: font_with(st.font, s.style),
            active: st.active.push(st.next_style),
            ..st
        };
        assert(indices_below(st1.active, md.styles.len())) by {
            assert forall|i: int| 0 <= i < st1.active.len() implies #[trigger] st1.active[i]
                < md.styles.len() by {
                if i < st.active.len() {
                    assert(st1.active[i] == st.active[i]);
                }
            }
        }
        lemma_open_styles_bounds(md, st1, idx);
    }
}

proof fn lemma_close_styles_bounds(md: MarkdownView, font: FontStyle, active: Seq<nat>, idx: nat)
    requires
        indices_below(active, md.styles.len()),
    ensures
        indices_below(close_styles(md, font, active, idx).1, md.styles.len()),
        close_styles(md, font, active, idx).1.len() <= active.len(),
    decreases active.len(),
{
    if active.len() > 0 {
        assert(active.last() == active[active.len() - 1]);
        lemma_close_styles_bounds(md, font, active.drop_last(), idx);
        let kept = close_styles(md, font, active.drop_last(), idx).1;
        assert forall|i: int| 0 <= i < kept.push(active.last()).len() implies #[trigger] kept.push(
            active.last(),
        )[i] < md.styles.len() by {
            if i < kept.len() {
                assert(kept.push(active.last())[i] == kept[i]);
            }
        }
    }
}

proof fn lemma_break_run_bound(breaks: Seq<nat>, from: nat, pos: nat)
    requires
        from <= breaks.len(),
    ensures
        from + break_run(breaks, from, pos) <= breaks.len(),
    decreases breaks.len() - from,
{
    if from < breaks.len() && breaks[from as int] == pos {
        lemma_break_run_bound(breaks, from + 1, pos);
    }
}

proof fn lemma_layout_upto_bounds(md: MarkdownView, k: nat)
    ensures
        layout_upto(md, k).next_style <= md.styles.len(),
        layout_upto(md, k).next_break <= md.breaks.len(),
        indices_below(layout_upto(md, k).active, md.styles.len()),
        layout_upto(md, k).out.len() == k,
    decreases k,
{
    if k > 0 {
        let prev = layout_upto(md, (k - 1) as nat);
        lemma_layout_upto_bounds(md, (k - 1) as nat);
        lemma_open_styles_bounds(md, prev, (k - 1) as nat);
        let o = open_styles(md, prev, (k - 1) as nat);
        lemma_close_styles_bounds(md, o.font, o.active, (k - 1) as nat);
        lemma_break_run_bound(md.breaks, o.next_break, k);
    }
}

/// Lays out the segments of a parsed document: each segment's font follows
/// from the styles active on it, and after it come the line breaks placed
/// before the next segment.
pub fn segment_layout(md: &Markdown) -> (r: Vec<SegmentLayout>)
    ensures
        layouts_view(r@) == layout_of(md@),
{
    let ghost mv = md@;
    let n_text = md.text.len();
    let n_styles = md.styles.len();
    let n_breaks = md.breaks.len();
    let mut out: Vec<SegmentLayout> = Vec::new();
    let mut next_style: usize = 0;
    let mut next_break: usize = 0;
    let mut font = FontStyle::Normal;
    let mut active: Vec<usize> = Vec::new();
    let mut idx: usize = 0;
    proof {
        assert(layouts_view(out@) =~= Seq::<(FontStyle, nat)>::empty());
        assert(active@.map_values(|j: usize| j as nat) =~= Seq::<nat>::empty());
    }
    while idx < n_text
        invariant
            mv == md@,
            n_text == mv.text.len(),
            n_styles == mv.styles.len(),
            n_breaks == mv.breaks.len(),
            idx <= n_text,
            (LayoutState {
                next_style: next_style as nat,
                next_break: next_break as nat,
                font,
                active: active@.map_values(|j: usize| j as nat),
                out: layouts_view(out@),
            }) == layout_upto(mv, idx as nat),
        decreases n_text - idx,
    {
        let ghost st0 = layout_upto(mv, idx as nat);
        proof {
            lemma_layout_upto_bounds(mv, idx as nat);
        }
        // Take the styles that start here.
        while next_style < n_styles && md.styles[next_style].span.start == idx
            invariant
                mv == md@,
                n_styles == mv.styles.len(),
                next_style <= n_styles,
                indices_below(active@.map_values(|j: usize| j as nat), n_styles as nat),
                open_styles(
                    mv,
                    LayoutState {
                        next_style: next_style as nat,
                        next_break: next_break as nat,
                        font,
                        active: active@.map_values(|j: usize| j as nat),
                        out: layouts_view(out@),
                    },
                    idx as nat,
                ) == open_styles(mv, st0, idx as nat),
            decreases n_styles - next_style,
        {
            let ghost before = active@;
            assert(mv.styles[next_style as int] == md.styles@[next_style as int]@);
            font = font.with_style(&md.styles[next_style].style);
            active.push(next_style);
            proof {
                assert(active@.map_values(|j: usize| j as nat) =~= before.map_values(
                    |j: usize| j as nat,
                ).push(next_style as nat));
                let a = active@.map_values(|j: usize| j as nat);
                assert forall|i: int| 0 <= i < a.len() implies #[trigger] a[i] < n_styles by {
                    if i < before.len() {
                        assert(a[i] == before.map_values(|j: usize| j as nat)[i]);
                    }
                }
            }
            next_style = next_style + 1;
        }
        let ghost o = open_styles(mv, st0, idx as nat);
        proof {
            lemma_open_styles_bounds(mv, st0, idx as nat);
        }
        let drawn = font;
        // End the styles whose span ends here.
        let mut kept: Vec<usize> = Vec::new();
        let mut i: usize = 0;
        let ghost act = active@.map_values(|j: usize| j as nat);
        proof {
            assert(act.take(0) =~= Seq::<nat>::empty());
            assert(kept@.map_values(|j: usize| j as nat) =~= Seq::<nat>::empty());
        }
        while i < active.len()
            invariant
                mv == md@,
                n_styles == mv.styles.len(),
                act == active@.map_values(|j: usize| j as nat),
                indices_below(act, n_styles as nat),
                i <= active@.len(),
                (font, kept@.map_values(|j: usize| j as nat)) == close_styles(
                    mv,
                    drawn,
                    act.take(i as int),
                    idx as nat,
                ),
            decreases active@.len() - i,
        {
            let j = active[i];
            assert(act[i as int] == j as nat);
            assert(act.take(i + 1).drop_last() =~= act.take(i as int));
            assert(mv.styles[j as int] == md.styles@[j as int]@);
            if md.styles[j].span.end == idx {
                font = font.without_style(&md.styles[j].style);
            } else {
                let ghost before = kept@;
                kept.push(j);
                assert(kept@.map_values(|j: usize| j as nat) =~= before.map_values(
                    |j: usize| j as nat,
                ).push(j as nat));
            }
            i = i + 1;
        }
        proof {
            assert(act.take(i as int) =~= act);
            lemma_close_styles_bounds(mv, drawn, act, idx as nat);
        }
        active = kept;
        // Count the breaks placed before the next segment.
        let mut count: usize = 0;
        let ghost nb0 = next_break as nat;
        proof {
            lemma_break_run_bound(mv.breaks, nb0, (idx + 1) as nat);
        }
        let next_pos = idx + 1;
        while next_break < n_breaks && md.breaks[next_break].pos == next_pos
            invariant
                mv == md@,
                n_breaks == mv.breaks.len(),
                next_pos == idx + 1,
                nb0 <= next_break <= n_breaks,
                next_break == nb0 + count,
                nb0 + break_run(mv.breaks, nb0, (idx + 1) as nat) <= n_breaks,
                count + break_run(mv.breaks, next_break as nat, (idx + 1) as nat) == break_run(
                    mv.breaks,
                    nb0,
                    (idx + 1) as nat,
                ),
            decreases n_breaks - next_break,
        {
            assert(mv.breaks[next_break as int] == md.breaks@[next_break as int].pos as nat);
            next_break = next_break + 1;
            count = count + 1;
        }
        proof {
            if next_break < n_breaks {
                assert(mv.breaks[next_break as int] == md.breaks@[next_break as int].pos as nat);
            }
        }
        let ghost prev_out = out@;
        out.push(SegmentLayout { font: drawn, breaks_after: count });
        proof {
            assert(layouts_view(out@) =~= layouts_view(prev_out).push((drawn, count as nat)));
        }
        idx = idx + 1;
    }
    out
}

} // verus!
