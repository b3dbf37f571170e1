use vstd::prelude::*;
use crate::markdown::{Style, StyleView};

verus! {

/// The font variant a segment is drawn with.
#[derive(PartialEq, Eq, Hash, Copy, Clone, Debug, Structural)]
pub enum FontStyle {
    Normal,
    Bold,
    Italic,
    BoldItalic,
}

/// The font once `style` starts: italic and bold combine; a link, or a
/// style already present, changes nothing.
pub open spec fn font_with(f: FontStyle, style: StyleView) -> FontStyle {
    match (f, style) {
        (FontStyle::Normal, StyleView::Italic) => FontStyle::Italic,
        (FontStyle::Normal, StyleView::Bold) => FontStyle::Bold,
        (FontStyle::Italic, StyleView::Bold) => FontStyle::BoldItalic,
        (FontStyle::Bold, StyleView::Italic) => FontStyle::BoldItalic,
        _ => f,
    }
}

/// The font once `style` ends: the matching variant is taken away; a link,
/// or a style that is not present, changes nothing.
pub open spec fn font_without(f: FontStyle, style: StyleView) -> FontStyle {
    match (f, style) {
        (FontStyle::BoldItalic, StyleView::Bold) => FontStyle::Italic,
        (FontStyle::BoldItalic, StyleView::Italic) => FontStyle::Bold,
        (FontStyle::Italic, StyleView::Italic) => FontStyle::Normal,
        (FontStyle::Bold, StyleView::Bold) => FontStyle::Normal,
        _ => f,
    }
}

impl FontStyle {
    /// Every font variant, each once.
    pub fn all() -> (r: Vec<FontStyle>)
        ensures
            r@ == seq![FontStyle::Normal, FontStyle::Bold, FontStyle::Italic, FontStyle::BoldItalic],
    {
        let r = vec![FontStyle::Normal, FontStyle::Bold, FontStyle::Italic, FontStyle::BoldItalic];
        assert(r@ =~= seq![FontStyle::Normal, FontStyle::Bold, FontStyle::Italic, FontStyle::BoldItalic]);
        r
    }

    pub fn with_style(self, style: &Style) -> (r: FontStyle)
        ensures
            r == font_with(self, style@),
    {
        match (self, style) {
            (FontStyle::Normal, Style::Italic) => FontStyle::Italic,
            (FontStyle::Normal, Style::Bold) => FontStyle::Bold,
            (FontStyle::Italic, Style::Bold) => FontStyle::BoldItalic,
            (FontStyle::Bold, Style::Italic) => FontStyle::BoldItalic,
            _ => self,
        }
    }

    pub fn without_style(self, style: &Style) -> (r: FontStyle)
        ensures
            r == font_without(self, style@),
    {
        match (self, style) {
            (FontStyle::BoldItalic, Style::Bold) => FontStyle::Italic,
            (FontStyle::BoldItalic, Style::Italic) => FontStyle::Bold,
            (FontStyle::Italic, Style::Italic) => FontStyle::Normal,
            (FontStyle::Bold, Style::Bold) => FontStyle::Normal,
            _ => self,
        }
    }
}

impl std::ops::Add<Style> for FontStyle {
    type Output = FontStyle;

    fn add(self, style: Style) -> (r: FontStyle)
        ensures
            r == font_with(self, style@),
    {
        self.with_style(&style)
    }
}

impl std::ops::Sub<Style> for FontStyle {
    type Output = FontStyle;

    fn sub(self, style: Style) -> (r: FontStyle)
        ensures
            r == font_without(self, style@),
    {
        self.without_style(&style)
    }
}

impl vstd::std_specs::ops::AddSpecImpl<Style> for FontStyle {
    open spec fn obeys_add_spec() -> bool {
        true
    }

    open spec fn add_req(self, style: Style) -> bool {
        true
    }

    open spec fn add_spec(self, style: Style) -> FontStyle {
        font_with(self, style@)
    }
}

impl vstd::std_specs::ops::SubSpecImpl<Style> for FontStyle {
    open spec fn obeys_sub_spec() -> bool {
        true
    }

    open spec fn sub_req(self, style: Style) -> bool {
        true
    }

    open spec fn sub_spec(self, style: Style) -> FontStyle {
        font_without(self, style@)
    }
}

} // verus!
