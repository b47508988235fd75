use vstd::prelude::*;
use crate::document::color::Color;

verus! {

/// Text attributes; `None` leaves an attribute to whatever the text is drawn over.
#[derive(Debug, Clone, Copy, PartialEq, Eq, Structural)]
pub struct Style {
    pub foreground: Option<Color>,
    pub background: Option<Color>,
    pub bold: Option<bool>,
    pub italic: Option<bool>,
    pub underline: Option<bool>,
}

/// White text, not bold, italic or underlined, with no background of its own.
pub open spec fn default_style() -> Style {
    Style {
        foreground: Some(Color { r: 255, g: 255, b: 255 }),
        background: None,
        bold: Some(false),
        italic: Some(false),
        underline: Some(false),
    }
}

/// A style that sets no attribute, leaving each to what the text is drawn over.
pub open spec fn unset_style() -> Style {
    Style { foreground: None, background: None, bold: None, italic: None, underline: None }
}

/// `a` where it is set, else `b`.
pub open spec fn or_else<T>(a: Option<T>, b: Option<T>) -> Option<T> {
    match a {
        Some(_) => a,
        None => b,
    }
}

/// `style` drawn over `base`: each attribute of `style` where it is set, else that of `base`.
pub open spec fn combined(style: Style, base: Style) -> Style {
    Style {
        foreground: or_else(style.foreground, base.foreground),
        background: or_else(style.background, base.background),
        bold: or_else(style.bold, base.bold),
        italic: or_else(style.italic, base.italic),
        underline: or_else(style.underline, base.underline),
    }
}

impl Style {
    /// A style that sets no attribute.
    pub fn unset() -> (s: Self)
        ensures
            s == unset_style(),
    {
        Style { foreground: None, background: None, bold: None, italic: None, underline: None }
    }

    /// This style drawn over `base`: each attribute of this style where it is set, else that
    /// of `base`.
    pub fn combine(&self, base: &Style) -> (s: Self)
        ensures
            s == combined(*self, *base),
    {
        Style {
            foreground: match self.foreground {
                Some(c) => Some(c),
                None => base.foreground,
            },
            background: match self.background {
                Some(c) => Some(c),
                None => base.background,
            },
            bold: match self.bold {
                Some(b) => Some(b),
                None => base.bold,
            },
            italic: match self.italic {
                Some(b) => Some(b),
                None => base.italic,
            },
            underline: match self.underline {
                Some(b) => Some(b),
                None => base.underline,
            },
        }
    }

    pub fn default() -> (s: Self)
        ensures
            s == default_style(),
    {
        Style {
            foreground: Some(Color::white()),
            background: None,
            bold: Some(false),
            italic: Some(false),
            underline: Some(false),
        }
    }

    pub fn foreground(&self, color: Color) -> (s: Self)
        ensures
            s == (Style { foreground: Some(color), ..*self }),
    {
        let mut result = *self;
        result.foreground = Some(color);
        result
    }

    pub fn no_foreground(&self) -> (s: Self)
        ensures
            s == (Style { foreground: None, ..*self }),
    {
        let mut result = *self;
        result.foreground = None;
        result
    }

    pub fn background(&self, color: Color) -> (s: Self)
        ensures
            s == (Style { background: Some(color), ..*self }),
    {
        let mut result = *self;
        result.background = Some(color);
        result
    }

    pub fn no_background(&self) -> (s: Self)
        ensures
            s == (Style { background: None, ..*self }),
    {
        let mut result = *self;
        result.background = None;
        result
    }

    pub fn bold(&self, value: bool) -> (s: Self)
        ensures
            s == (Style { bold: Some(value), ..*self }),
    {
        let mut result = *self;
        result.bold = Some(value);
        result
    }

    pub fn no_bold(&self) -> (s: Self)
        ensures
            s == (Style { bold: None, ..*self }),
    {
        let mut result = *self;
        result.bold = None;
        result
    }

    pub fn italic(&self, value: bool) -> (s: Self)
        ensures
            s == (Style { italic: Some(value), ..*self }),
    {
        let mut result = *self;
        result.italic = Some(value);
        result
    }

    pub fn no_italic(&self) -> (s: Self)
        ensures
            s == (Style { italic: None, ..*self }),
    {
        let mut result = *self;
        result.italic = None;
        result
    }

    pub fn underline(&self, value: bool) -> (s: Self)
        ensures
            s == (Style { underline: Some(value), ..*self }),
    {
        let mut result = *self;
        result.underline = Some(value);
        result
    }

    pub fn no_underline(&self) -> (s: Self)
        ensures
            s == (Style { underline: None, ..*self }),
    {
        let mut result = *self;
        result.underline = None;
        result
    }
}

} // verus!
