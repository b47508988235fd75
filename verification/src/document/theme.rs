use vstd::prelude::*;
use crate::document::color::Color;
use crate::document::style::{default_style, Style};

verus! {

/// The styles in which documents are drawn.
pub struct Theme {
    pub default: Style,
    pub inline_code: Style,
    pub headings: [Style; 3],
    pub table_heading: Style,
    pub table_even_row: Style,
    pub table_odd_row: Style,
}

impl Theme {
    /// Default text; inline code on gray; first-level headings bold and underlined,
    /// second-level bold; table headings underlined on blue; table rows on alternating grays.
    pub fn default() -> (t: Self)
        ensures
            t.default == default_style(),
            t.inline_code == (Style { background: Some(Color { r: 128, g: 128, b: 128 }), ..default_style() }),
            t.headings@ == seq![
                Style { bold: Some(true), underline: Some(true), ..default_style() },
                Style { bold: Some(true), ..default_style() },
                default_style(),
            ],
            t.table_heading == (Style {
                background: Some(Color { r: 0, g: 0, b: 128 }),
                underline: Some(true),
                ..default_style()
            }),
            t.table_even_row == (Style { background: Some(Color { r: 128, g: 128, b: 128 }), ..default_style() }),
            t.table_odd_row == (Style { background: Some(Color { r: 64, g: 64, b: 64 }), ..default_style() }),
    {
        let t = Theme {
            default: Style::default(),
            inline_code: Style::default().background(Color::gray(128)),
            headings: [
                Style::default().bold(true).underline(true),
                Style::default().bold(true),
                Style::default(),
            ],
            table_heading: Style::default().background(Color::blue(128)).underline(true),
            table_even_row: Style::default().background(Color::gray(128)),
            table_odd_row: Style::default().background(Color::gray(64)),
        };
        proof {
            assert(t.headings@ =~= seq![
                Style { bold: Some(true), underline: Some(true), ..default_style() },
                Style { bold: Some(true), ..default_style() },
                default_style(),
            ]);
        }
        t
    }
}

} // verus!
