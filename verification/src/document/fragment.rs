use vstd::prelude::*;
use crate::document::line::Line;
use crate::document::style::Style;
use crate::document::word::Word;

verus! {

/// A block of a document.
#[derive(Debug)]
pub enum Fragment {
    Heading { words: Vec<Word>, depth: usize, style: Style },
    Paragraph { words: Vec<Word>, style: Style },
    Code(Code),
    Verbatim { lines: Vec<Line> },
    List { items: Vec<Vec<Word>> },
}

/// A code block: its source and its highlighted lines.
#[derive(Debug)]
pub struct Code {
    pub language: Option<String>,
    pub original: String,
    pub highlighted_lines: Vec<Line>,
    pub metadata: Option<String>,
}

} // verus!
