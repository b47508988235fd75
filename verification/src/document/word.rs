use vstd::prelude::*;
use crate::document::span::{spans_len, total_len, Span};

verus! {

/// Spans drawn without spaces between them; lines break only between words.
#[derive(Debug, Clone, PartialEq, Eq)]
pub struct Word(pub Vec<Span>);

impl Word {
    /// The length in bytes of the word's text.
    pub fn len(&self) -> (r: usize)
        requires
            spans_len(self.0@) <= usize::MAX,
        ensures
            r == spans_len(self.0@),
    {
        total_len(&self.0)
    }

    /// The word's spans.
    pub fn spans(&self) -> (r: &Vec<Span>)
        ensures
            r == &self.0,
    {
        &self.0
    }
}

} // verus!
