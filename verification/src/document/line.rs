use vstd::prelude::*;
use crate::document::span::{lemma_spans_len_prefix, spans_len, total_len, Span};
use crate::document::style::{default_style, Style};
use crate::document::text::{lemma_spaces_byte_len, spaces, spaces_seq};

verus! {

/// A line of verbatim text.
#[derive(Debug, Clone, PartialEq, Eq)]
pub struct Line(pub Vec<Span>);

impl Line {
    pub fn spans(&self) -> (r: &Vec<Span>)
        ensures
            r == &self.0,
    {
        &self.0
    }

    /// The length in bytes of the line's text.
    pub fn len(&self) -> (r: usize)
        requires
            spans_len(self.0@) <= usize::MAX,
        ensures
            r == spans_len(self.0@),
    {
        total_len(&self.0)
    }

    /// Puts `indentation` spaces in the default style in front of the line.
    pub fn indent(&mut self, indentation: usize)
        ensures
            final(self).0@.len() == old(self).0@.len() + 1,
            final(self).0@[0].text@ == spaces_seq(indentation as nat),
            final(self).0@[0].style == default_style(),
            final(self).0@.skip(1) == old(self).0@,
    {
        let indentation_span = Span { text: spaces(indentation), style: Style::default() };
        self.0.insert(0, indentation_span);
        proof {
            assert(self.0@.skip(1) =~= old(self).0@);
        }
    }

    /// Appends spaces in the default style so that the line is `target_length` bytes long.
    pub fn pad_with_spaces(&mut self, target_length: usize)
        requires
            spans_len(old(self).0@) <= target_length,
        ensures
            final(self).0@.len() == old(self).0@.len() + 1,
            final(self).0@.drop_last() == old(self).0@,
            final(self).0@.last().text@ == spaces_seq((target_length - spans_len(old(self).0@)) as nat),
            final(self).0@.last().style == default_style(),
            spans_len(final(self).0@) == target_length,
    {
        let padding_size = target_length - self.len();
        let padding_span = Span { text: spaces(padding_size), style: Style::default() };
        self.0.push(padding_span);
        proof {
            assert(self.0@.drop_last() =~= old(self).0@);
            lemma_spaces_byte_len(padding_size as nat);
        }
    }
}

} // verus!
