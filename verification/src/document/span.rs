use vstd::prelude::*;
use crate::document::style::Style;
use crate::document::text::{byte_len, str_len};

verus! {

/// A piece of text drawn in one style.
#[derive(Debug, Clone, PartialEq, Eq)]
pub struct Span {
    pub text: String,
    pub style: Style,
}

/// Total length in bytes of the texts of `spans`.
pub open spec fn spans_len(spans: Seq<Span>) -> nat
    decreases spans.len(),
{
    if spans.len() == 0 {
        0
    } else {
        spans_len(spans.drop_last()) + byte_len(spans.last().text@)
    }
}

impl Span {
    /// The length in bytes of the text.
    pub fn len(&self) -> (r: usize)
        ensures
            r == byte_len(self.text@),
    {
        str_len(&self.text)
    }
}

/// Sums the lengths of `spans`.
pub fn total_len(spans: &Vec<Span>) -> (r: usize)
    requires
        spans_len(spans@) <= usize::MAX,
    ensures
        r == spans_len(spans@),
{
    let mut sum: usize = 0;
    let mut i: usize = 0;
    while i < spans.len()
        invariant
            i <= spans@.len(),
            sum == spans_len(spans@.take(i as int)),
            spans_len(spans@) <= usize::MAX,
        decreases spans@.len() - i,
    {
        proof {
            assert(spans@.take(i + 1).drop_last() =~= spans@.take(i as int));
            lemma_spans_len_prefix(spans@, i + 1);
        }
        sum = sum + spans[i].len();
        i += 1;
    }
    proof {
        assert(spans@.take(i as int) =~= spans@);
    }
    sum
}

/// A prefix is no longer than the whole.
pub proof fn lemma_spans_len_prefix(spans: Seq<Span>, k: int)
    requires
        0 <= k <= spans.len(),
    ensures
        spans_len(spans.take(k)) <= spans_len(spans),
    decreases spans.len() - k,
{
    if k < spans.len() {
        lemma_spans_len_prefix(spans, k + 1);
        assert(spans.take(k + 1).drop_last() =~= spans.take(k));
    } else {
        assert(spans.take(k) =~= spans);
    }
}

} // verus!
