//! The caption of a code block in the list of blocks that can be copied.
use vstd::prelude::*;
use crate::document::fragment::Code;
use crate::document::text::push_char;
use crate::ui::widgets::snippet_view::append;

verus! {

/// The text of an optional string, or `fallback` where there is none.
pub open spec fn or_fallback(s: Option<String>, fallback: Seq<char>) -> Seq<char> {
    match s {
        Some(t) => t@,
        None => fallback,
    }
}

/// The caption of a code block: its metadata and, in brackets, its language; `Code snippet` and
/// `unknown language` stand in for what the block lacks.
pub open spec fn code_caption_text(code: Code) -> Seq<char> {
    or_fallback(code.metadata, "Code snippet"@) + seq![' ', '('] + or_fallback(code.language, "unknown language"@)
        + seq![')']
}

/// The caption of a code block, such as `Code snippet (rust)`.
pub fn code_block_caption(code: &Code) -> (r: String)
    ensures
        r@ == code_caption_text(*code),
{
    let mut caption = String::new();
    match &code.metadata {
        Some(m) => append(&mut caption, m.as_str()),
        None => append(&mut caption, "Code snippet"),
    }
    push_char(&mut caption, ' ');
    push_char(&mut caption, '(');
    match &code.language {
        Some(l) => append(&mut caption, l.as_str()),
        None => append(&mut caption, "unknown language"),
    }
    push_char(&mut caption, ')');
    proof {
        assert(caption@ =~= code_caption_text(*code));
    }
    caption
}

} // verus!
