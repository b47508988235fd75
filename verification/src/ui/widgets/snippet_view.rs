//! The snippet view: which page it shows, the title under a page and the numbered entries of
//! its lists.
use vstd::prelude::*;
use crate::document::text::push_char;
use crate::util::strings::{decimal, to_decimal};

verus! {

/// Which page of a snippet the view shows: one of its pages, or the overview.
#[derive(Debug, Clone, Copy, PartialEq, Eq, Structural)]
pub enum SelectedPage {
    Page(usize),
    Overview,
}

/// The state of the snippet view.
#[derive(Debug, Clone, Copy)]
pub struct State {
    pub selected_page: SelectedPage,
}

impl State {
    /// A view that shows the overview.
    pub fn new() -> (r: State)
        ensures
            r.selected_page == SelectedPage::Overview,
    {
        State { selected_page: SelectedPage::Overview }
    }

    /// Shows page `page_index`.
    pub fn select_page(&mut self, page_index: usize)
        ensures
            final(self).selected_page == SelectedPage::Page(page_index),
    {
        self.selected_page = SelectedPage::Page(page_index);
    }

    /// Shows the overview.
    pub fn select_overview(&mut self)
        ensures
            final(self).selected_page == SelectedPage::Overview,
    {
        self.selected_page = SelectedPage::Overview;
    }
}

/// Appends the characters of `t` to `s`.
pub(crate) fn append(s: &mut String, t: &str)
    ensures
        final(s)@ == old(s)@ + t@,
{
    let ghost start = s@;
    proof {
        assert(start + t@.take(0) =~= start);
    }
    for c in it: t.chars()
        invariant
            it.seq() == t@,
            s@ == start + t@.take(it.index() as int),
    {
        let ghost n = it.index() as int;
        push_char(s, c);
        proof {
            assert(start + t@.take(n + 1) =~= (start + t@.take(n)).push(c));
        }
    }
    proof {
        assert(t@.take(t@.len() as int) =~= t@);
    }
}

/// The title under page `index` (counted from zero) of `count` pages: the page's number counted
/// from one, a slash, the count and the caption where there is one, with a space at either end.
pub open spec fn page_title_text(index: nat, count: nat, caption: Option<Seq<char>>) -> Seq<char> {
    let numbers = seq![' '] + decimal(index + 1) + seq!['/'] + decimal(count);
    match caption {
        Some(c) => numbers + seq![' '] + c + seq![' '],
        None => numbers + seq![' '],
    }
}

/// The view of an optional string.
pub open spec fn option_view(s: Option<String>) -> Option<Seq<char>> {
    match s {
        Some(t) => Some(t@),
        None => None,
    }
}

/// The title under a page of a snippet, such as ` 2/3 Usage `.
pub fn page_title(index: usize, count: usize, caption: &Option<String>) -> (r: String)
    requires
        index < usize::MAX,
    ensures
        r@ == page_title_text(index as nat, count as nat, option_view(*caption)),
{
    let mut title = String::new();
    push_char(&mut title, ' ');
    let number = to_decimal(index + 1);
    append(&mut title, number.as_str());
    push_char(&mut title, '/');
    let total = to_decimal(count);
    append(&mut title, total.as_str());
    push_char(&mut title, ' ');
    match caption {
        Some(c) => {
            append(&mut title, c.as_str());
            push_char(&mut title, ' ');
        },
        None => {},
    }
    proof {
        let numbers = seq![' '] + decimal((index + 1) as nat) + seq!['/'] + decimal(count as nat);
        match caption {
            Some(c) => assert(title@ =~= numbers + seq![' '] + c@ + seq![' ']),
            None => assert(title@ =~= numbers + seq![' ']),
        }
    }
    title
}

/// Entry `index` (counted from zero) of a numbered list: `[n] text`, with `n` counted from one.
pub open spec fn numbered_text(index: nat, text: Seq<char>) -> Seq<char> {
    seq!['['] + decimal(index + 1) + seq![']', ' '] + text
}

/// An entry of a numbered list, such as `[1] Reading a file` in the list of linked snippets.
pub fn numbered_label(index: usize, text: &str) -> (r: String)
    requires
        index < usize::MAX,
    ensures
        r@ == numbered_text(index as nat, text@),
{
    let mut label = String::new();
    push_char(&mut label, '[');
    let number = to_decimal(index + 1);
    append(&mut label, number.as_str());
    push_char(&mut label, ']');
    push_char(&mut label, ' ');
    append(&mut label, text);
    proof {
        assert(label@ =~= numbered_text(index as nat, text@));
    }
    label
}

} // verus!
