//! The states of the user interface and how key presses move between them.
//!
//! The interface shows the library in one of three modes: browsing snippets (`View`), picking
//! a tag to filter by (`TagSearch`) and filtering by keywords (`KeywordSearch`). A key press
//! takes a state to the next one, and may ask for a code block to be copied.
use vstd::prelude::*;
use vstd::string::StringSliceAdditionalSpecFns;
use vstd::view::View as _;
use vstd::utf8::encode_utf8;
use crate::document::text::{pop_char, push_char};
use crate::snippets::library::{selected, tag_listed, Library};
use crate::snippets::snippets::{contains_string, Snippet, Tag};
use crate::snippets::library::same_tag;
use crate::ui::filters::{
    apply_filters, carried, found_by, lemma_increasing_len, lemma_increasing_within, lists_tags_of, names_of,
    tag_names,
};
use crate::util::cyclic::{residue, Cyclic};
use crate::util::lexicographic::has_prefix;
use crate::util::strings::{bytes_start_with, lowercase, to_lowercase};

verus! {

/// A key, as far as the interface tells keys apart.
#[derive(Debug, Clone, Copy, PartialEq, Eq, Structural)]
pub enum KeyCode {
    Char(char),
    Esc,
    Enter,
    Up,
    Down,
    PageUp,
    PageDown,
    Home,
    End,
    Backspace,
    Delete,
    Other,
}

/// A key event: the key, whether it was pressed (rather than released or repeated) and
/// whether Control was held.
#[derive(Debug, Clone, Copy, PartialEq, Eq, Structural)]
pub struct KeyEvent {
    pub code: KeyCode,
    pub pressed: bool,
    pub control: bool,
}

/// An input event.
#[derive(Debug, Clone, Copy, PartialEq, Eq, Structural)]
pub enum Event {
    Key(KeyEvent),
    Other,
}

/// What the interface asks its surroundings to do after an event.
#[derive(Debug, Clone, Copy, PartialEq, Eq, Structural)]
pub enum Effect {
    Nothing,
    /// Copy the code block at this position of the shown snippet to the clipboard.
    CopyCodeBlock(usize),
}

/// A window drawn over the view.
#[derive(Debug, Clone, Copy, PartialEq, Eq, Structural)]
pub enum ViewOverlay {
    NoOverlay,
    CopySnippet,
}

/// Browsing the snippets that carry the active tags.
#[derive(Debug)]
pub struct View {
    pub active_tags: Vec<Tag>,
    pub snippets: Vec<usize>,
    pub tags: Vec<Tag>,
    pub highlighted_snippet_index: Option<Cyclic>,
    pub shown_snippet: usize,
    pub page_size: Option<usize>,
    pub overlay: ViewOverlay,
}

/// Picking a tag by typing the start of its name.
#[derive(Debug)]
pub struct TagSearch {
    /// The snippets listed before the search started.
    pub snippets: Vec<usize>,
    /// The tags listed before the search started.
    pub original_tags: Vec<Tag>,
    /// The tags active before the search started.
    pub active_tags: Vec<Tag>,
    /// What the user typed.
    pub tag_input: String,
    /// The tags of `original_tags` whose names start with the input.
    pub tags: Vec<Tag>,
    pub highlighted_tag_index: Option<Cyclic>,
    pub page_size: Option<usize>,
}

/// Filtering the listed snippets by keywords.
#[derive(Debug)]
pub struct KeywordSearch {
    /// The snippets listed before the search started.
    pub snippets: Vec<usize>,
    pub tags: Vec<Tag>,
    pub active_tags: Vec<Tag>,
    /// The keywords typed so far; the last one is being edited.
    pub keywords: Vec<String>,
    /// The snippets that match the keywords.
    pub filtered_snippets: Vec<usize>,
    /// The highlight before the search started, restored if the search is cancelled.
    pub original_highlighted_snippet_index: Option<Cyclic>,
    pub highlighted_snippet_index: Option<Cyclic>,
    pub shown_snippet: usize,
    pub page_size: Option<usize>,
}

/// The state of the interface.
#[derive(Debug)]
pub enum AppStateMode {
    Quit,
    View(View),
    TagSearch(TagSearch),
    KeywordSearch(KeywordSearch),
}

// ------------------------------------------------------------------------------------------
// What the states hold
// ------------------------------------------------------------------------------------------

/// The highlight is at position `idx` of a list of `n` items.
pub open spec fn index_at(o: Option<Cyclic>, idx: int, n: int) -> bool {
    match o {
        Some(c) => c.val() == idx && c.modulus() == n,
        None => false,
    }
}

/// The position of a highlight, 0 where there is none.
pub open spec fn position(o: Option<Cyclic>) -> int {
    match o {
        Some(c) => c.val() as int,
        None => 0,
    }
}

/// A page size as the screen gives it: a number of rows.
pub open spec fn page_ok(p: Option<usize>) -> bool {
    match p {
        Some(n) => n <= 0xffff,
        None => true,
    }
}

/// The page size, 0 where none is known yet.
pub open spec fn page_of(p: Option<usize>) -> int {
    match p {
        Some(n) => n as int,
        None => 0,
    }
}

/// The library fits the counters of the interface, and each snippet's tag names are the names
/// of its tags.
pub open spec fn library_ok(lib: Library) -> bool {
    &&& lib.snippet_list().len() <= usize::MAX / 2
    &&& lib.tag_list().len() <= usize::MAX / 2
    &&& forall|i: int| 0 <= i < lib.snippet_list().len() ==> tags_named(#[trigger] lib.snippet_list()[i])
}

/// The name of every tag of a snippet is among its tag names.
pub open spec fn tags_named(s: Snippet) -> bool {
    forall|k: int| 0 <= k < s.tags@.len() ==> crate::snippets::snippets::views(s.tag_set@).contains(#[trigger] s.tags@[k].name@)
}

/// The snippets that carry the active tags, and tags that they carry.
pub open spec fn listing_ok(lib: Seq<Snippet>, snippets: Seq<usize>, active: Seq<Tag>, tags: Seq<Tag>) -> bool {
    &&& snippets.len() > 0
    &&& snippets.len() <= lib.len()
    &&& found_by(lib, snippets, Seq::empty(), tag_names(active))
    &&& forall|k: int| 0 <= k < tags.len() ==> carried(lib, snippets, #[trigger] tags[k])
    &&& tags.len() <= usize::MAX / 2
}

pub open spec fn view_wf(lib: Seq<Snippet>, v: View) -> bool {
    &&& listing_ok(lib, v.snippets@, v.active_tags@, v.tags@)
    &&& index_at(v.highlighted_snippet_index, position(v.highlighted_snippet_index), v.snippets@.len() as int)
    &&& v.shown_snippet < lib.len()
    &&& page_ok(v.page_size)
}

pub open spec fn tag_search_wf(lib: Seq<Snippet>, t: TagSearch) -> bool {
    &&& listing_ok(lib, t.snippets@, t.active_tags@, t.original_tags@)
    &&& t.tags@.len() <= t.original_tags@.len()
    &&& forall|k: int| 0 <= k < t.tags@.len() ==> carried(lib, t.snippets@, #[trigger] t.tags@[k])
    &&& if t.tags@.len() == 0 {
        t.highlighted_tag_index is None
    } else {
        index_at(t.highlighted_tag_index, position(t.highlighted_tag_index), t.tags@.len() as int)
    }
    &&& page_ok(t.page_size)
}

pub open spec fn keyword_search_wf(lib: Seq<Snippet>, k: KeywordSearch) -> bool {
    &&& listing_ok(lib, k.snippets@, k.active_tags@, k.tags@)
    &&& k.keywords@.len() >= 1
    &&& found_by(lib, k.filtered_snippets@, k.keywords@, tag_names(k.active_tags@))
    &&& k.filtered_snippets@.len() <= k.snippets@.len()
    &&& index_at(k.original_highlighted_snippet_index, position(k.original_highlighted_snippet_index), k.snippets@.len() as int)
    &&& (k.highlighted_snippet_index is Some ==> index_at(
        k.highlighted_snippet_index,
        position(k.highlighted_snippet_index),
        k.filtered_snippets@.len() as int,
    ))
    &&& k.shown_snippet < lib.len()
    &&& page_ok(k.page_size)
}

impl AppStateMode {
    /// The state is consistent with the library.
    pub open spec fn wf(&self, lib: Seq<Snippet>) -> bool {
        match self {
            AppStateMode::Quit => true,
            AppStateMode::View(v) => view_wf(lib, *v),
            AppStateMode::TagSearch(t) => tag_search_wf(lib, *t),
            AppStateMode::KeywordSearch(k) => keyword_search_wf(lib, *k),
        }
    }
}

// ------------------------------------------------------------------------------------------
// What the keys do
// ------------------------------------------------------------------------------------------

/// Keys that move a highlight.
pub open spec fn is_move(code: KeyCode) -> bool {
    ||| code == KeyCode::Up
    ||| code == KeyCode::Down
    ||| code == KeyCode::Home
    ||| code == KeyCode::End
    ||| code == KeyCode::PageUp
    ||| code == KeyCode::PageDown
}

/// Where a move key takes the highlight at `i` in a list of `n` items, with pages of `page`.
pub open spec fn move_target(code: KeyCode, i: int, n: int, page: int) -> int {
    if code == KeyCode::Up {
        residue(i - 1, n)
    } else if code == KeyCode::Down {
        residue(i + 1, n)
    } else if code == KeyCode::Home {
        0
    } else if code == KeyCode::End {
        n - 1
    } else if code == KeyCode::PageUp {
        if i < page {
            0
        } else {
            residue(i - page, n)
        }
    } else if i + page < n {
        residue(i + page, n)
    } else {
        n - 1
    }
}

/// A printable character other than space.
pub open spec fn is_graphic(c: char) -> bool {
    '!' <= c && c <= '~'
}

/// The code block that a digit picks: `1` to `9` the first nine, `0` the tenth.
pub open spec fn digit_index(c: char) -> int {
    if c == '0' {
        9
    } else {
        c as int - '1' as int
    }
}

/// The views of a list of strings.
pub open spec fn texts(v: Seq<String>) -> Seq<Seq<char>> {
    v.map_values(|s: String| s@)
}

/// `s` without its last character, if it has one.
pub open spec fn pop_last(s: Seq<char>) -> Seq<char> {
    if s.len() > 0 {
        s.drop_last()
    } else {
        s
    }
}

/// The keywords with `c` appended to the last one.
pub open spec fn keywords_add_char(kws: Seq<Seq<char>>, c: char) -> Seq<Seq<char>> {
    kws.update(kws.len() - 1, kws.last().push(c))
}

/// The keywords after a space: a new, empty keyword unless the last one is empty.
pub open spec fn keywords_new(kws: Seq<Seq<char>>) -> Seq<Seq<char>> {
    if kws.last().len() > 0 {
        kws.push(Seq::empty())
    } else {
        kws
    }
}

/// The keywords after Backspace: the last character goes; an empty last keyword goes first,
/// taking the last character of the one before with it.
pub open spec fn keywords_drop_char(kws: Seq<Seq<char>>) -> Seq<Seq<char>> {
    if kws.last().len() == 0 {
        if kws.len() >= 2 {
            let k = kws.drop_last();
            k.update(k.len() - 1, pop_last(k.last()))
        } else {
            kws
        }
    } else {
        kws.update(kws.len() - 1, pop_last(kws.last()))
    }
}

/// The keywords after Control-Backspace: the last non-empty keyword goes, and an empty one
/// takes its place.
pub open spec fn keywords_drop_keyword(kws: Seq<Seq<char>>) -> Seq<Seq<char>> {
    let k1 = if kws.last().len() == 0 {
        kws.drop_last()
    } else {
        kws
    };
    let k2 = if k1.len() > 0 {
        k1.drop_last()
    } else {
        k1
    };
    k2.push(Seq::empty())
}

/// The tag's lower-cased name starts with the lower-cased input.
pub open spec fn matches_input(t: Tag, input: Seq<char>) -> bool {
    has_prefix(encode_utf8(lowercase(t.name@)), encode_utf8(lowercase(input)))
}

/// The tags of `tags` that match the input, in order.
pub open spec fn filter_tags(tags: Seq<Tag>, input: Seq<char>) -> Seq<Tag>
    decreases tags.len(),
{
    if tags.len() == 0 {
        Seq::empty()
    } else {
        let r = filter_tags(tags.drop_last(), input);
        if matches_input(tags.last(), input) {
            r.push(tags.last())
        } else {
            r
        }
    }
}

/// A fresh view: highlight on position `idx`, no page size known, no overlay.
pub open spec fn fresh_view(w: View, snippets: Seq<usize>, tags: Seq<Tag>, active: Seq<Tag>, highlight: Option<Cyclic>, shown: usize) -> bool {
    &&& w.snippets@ == snippets
    &&& w.tags@ == tags
    &&& w.active_tags@ == active
    &&& w.highlighted_snippet_index == highlight
    &&& w.shown_snippet == shown
    &&& w.page_size is None
    &&& w.overlay == ViewOverlay::NoOverlay
}

/// The view with only its overlay changed.
pub open spec fn view_with_overlay(v: View, w: View, o: ViewOverlay) -> bool {
    &&& w.active_tags == v.active_tags
    &&& w.snippets == v.snippets
    &&& w.tags == v.tags
    &&& w.highlighted_snippet_index == v.highlighted_snippet_index
    &&& w.shown_snippet == v.shown_snippet
    &&& w.page_size == v.page_size
    &&& w.overlay == o
}

/// The view with the highlight, and the shown snippet, moved to position `idx`.
pub open spec fn view_moved(v: View, w: View, idx: int) -> bool {
    &&& w.active_tags == v.active_tags
    &&& w.snippets == v.snippets
    &&& w.tags == v.tags
    &&& index_at(w.highlighted_snippet_index, idx, v.snippets@.len() as int)
    &&& w.shown_snippet == v.snippets@[idx]
    &&& w.page_size == v.page_size
    &&& w.overlay == v.overlay
}

/// The view after the last active tag was dropped: the listing is searched again.
pub open spec fn view_dropped(lib: Seq<Snippet>, v: View, w: View) -> bool {
    &&& w.active_tags@ == (if v.active_tags@.len() > 0 {
        v.active_tags@.drop_last()
    } else {
        v.active_tags@
    })
    &&& found_by(lib, w.snippets@, Seq::empty(), tag_names(w.active_tags@))
    &&& lists_tags_of(lib, w.snippets@, w.active_tags@, w.tags@)
    &&& index_at(w.highlighted_snippet_index, 0, w.snippets@.len() as int)
    &&& w.shown_snippet == w.snippets@[0]
    &&& w.page_size == v.page_size
    &&& w.overlay == v.overlay
}

/// The tag search as it starts from a view.
pub open spec fn tag_search_started(v: View, t: TagSearch) -> bool {
    &&& t.snippets == v.snippets
    &&& t.original_tags == v.tags
    &&& t.active_tags == v.active_tags
    &&& t.tag_input@ == Seq::<char>::empty()
    &&& t.tags@ == v.tags@
    &&& (if v.tags@.len() == 0 {
        t.highlighted_tag_index is None
    } else {
        index_at(t.highlighted_tag_index, 0, v.tags@.len() as int)
    })
    &&& t.page_size is None
}

/// The keyword search as it starts from a view.
pub open spec fn keyword_search_started(v: View, k: KeywordSearch) -> bool {
    &&& k.snippets == v.snippets
    &&& k.tags == v.tags
    &&& k.active_tags == v.active_tags
    &&& texts(k.keywords@) == seq![Seq::<char>::empty()]
    &&& k.filtered_snippets@ == v.snippets@
    &&& k.original_highlighted_snippet_index == v.highlighted_snippet_index
    &&& k.highlighted_snippet_index == v.highlighted_snippet_index
    &&& k.shown_snippet == v.snippets@[0]
    &&& k.page_size is None
}

/// The tag search with its highlight moved to position `idx`.
pub open spec fn tag_moved(t: TagSearch, u: TagSearch, idx: int) -> bool {
    &&& u.snippets == t.snippets
    &&& u.original_tags == t.original_tags
    &&& u.active_tags == t.active_tags
    &&& u.tag_input == t.tag_input
    &&& u.tags == t.tags
    &&& index_at(u.highlighted_tag_index, idx, t.tags@.len() as int)
    &&& u.page_size == t.page_size
}

/// The tag search with the input changed to `input` and the tags filtered by it.
pub open spec fn tag_input_changed(t: TagSearch, u: TagSearch, input: Seq<char>) -> bool {
    &&& u.snippets == t.snippets
    &&& u.original_tags == t.original_tags
    &&& u.active_tags == t.active_tags
    &&& u.tag_input@ == input
    &&& u.tags@ == filter_tags(t.original_tags@, input)
    &&& (if u.tags@.len() == 0 {
        u.highlighted_tag_index is None
    } else {
        index_at(u.highlighted_tag_index, 0, u.tags@.len() as int)
    })
    &&& u.page_size == t.page_size
}

/// The view after the highlighted tag was selected: it joins the active tags and the listing
/// is searched again.
pub open spec fn tag_selected(lib: Seq<Snippet>, t: TagSearch, w: View) -> bool {
    &&& w.active_tags@ == t.active_tags@.push(t.tags@[position(t.highlighted_tag_index)])
    &&& found_by(lib, w.snippets@, Seq::empty(), tag_names(w.active_tags@))
    &&& lists_tags_of(lib, w.snippets@, w.active_tags@, w.tags@)
    &&& index_at(w.highlighted_snippet_index, 0, w.snippets@.len() as int)
    &&& w.shown_snippet == w.snippets@[0]
    &&& w.page_size is None
    &&& w.overlay == ViewOverlay::NoOverlay
}

/// The keyword search with its highlight moved to position `idx`; the shown snippet is taken
/// from the filtered list or from the list from before the search.
pub open spec fn keyword_moved(k: KeywordSearch, u: KeywordSearch, idx: int, from_filtered: bool) -> bool {
    &&& u.snippets == k.snippets
    &&& u.tags == k.tags
    &&& u.active_tags == k.active_tags
    &&& u.keywords == k.keywords
    &&& u.filtered_snippets == k.filtered_snippets
    &&& u.original_highlighted_snippet_index == k.original_highlighted_snippet_index
    &&& index_at(u.highlighted_snippet_index, idx, k.filtered_snippets@.len() as int)
    &&& u.shown_snippet == (if from_filtered {
        k.filtered_snippets@[idx]
    } else {
        k.snippets@[idx]
    })
    &&& u.page_size == k.page_size
}

/// The keyword search with the keywords changed to `kws` and the filtered list searched again.
pub open spec fn keywords_changed(lib: Seq<Snippet>, k: KeywordSearch, u: KeywordSearch, kws: Seq<Seq<char>>) -> bool {
    &&& u.snippets == k.snippets
    &&& u.tags == k.tags
    &&& u.active_tags == k.active_tags
    &&& texts(u.keywords@) == kws
    &&& found_by(lib, u.filtered_snippets@, u.keywords@, tag_names(k.active_tags@))
    &&& u.original_highlighted_snippet_index == k.original_highlighted_snippet_index
    &&& (if u.filtered_snippets@.len() > 0 {
        index_at(u.highlighted_snippet_index, 0, u.filtered_snippets@.len() as int) && u.shown_snippet
            == u.filtered_snippets@[0]
    } else {
        u.highlighted_snippet_index is None && u.shown_snippet == k.shown_snippet
    })
    &&& u.page_size == k.page_size
}

/// The keyword search with a new, empty keyword begun (or unchanged if the last is empty).
pub open spec fn keyword_begun(k: KeywordSearch, u: KeywordSearch) -> bool {
    &&& u.snippets == k.snippets
    &&& u.tags == k.tags
    &&& u.active_tags == k.active_tags
    &&& texts(u.keywords@) == keywords_new(texts(k.keywords@))
    &&& u.filtered_snippets == k.filtered_snippets
    &&& u.original_highlighted_snippet_index == k.original_highlighted_snippet_index
    &&& u.highlighted_snippet_index == k.highlighted_snippet_index
    &&& u.shown_snippet == k.shown_snippet
    &&& u.page_size == k.page_size
}

/// What a pressed key does in a view.
pub open spec fn view_step(lib: Seq<Snippet>, v: View, key: KeyCode, blocks: usize, new: AppStateMode, eff: Effect) -> bool {
    match v.overlay {
        ViewOverlay::NoOverlay => {
            if key == KeyCode::Char('q') {
                new is Quit && eff == Effect::Nothing
            } else if key == KeyCode::Char('#') {
                new matches AppStateMode::TagSearch(t) && tag_search_started(v, t) && eff == Effect::Nothing
            } else if key == KeyCode::Char('/') {
                new matches AppStateMode::KeywordSearch(k) && keyword_search_started(v, k) && eff == Effect::Nothing
            } else if key == KeyCode::Char('c') {
                new matches AppStateMode::View(w) && view_with_overlay(
                    v,
                    w,
                    if blocks > 0 {
                        ViewOverlay::CopySnippet
                    } else {
                        v.overlay
                    },
                ) && eff == Effect::Nothing
            } else if key == KeyCode::Char('C') {
                new matches AppStateMode::View(w) && view_with_overlay(v, w, v.overlay) && eff == (if blocks > 0 {
                    Effect::CopyCodeBlock(0)
                } else {
                    Effect::Nothing
                })
            } else if key == KeyCode::Delete {
                new matches AppStateMode::View(w) && view_dropped(lib, v, w) && eff == Effect::Nothing
            } else if is_move(key) {
                new matches AppStateMode::View(w) && view_moved(
                    v,
                    w,
                    move_target(key, position(v.highlighted_snippet_index), v.snippets@.len() as int, page_of(v.page_size)),
                ) && eff == Effect::Nothing
            } else {
                new matches AppStateMode::View(w) && view_with_overlay(v, w, v.overlay) && eff == Effect::Nothing
            }
        },
        ViewOverlay::CopySnippet => {
            if key == KeyCode::Esc {
                new matches AppStateMode::View(w) && view_with_overlay(v, w, ViewOverlay::NoOverlay) && eff == Effect::Nothing
            } else if key matches KeyCode::Char(d) && '0' <= d <= '9' && digit_index(d) < blocks {
                new matches AppStateMode::View(w) && view_with_overlay(v, w, ViewOverlay::NoOverlay) && eff
                    == Effect::CopyCodeBlock(digit_index(key->Char_0) as usize)
            } else {
                new matches AppStateMode::View(w) && view_with_overlay(v, w, v.overlay) && eff == Effect::Nothing
            }
        },
    }
}

/// What a pressed key does in a tag search.
pub open spec fn tag_search_step(lib: Seq<Snippet>, t: TagSearch, key: KeyCode, new: AppStateMode) -> bool {
    if key == KeyCode::Esc {
        new matches AppStateMode::View(w) && fresh_view(
            w,
            t.snippets@,
            t.original_tags@,
            t.active_tags@,
            w.highlighted_snippet_index,
            0,
        ) && index_at(w.highlighted_snippet_index, 0, t.snippets@.len() as int)
    } else if is_move(key) {
        if t.highlighted_tag_index is Some {
            new matches AppStateMode::TagSearch(u) && tag_moved(
                t,
                u,
                move_target(key, position(t.highlighted_tag_index), t.tags@.len() as int, page_of(t.page_size)),
            )
        } else {
            new == AppStateMode::TagSearch(t)
        }
    } else if key == KeyCode::Backspace {
        new matches AppStateMode::TagSearch(u) && tag_input_changed(t, u, pop_last(t.tag_input@))
    } else if key == KeyCode::Enter {
        if t.highlighted_tag_index is Some {
            new matches AppStateMode::View(w) && tag_selected(lib, t, w)
        } else {
            new == AppStateMode::TagSearch(t)
        }
    } else if key matches KeyCode::Char(c) && is_graphic(c) {
        new matches AppStateMode::TagSearch(u) && tag_input_changed(t, u, t.tag_input@.push(key->Char_0))
    } else {
        new == AppStateMode::TagSearch(t)
    }
}

/// What a pressed key does in a keyword search.
pub open spec fn keyword_search_step(lib: Seq<Snippet>, k: KeywordSearch, key: KeyEvent, new: AppStateMode) -> bool {
    let code = key.code;
    if code == KeyCode::Esc {
        new matches AppStateMode::View(w) && fresh_view(
            w,
            k.snippets@,
            k.tags@,
            k.active_tags@,
            k.original_highlighted_snippet_index,
            k.shown_snippet,
        )
    } else if code == KeyCode::Enter {
        if k.highlighted_snippet_index is Some {
            new matches AppStateMode::View(w) && fresh_view(
                w,
                k.snippets@,
                k.tags@,
                k.active_tags@,
                w.highlighted_snippet_index,
                k.shown_snippet,
            ) && index_at(w.highlighted_snippet_index, position(w.highlighted_snippet_index), k.snippets@.len() as int)
                && k.snippets@[position(w.highlighted_snippet_index)] == k.shown_snippet
        } else {
            new == AppStateMode::KeywordSearch(k)
        }
    } else if is_move(code) {
        if k.highlighted_snippet_index is Some {
            new matches AppStateMode::KeywordSearch(u) && keyword_moved(
                k,
                u,
                move_target(
                    code,
                    position(k.highlighted_snippet_index),
                    k.filtered_snippets@.len() as int,
                    page_of(k.page_size),
                ),
                code == KeyCode::Up || code == KeyCode::Down,
            )
        } else {
            new == AppStateMode::KeywordSearch(k)
        }
    } else if code matches KeyCode::Char(c) && is_graphic(c) {
        new matches AppStateMode::KeywordSearch(u) && keywords_changed(lib, k, u, keywords_add_char(texts(k.keywords@), code->Char_0))
    } else if code == KeyCode::Char(' ') {
        new matches AppStateMode::KeywordSearch(u) && keyword_begun(k, u)
    } else if code == KeyCode::Backspace {
        if key.control {
            new matches AppStateMode::KeywordSearch(u) && keywords_changed(lib, k, u, keywords_drop_keyword(texts(k.keywords@)))
        } else {
            new matches AppStateMode::KeywordSearch(u) && keywords_changed(lib, k, u, keywords_drop_char(texts(k.keywords@)))
        }
    } else {
        new == AppStateMode::KeywordSearch(k)
    }
}

/// What an event does to a state.
pub open spec fn transition(lib: Seq<Snippet>, old: AppStateMode, event: Event, blocks: usize, new: AppStateMode, eff: Effect) -> bool {
    match event {
        Event::Key(key) if key.pressed => match old {
            AppStateMode::Quit => false,
            AppStateMode::View(v) => view_step(lib, v, key.code, blocks, new, eff),
            AppStateMode::TagSearch(t) => tag_search_step(lib, t, key.code, new) && eff == Effect::Nothing,
            AppStateMode::KeywordSearch(k) => keyword_search_step(lib, k, key, new) && eff == Effect::Nothing,
        },
        _ => new == old && eff == Effect::Nothing,
    }
}

/// The event can be handled without failing: page keys need a known page size, and leaving a
/// keyword search with Enter needs the shown snippet to be among the listed ones.
pub open spec fn handles(state: AppStateMode, event: Event) -> bool {
    &&& !(state is Quit)
    &&& match event {
        Event::Key(key) if key.pressed => {
            let page_key = key.code == KeyCode::PageUp || key.code == KeyCode::PageDown;
            match state {
                AppStateMode::Quit => false,
                AppStateMode::View(v) => page_key && v.overlay == ViewOverlay::NoOverlay ==> v.page_size is Some,
                AppStateMode::TagSearch(t) => page_key ==> t.page_size is Some,
                AppStateMode::KeywordSearch(k) => {
                    &&& page_key ==> k.page_size is Some
                    &&& key.code == KeyCode::Enter && k.highlighted_snippet_index is Some ==> k.snippets@.contains(
                        k.shown_snippet,
                    )
                },
            }
        },
        _ => true,
    }
}

// ------------------------------------------------------------------------------------------
// Facts about searches
// ------------------------------------------------------------------------------------------

/// Fewer tag names select more snippets.
proof fn lemma_fewer_names(tag_set: Seq<String>, names: Seq<String>, m: int)
    requires
        0 <= m <= names.len(),
        crate::snippets::snippets::has_tag_names(tag_set, names),
    ensures
        crate::snippets::snippets::has_tag_names(tag_set, names.take(m)),
{
    assert forall|i: int| 0 <= i < names.take(m).len() implies crate::snippets::snippets::views(tag_set).contains(
        #[trigger] names.take(m)[i]@,
    ) by {
        assert(names.take(m)[i] == names[i]);
    }
}

/// Keywords only narrow a search.
proof fn lemma_keywords_narrow(s: Snippet, keywords: Seq<String>, names: Seq<String>)
    requires
        selected(s, keywords, names),
    ensures
        selected(s, Seq::empty(), names),
{
}

/// An added empty keyword does not narrow a search.
proof fn lemma_empty_keyword_added(s: Snippet, keywords: Seq<String>, extra: String, names: Seq<String>)
    requires
        extra@.len() == 0,
    ensures
        selected(s, keywords.push(extra), names) == selected(s, keywords, names),
{
    let k2 = keywords.push(extra);
    if selected(s, k2, names) {
        assert forall|q: int| 0 <= q < keywords.len() && keywords[q]@.len() > 0 implies crate::snippets::library::keyword_matches(s, #[trigger] keywords[q]@) by {
            assert(k2[q] == keywords[q]);
        }
    }
    if selected(s, keywords, names) {
        assert forall|q: int| 0 <= q < k2.len() && k2[q]@.len() > 0 implies crate::snippets::library::keyword_matches(s, #[trigger] k2[q]@) by {
            if q < keywords.len() {
                assert(k2[q] == keywords[q]);
            }
        }
    }
}

/// Empty keywords do not narrow a search.
proof fn lemma_empty_keywords(s: Snippet, keywords: Seq<String>, names: Seq<String>)
    requires
        forall|q: int| 0 <= q < keywords.len() ==> (#[trigger] keywords[q])@.len() == 0,
    ensures
        selected(s, keywords, names) == selected(s, Seq::empty(), names),
{
}

/// The snippets found by a search with keywords are among those found without them.
proof fn lemma_found_within(lib: Seq<Snippet>, narrow: Seq<usize>, wide: Seq<usize>, keywords: Seq<String>, names: Seq<String>)
    requires
        found_by(lib, narrow, keywords, names),
        found_by(lib, wide, Seq::empty(), names),
    ensures
        narrow.len() <= wide.len(),
{
    assert forall|i: int| 0 <= i < narrow.len() implies wide.contains(#[trigger] narrow[i]) by {
        assert(narrow.contains(narrow[i]));
        lemma_keywords_narrow(lib[narrow[i] as int], keywords, names);
    }
    lemma_increasing_within(narrow, wide);
}

/// A found list holds only snippets of the library, and no more of them than there are.
proof fn lemma_found_bounds(lib: Seq<Snippet>, ids: Seq<usize>, keywords: Seq<String>, names: Seq<String>)
    requires
        found_by(lib, ids, keywords, names),
    ensures
        forall|a: int| 0 <= a < ids.len() ==> ids[a] < lib.len(),
        ids.len() <= lib.len(),
{
    assert forall|a: int| 0 <= a < ids.len() implies ids[a] < lib.len() by {
        assert(ids.contains(ids[a]));
    }
    lemma_increasing_len(ids, lib.len());
}

// ------------------------------------------------------------------------------------------
// Moving highlights
// ------------------------------------------------------------------------------------------

/// The highlight `c` moved by the key `code`.
fn step_index(c: Cyclic, code: KeyCode, page: usize) -> (r: Cyclic)
    requires
        is_move(code),
        c.modulus() <= usize::MAX / 2,
        page <= 0xffff,
    ensures
        r.modulus() == c.modulus(),
        r.val() == move_target(code, c.val() as int, c.modulus() as int, page as int),
        r.val() < r.modulus(),
{
    let i = c.value();
    let n = c.modulo();
    let r = match code {
        KeyCode::Up => c.sub(1),
        KeyCode::Down => c.add(1),
        KeyCode::Home => c.set(0),
        KeyCode::End => c.set(n - 1),
        KeyCode::PageUp => {
            if i < page {
                c.set(0)
            } else {
                c.sub(page)
            }
        },
        _ => {
            if i + page < n {
                c.add(page)
            } else {
                c.set(n - 1)
            }
        },
    };
    proof {
        vstd::arithmetic::div_mod::lemma_small_mod(0, n as nat);
        vstd::arithmetic::div_mod::lemma_small_mod((n - 1) as nat, n as nat);
    }
    let v = r.value();
    r
}

/// The position of `x` in the increasing list `list`.
fn find_snippet_in_list(x: usize, list: &Vec<usize>) -> (r: Option<usize>)
    requires
        forall|a: int, b: int| 0 <= a < b < list@.len() ==> list@[a] < list@[b],
    ensures
        match r {
            Some(i) => i < list@.len() && list@[i as int] == x,
            None => !list@.contains(x),
        },
{
    let mut lo: usize = 0;
    let mut hi: usize = list.len();
    while lo < hi
        invariant
            lo <= hi <= list@.len(),
            forall|a: int, b: int| 0 <= a < b < list@.len() ==> list@[a] < list@[b],
            forall|a: int| 0 <= a < lo ==> list@[a] < x,
            forall|a: int| hi <= a < list@.len() ==> list@[a] > x,
        decreases hi - lo,
    {
        let mid = lo + (hi - lo) / 2;
        if list[mid] == x {
            return Some(mid);
        } else if list[mid] < x {
            lo = mid + 1;
        } else {
            hi = mid;
        }
    }
    None
}

// ------------------------------------------------------------------------------------------
// Building states
// ------------------------------------------------------------------------------------------

/// A copy of a list of tags.
fn copy_tags(tags: &Vec<Tag>) -> (r: Vec<Tag>)
    ensures
        r@ == tags@,
{
    let mut r: Vec<Tag> = Vec::new();
    let mut i: usize = 0;
    while i < tags.len()
        invariant
            i <= tags@.len(),
            r@ == tags@.take(i as int),
        decreases tags@.len() - i,
    {
        r.push(tags[i].copied());
        proof {
            assert(r@ =~= tags@.take(i + 1));
        }
        i += 1;
    }
    proof {
        assert(tags@.take(i as int) =~= tags@);
    }
    r
}

impl View {
    /// The first view: all given snippets, the first one highlighted and shown.
    pub fn initial(snippets: Vec<usize>, tags: Vec<Tag>) -> (r: View)
        requires
            snippets@.len() > 0,
        ensures
            fresh_view(r, snippets@, tags@, Seq::empty(), r.highlighted_snippet_index, snippets@[0]),
            index_at(r.highlighted_snippet_index, 0, snippets@.len() as int),
    {
        let highlighted = Cyclic::new(0, snippets.len());
        let shown = snippets[0];
        View {
            active_tags: Vec::new(),
            highlighted_snippet_index: Some(highlighted),
            shown_snippet: shown,
            snippets,
            tags,
            page_size: None,
            overlay: ViewOverlay::NoOverlay,
        }
    }

    /// A view of the given lists, with no page size known and no overlay.
    pub fn new(snippets: Vec<usize>, tags: Vec<Tag>, active_tags: Vec<Tag>, highlighted_snippet_index: Option<Cyclic>, shown_snippet: usize) -> (r: View)
        requires
            snippets@.len() > 0,
        ensures
            fresh_view(r, snippets@, tags@, active_tags@, highlighted_snippet_index, shown_snippet),
    {
        View {
            active_tags,
            highlighted_snippet_index,
            shown_snippet,
            snippets,
            tags,
            page_size: None,
            overlay: ViewOverlay::NoOverlay,
        }
    }
}

impl TagSearch {
    /// A tag search over `tag_list`, with an empty input and the first tag highlighted.
    pub fn new(snippets: Vec<usize>, tag_list: Vec<Tag>, active_tags: Vec<Tag>) -> (r: TagSearch)
        ensures
            r.snippets == snippets,
            r.original_tags == tag_list,
            r.active_tags == active_tags,
            r.tag_input@ == Seq::<char>::empty(),
            r.tags@ == tag_list@,
            if tag_list@.len() == 0 {
                r.highlighted_tag_index is None
            } else {
                index_at(r.highlighted_tag_index, 0, tag_list@.len() as int)
            },
            r.page_size is None,
    {
        let highlighted_tag_index = if tag_list.len() == 0 {
            None
        } else {
            Some(Cyclic::new(0, tag_list.len()))
        };
        TagSearch {
            highlighted_tag_index,
            tag_input: String::new(),
            tags: copy_tags(&tag_list),
            active_tags,
            snippets,
            original_tags: tag_list,
            page_size: None,
        }
    }
}

impl KeywordSearch {
    /// A keyword search with one empty keyword, listing all given snippets.
    pub fn new(snippets: Vec<usize>, tags: Vec<Tag>, active_tags: Vec<Tag>, highlighted_snippet_index: Option<Cyclic>) -> (r: KeywordSearch)
        requires
            snippets@.len() > 0,
        ensures
            r.snippets == snippets,
            r.tags == tags,
            r.active_tags == active_tags,
            texts(r.keywords@) == seq![Seq::<char>::empty()],
            r.filtered_snippets@ == snippets@,
            r.original_highlighted_snippet_index == highlighted_snippet_index,
            r.highlighted_snippet_index == highlighted_snippet_index,
            r.shown_snippet == snippets@[0],
            r.page_size is None,
    {
        let mut keywords: Vec<String> = Vec::new();
        keywords.push(String::new());
        proof {
            assert(texts(keywords@) =~= seq![Seq::<char>::empty()]);
        }
        let mut filtered: Vec<usize> = Vec::new();
        let mut i: usize = 0;
        while i < snippets.len()
            invariant
                i <= snippets@.len(),
                filtered@ == snippets@.take(i as int),
            decreases snippets@.len() - i,
        {
            filtered.push(snippets[i]);
            proof {
                assert(filtered@ =~= snippets@.take(i + 1));
            }
            i += 1;
        }
        proof {
            assert(snippets@.take(i as int) =~= snippets@);
        }
        KeywordSearch {
            keywords,
            original_highlighted_snippet_index: highlighted_snippet_index,
            highlighted_snippet_index,
            shown_snippet: snippets[0],
            filtered_snippets: filtered,
            tags,
            active_tags,
            snippets,
            page_size: None,
        }
    }
}

// ------------------------------------------------------------------------------------------
// Handling keys
// ------------------------------------------------------------------------------------------

/// The snippets and tags found for the active tags; the listing is not empty when some
/// snippet of `ids` carries all of them.
fn refreshed_listing(library: &Library, active_tags: &Vec<Tag>, Ghost(witness): Ghost<usize>) -> (r: (Vec<usize>, Vec<Tag>))
    requires
        library_ok(*library),
        witness < library.snippet_list().len(),
        selected(library.snippet_list()[witness as int], Seq::empty(), tag_names(active_tags@)),
    ensures
        listing_ok(library.snippet_list(), r.0@, active_tags@, r.1@),
        lists_tags_of(library.snippet_list(), r.0@, active_tags@, r.1@),
{
    let no_keywords: Vec<String> = Vec::new();
    let (snippets, tags) = apply_filters(library, &no_keywords, active_tags);
    proof {
        let lib = library.snippet_list();
        assert(no_keywords@ =~= Seq::<String>::empty());
        assert(snippets@.contains(witness));
        assert forall|k: int| 0 <= k < tags@.len() implies carried(lib, snippets@, #[trigger] tags@[k]) by {
        }
    }
    (snippets, tags)
}

/// What a pressed key does in a view.
fn view_key(v: View, library: &Library, key: KeyCode, blocks: usize) -> (r: (AppStateMode, Effect))
    requires
        library_ok(*library),
        view_wf(library.snippet_list(), v),
        (key == KeyCode::PageUp || key == KeyCode::PageDown) && v.overlay == ViewOverlay::NoOverlay ==> v.page_size is Some,
    ensures
        view_step(library.snippet_list(), v, key, blocks, r.0, r.1),
        r.0.wf(library.snippet_list()),
{
    let ghost lib = library.snippet_list();
    let ghost old_v = v;
    match v.overlay {
        ViewOverlay::NoOverlay => {
            if key == KeyCode::Char('q') {
                (AppStateMode::Quit, Effect::Nothing)
            } else if key == KeyCode::Char('#') {
                let t = TagSearch::new(v.snippets, v.tags, v.active_tags);
                proof {
                    assert(tag_search_wf(lib, t));
                }
                (AppStateMode::TagSearch(t), Effect::Nothing)
            } else if key == KeyCode::Char('/') {
                let k = KeywordSearch::new(v.snippets, v.tags, v.active_tags, v.highlighted_snippet_index);
                proof {
                    lemma_found_bounds(lib, k.snippets@, Seq::empty(), tag_names(k.active_tags@));
                    assert(k.snippets@.contains(k.snippets@[0]));
                    assert forall|x: usize| k.filtered_snippets@.contains(x) <==> (x < lib.len() && selected(
                        lib[x as int],
                        k.keywords@,
                        tag_names(k.active_tags@),
                    )) by {
                        if x < lib.len() {
                            assert(texts(k.keywords@).len() == k.keywords@.len());
                            assert(texts(k.keywords@)[0] == k.keywords@[0]@);
                            lemma_empty_keywords(lib[x as int], k.keywords@, tag_names(k.active_tags@));
                        }
                    }
                }
                proof {
                    assert(listing_ok(lib, k.snippets@, k.active_tags@, k.tags@));
                    assert(texts(k.keywords@).len() == k.keywords@.len());
                    assert(texts(k.keywords@).len() == 1);
                    assert(k.keywords@.len() >= 1);
                    assert(found_by(lib, k.filtered_snippets@, k.keywords@, tag_names(k.active_tags@)));
                    assert(index_at(k.original_highlighted_snippet_index, position(k.original_highlighted_snippet_index), k.snippets@.len() as int));
                    assert(k.shown_snippet < lib.len());
                    assert(keyword_search_wf(lib, k));
                }
                (AppStateMode::KeywordSearch(k), Effect::Nothing)
            } else if key == KeyCode::Char('c') {
                let mut w = v;
                if blocks > 0 {
                    w.overlay = ViewOverlay::CopySnippet;
                }
                (AppStateMode::View(w), Effect::Nothing)
            } else if key == KeyCode::Char('C') {
                let effect = if blocks > 0 {
                    Effect::CopyCodeBlock(0)
                } else {
                    Effect::Nothing
                };
                (AppStateMode::View(v), effect)
            } else if key == KeyCode::Delete {
                let mut w = v;
                let ghost names = tag_names(w.active_tags@);
                w.active_tags.pop();
                let ghost witness = v.snippets@[0];
                proof {
                    lemma_found_bounds(lib, v.snippets@, Seq::empty(), names);
                    assert(v.snippets@.contains(witness));
                    assert(selected(lib[witness as int], Seq::empty(), names));
                    let m = names.len() - if names.len() > 0 { 1int } else { 0int };
                    assert(tag_names(w.active_tags@) =~= names.take(m));
                    lemma_fewer_names(lib[witness as int].tag_set@, names, m);
                }
                let (snippets, tags) = refreshed_listing(library, &w.active_tags, Ghost(witness));
                w.highlighted_snippet_index = Some(Cyclic::new(0, snippets.len()));
                w.shown_snippet = snippets[0];
                w.snippets = snippets;
                w.tags = tags;
                proof {
                    lemma_found_bounds(lib, w.snippets@, Seq::empty(), tag_names(w.active_tags@));
                    assert(w.snippets@.contains(w.snippets@[0]));
                    vstd::arithmetic::div_mod::lemma_small_mod(0, w.snippets@.len());
                }
                (AppStateMode::View(w), Effect::Nothing)
            } else if key == KeyCode::Up || key == KeyCode::Down || key == KeyCode::Home || key == KeyCode::End || key == KeyCode::PageUp || key == KeyCode::PageDown {
                let mut w = v;
                let page = match w.page_size {
                    Some(p) => p,
                    None => 0,
                };
                let c = w.highlighted_snippet_index.unwrap();
                let moved = step_index(c, key, page);
                let idx = moved.value();
                w.highlighted_snippet_index = Some(moved);
                w.shown_snippet = w.snippets[idx];
                proof {
                    lemma_found_bounds(lib, w.snippets@, Seq::empty(), tag_names(w.active_tags@));
                }
                (AppStateMode::View(w), Effect::Nothing)
            } else {
                (AppStateMode::View(v), Effect::Nothing)
            }
        },
        ViewOverlay::CopySnippet => {
            if key == KeyCode::Esc {
                let mut w = v;
                w.overlay = ViewOverlay::NoOverlay;
                (AppStateMode::View(w), Effect::Nothing)
            } else {
                match key {
                    KeyCode::Char(d) => {
                        if '0' <= d && d <= '9' {
                            let index: usize = if d == '0' {
                                9
                            } else {
                                ((d as u32) - ('1' as u32)) as usize
                            };
                            if index < blocks {
                                let mut w = v;
                                w.overlay = ViewOverlay::NoOverlay;
                                (AppStateMode::View(w), Effect::CopyCodeBlock(index))
                            } else {
                                (AppStateMode::View(v), Effect::Nothing)
                            }
                        } else {
                            (AppStateMode::View(v), Effect::Nothing)
                        }
                    },
                    _ => (AppStateMode::View(v), Effect::Nothing),
                }
            }
        },
    }
}

/// The tags of `original` that match `input`, and the highlight on the first of them.
fn filtered_tag_list(original: &Vec<Tag>, input: &String) -> (r: (Vec<Tag>, Option<Cyclic>))
    ensures
        r.0@ == filter_tags(original@, input@),
        r.0@.len() <= original@.len(),
        if r.0@.len() == 0 {
            r.1 is None
        } else {
            index_at(r.1, 0, r.0@.len() as int)
        },
{
    let lowered = to_lowercase(input.as_str());
    let mut tags: Vec<Tag> = Vec::new();
    let mut i: usize = 0;
    proof {
        assert(original@.take(0) =~= Seq::<Tag>::empty());
    }
    while i < original.len()
        invariant
            i <= original@.len(),
            lowered@ == lowercase(input@),
            tags@ == filter_tags(original@.take(i as int), input@),
            tags@.len() <= i,
        decreases original@.len() - i,
    {
        let name = to_lowercase(original[i].name.as_str());
        proof {
            assert(original@.take(i + 1).drop_last() =~= original@.take(i as int));
        }
        if bytes_start_with(name.as_str().as_bytes(), lowered.as_str().as_bytes()) {
            tags.push(original[i].copied());
        }
        i += 1;
    }
    proof {
        assert(original@.take(i as int) =~= original@);
    }
    let highlight = if tags.len() == 0 {
        None
    } else {
        proof {
            vstd::arithmetic::div_mod::lemma_small_mod(0, tags@.len());
        }
        Some(Cyclic::new(0, tags.len()))
    };
    (tags, highlight)
}

/// What a pressed key does in a tag search.
fn tag_search_key(t: TagSearch, library: &Library, key: KeyCode) -> (r: AppStateMode)
    requires
        library_ok(*library),
        tag_search_wf(library.snippet_list(), t),
        key == KeyCode::PageUp || key == KeyCode::PageDown ==> t.page_size is Some,
    ensures
        tag_search_step(library.snippet_list(), t, key, r),
        r.wf(library.snippet_list()),
{
    let ghost lib = library.snippet_list();
    if key == KeyCode::Esc {
        let highlighted = Cyclic::new(0, t.snippets.len());
        proof {
            vstd::arithmetic::div_mod::lemma_small_mod(0, t.snippets@.len());
        }
        let w = View::new(t.snippets, t.original_tags, t.active_tags, Some(highlighted), 0);
        AppStateMode::View(w)
    } else if key == KeyCode::Up || key == KeyCode::Down || key == KeyCode::Home || key == KeyCode::End || key == KeyCode::PageUp || key == KeyCode::PageDown {
        match t.highlighted_tag_index {
            Some(c) => {
                let page = match t.page_size {
                    Some(p) => p,
                    None => 0,
                };
                let mut u = t;
                let moved = step_index(c, key, page);
                u.highlighted_tag_index = Some(moved);
                AppStateMode::TagSearch(u)
            },
            None => AppStateMode::TagSearch(t),
        }
    } else if key == KeyCode::Backspace {
        let mut u = t;
        pop_char(&mut u.tag_input);
        let (tags, highlight) = filtered_tag_list(&u.original_tags, &u.tag_input);
        u.tags = tags;
        u.highlighted_tag_index = highlight;
        proof {
            lemma_filter_carried(lib, u.snippets@, u.original_tags@, u.tag_input@);
        }
        AppStateMode::TagSearch(u)
    } else if key == KeyCode::Enter {
        match t.highlighted_tag_index {
            Some(c) => {
                let index = c.value();
                let selected_tag = t.tags[index].copied();
                let ghost old_names = tag_names(t.active_tags@);
                let mut active_tags = t.active_tags;
                active_tags.push(selected_tag);
                let ghost witness: usize;
                proof {
                    let chosen = t.tags@[index as int];
                    assert(carried(lib, t.snippets@, chosen));
                    let a = choose|a: int| 0 <= a < t.snippets@.len() && t.snippets@[a] < lib.len() && tag_listed(lib[t.snippets@[a] as int].tags@, chosen);
                    witness = t.snippets@[a];
                    let s = lib[witness as int];
                    let j = choose|j: int| 0 <= j < s.tags@.len() && same_tag(#[trigger] s.tags@[j], chosen);
                    assert(tags_named(s));
                    assert(crate::snippets::snippets::views(s.tag_set@).contains(s.tags@[j].name@));
                    assert(t.snippets@.contains(witness));
                    assert(tag_names(active_tags@) =~= old_names.push(chosen.name));
                    assert forall|q: int| 0 <= q < tag_names(active_tags@).len() implies crate::snippets::snippets::views(s.tag_set@).contains(
                        #[trigger] tag_names(active_tags@)[q]@,
                    ) by {
                        if q == old_names.len() {
                            assert(s.tags@[j].name@ == chosen.name@);
                        } else {
                            assert(tag_names(active_tags@)[q] == old_names[q]);
                        }
                    }
                }
                let (snippets, tags) = refreshed_listing(library, &active_tags, Ghost(witness));
                let highlighted = Cyclic::new(0, snippets.len());
                let shown = snippets[0];
                proof {
                    vstd::arithmetic::div_mod::lemma_small_mod(0, snippets@.len());
                    lemma_found_bounds(lib, snippets@, Seq::empty(), tag_names(active_tags@));
                }
                let w = View::new(snippets, tags, active_tags, Some(highlighted), shown);
                AppStateMode::View(w)
            },
            None => AppStateMode::TagSearch(t),
        }
    } else {
        match key {
            KeyCode::Char(c) => {
                if '!' <= c && c <= '~' {
                    let mut u = t;
                    push_char(&mut u.tag_input, c);
                    let (tags, highlight) = filtered_tag_list(&u.original_tags, &u.tag_input);
                    u.tags = tags;
                    u.highlighted_tag_index = highlight;
                    proof {
                        lemma_filter_carried(lib, u.snippets@, u.original_tags@, u.tag_input@);
                    }
                    AppStateMode::TagSearch(u)
                } else {
                    AppStateMode::TagSearch(t)
                }
            },
            _ => AppStateMode::TagSearch(t),
        }
    }
}

/// The keyword search with its filtered list searched again for its keywords.
fn refresh_snippet_list(k: KeywordSearch, library: &Library) -> (r: KeywordSearch)
    requires
        library_ok(*library),
        listing_ok(library.snippet_list(), k.snippets@, k.active_tags@, k.tags@),
        k.keywords@.len() >= 1,
        index_at(k.original_highlighted_snippet_index, position(k.original_highlighted_snippet_index), k.snippets@.len() as int),
        k.shown_snippet < library.snippet_list().len(),
        page_ok(k.page_size),
    ensures
        keywords_changed(library.snippet_list(), k, r, texts(k.keywords@)),
        r.keywords == k.keywords,
        keyword_search_wf(library.snippet_list(), r),
{
    let ghost lib = library.snippet_list();
    let mut u = k;
    let names = names_of(&u.active_tags);
    let filtered = library.search(&u.keywords, &names);
    proof {
        lemma_found_within(lib, filtered@, u.snippets@, u.keywords@, names@);
        lemma_found_bounds(lib, filtered@, u.keywords@, names@);
    }
    if filtered.len() > 0 {
        proof {
            vstd::arithmetic::div_mod::lemma_small_mod(0, filtered@.len());
        }
        u.highlighted_snippet_index = Some(Cyclic::new(0, filtered.len()));
        u.shown_snippet = filtered[0];
    } else {
        u.highlighted_snippet_index = None;
    }
    u.filtered_snippets = filtered;
    u
}

/// What a pressed key does in a keyword search.
fn keyword_search_key(k: KeywordSearch, library: &Library, key: KeyEvent) -> (r: AppStateMode)
    requires
        library_ok(*library),
        keyword_search_wf(library.snippet_list(), k),
        key.code == KeyCode::PageUp || key.code == KeyCode::PageDown ==> k.page_size is Some,
        key.code == KeyCode::Enter && k.highlighted_snippet_index is Some ==> k.snippets@.contains(k.shown_snippet),
    ensures
        keyword_search_step(library.snippet_list(), k, key, r),
        r.wf(library.snippet_list()),
{
    let ghost lib = library.snippet_list();
    let code = key.code;
    if code == KeyCode::Esc {
        let w = View::new(k.snippets, k.tags, k.active_tags, k.original_highlighted_snippet_index, k.shown_snippet);
        AppStateMode::View(w)
    } else if code == KeyCode::Enter {
        match k.highlighted_snippet_index {
            Some(_) => {
                proof {
                    lemma_found_bounds(lib, k.snippets@, Seq::empty(), tag_names(k.active_tags@));
                }
                match find_snippet_in_list(k.shown_snippet, &k.snippets) {
                    Some(index) => {
                        let highlighted = Cyclic::new(index, k.snippets.len());
                        proof {
                            vstd::arithmetic::div_mod::lemma_small_mod(index as nat, k.snippets@.len());
                        }
                        let shown = k.shown_snippet;
                        let w = View::new(k.snippets, k.tags, k.active_tags, Some(highlighted), shown);
                        AppStateMode::View(w)
                    },
                    None => {
                        // ruled out by the precondition
                        AppStateMode::KeywordSearch(k)
                    },
                }
            },
            None => AppStateMode::KeywordSearch(k),
        }
    } else if code == KeyCode::Up || code == KeyCode::Down || code == KeyCode::Home || code == KeyCode::End || code == KeyCode::PageUp || code == KeyCode::PageDown {
        match k.highlighted_snippet_index {
            Some(c) => {
                let page = match k.page_size {
                    Some(p) => p,
                    None => 0,
                };
                let moved = step_index(c, code, page);
                let idx = moved.value();
                let mut u = k;
                u.highlighted_snippet_index = Some(moved);
                proof {
                    lemma_found_bounds(lib, u.filtered_snippets@, u.keywords@, tag_names(u.active_tags@));
                    lemma_found_bounds(lib, u.snippets@, Seq::empty(), tag_names(u.active_tags@));
                }
                if code == KeyCode::Up || code == KeyCode::Down {
                    u.shown_snippet = u.filtered_snippets[idx];
                } else {
                    u.shown_snippet = u.snippets[idx];
                }
                AppStateMode::KeywordSearch(u)
            },
            None => AppStateMode::KeywordSearch(k),
        }
    } else if code == KeyCode::Backspace {
        let mut u = k;
        let ghost kws = texts(u.keywords@);
        let last_empty = u.keywords[u.keywords.len() - 1].as_str().is_empty();
        if key.control {
            if last_empty {
                u.keywords.pop();
            }
            u.keywords.pop();
            u.keywords.push(String::new());
        } else {
            if last_empty {
                if u.keywords.len() >= 2 {
                    u.keywords.pop();
                    let mut last = u.keywords.pop().unwrap();
                    pop_char(&mut last);
                    u.keywords.push(last);
                }
            } else {
                let mut last = u.keywords.pop().unwrap();
                pop_char(&mut last);
                u.keywords.push(last);
            }
        }
        proof {
            assert(kws.last() == k.keywords@[k.keywords@.len() - 1]@);
            if key.control {
                assert(texts(u.keywords@) =~= keywords_drop_keyword(kws));
            } else {
                assert(texts(u.keywords@) =~= keywords_drop_char(kws));
            }
        }
        let u = refresh_snippet_list(u, library);
        AppStateMode::KeywordSearch(u)
    } else {
        match code {
            KeyCode::Char(c) => {
                if '!' <= c && c <= '~' {
                    let mut u = k;
                    let ghost kws = texts(u.keywords@);
                    let mut last = u.keywords.pop().unwrap();
                    push_char(&mut last, c);
                    u.keywords.push(last);
                    proof {
                        assert(texts(u.keywords@) =~= keywords_add_char(kws, c));
                    }
                    let u = refresh_snippet_list(u, library);
                    AppStateMode::KeywordSearch(u)
                } else if c == ' ' {
                    let mut u = k;
                    let ghost kws = texts(u.keywords@);
                    if !u.keywords[u.keywords.len() - 1].as_str().is_empty() {
                        u.keywords.push(String::new());
                    }
                    proof {
                        assert(kws.last() == k.keywords@[k.keywords@.len() - 1]@);
                        assert(texts(u.keywords@) =~= keywords_new(kws));
                        if u.keywords@.len() > k.keywords@.len() {
                            assert(u.keywords@ =~= k.keywords@.push(u.keywords@.last()));
                            assert forall|x: int| 0 <= x < lib.len() implies selected(lib[x], u.keywords@, tag_names(u.active_tags@))
                                == selected(lib[x], k.keywords@, tag_names(k.active_tags@)) by {
                                lemma_empty_keyword_added(lib[x], k.keywords@, u.keywords@.last(), tag_names(k.active_tags@));
                            }
                        }
                        assert(keyword_search_wf(lib, u));
                    }
                    AppStateMode::KeywordSearch(u)
                } else {
                    AppStateMode::KeywordSearch(k)
                }
            },
            _ => AppStateMode::KeywordSearch(k),
        }
    }
}

impl AppStateMode {
    /// The first state: viewing all snippets and all tags.
    pub fn initial(library: &Library) -> (r: AppStateMode)
        requires
            library.snippet_list().len() > 0,
            library_ok(*library),
        ensures
            r.wf(library.snippet_list()),
            r matches AppStateMode::View(v) && v.snippets@ == Seq::new(
                library.snippet_list().len(),
                |i: int| i as usize,
            ) && v.tags@ == library.tag_list() && fresh_view(
                v,
                v.snippets@,
                v.tags@,
                Seq::empty(),
                v.highlighted_snippet_index,
                0,
            ) && index_at(v.highlighted_snippet_index, 0, v.snippets@.len() as int),
    {
        let ghost lib = library.snippet_list();
        let range = library.snippets();
        let mut listed: Vec<usize> = Vec::new();
        let mut i: usize = range.start;
        while i < range.end
            invariant
                range.start == 0,
                range.end == lib.len(),
                i <= lib.len(),
                listed@ == Seq::new(i as nat, |j: int| j as usize),
            decreases lib.len() - i,
        {
            listed.push(i);
            proof {
                assert(listed@ =~= Seq::new((i + 1) as nat, |j: int| j as usize));
            }
            i += 1;
        }
        let tags = copy_tags(library.tags());
        proof {
            vstd::arithmetic::div_mod::lemma_small_mod(0, listed@.len());
            assert(tag_names(Seq::<Tag>::empty()) =~= Seq::<String>::empty());
            assert forall|x: usize| listed@.contains(x) <==> (x < lib.len() && selected(
                lib[x as int],
                Seq::empty(),
                tag_names(Seq::<Tag>::empty()),
            )) by {
                if x < lib.len() {
                    assert(listed@[x as int] == x);
                }
            }
            assert forall|k: int| 0 <= k < tags@.len() implies carried(lib, listed@, #[trigger] tags@[k]) by {
                assert(crate::snippets::library::tag_used(lib, tags@[k]));
                let a = choose|a: int| 0 <= a < lib.len() && tag_listed(#[trigger] lib[a].tags@, tags@[k]);
                assert(listed@[a] == a as usize);
            }
        }
        let v = View::initial(listed, tags);
        AppStateMode::View(v)
    }

    /// Whether the interface is still running.
    pub fn is_running(&self) -> (r: bool)
        ensures
            r == !(*self is Quit),
    {
        match self {
            AppStateMode::Quit => false,
            _ => true,
        }
    }

    /// Records how many rows a page of the highlighted list takes on screen.
    pub fn set_page_size(&mut self, rows: u16)
        ensures
            match (*old(self), *final(self)) {
                (AppStateMode::Quit, AppStateMode::Quit) => true,
                (AppStateMode::View(v), AppStateMode::View(w)) => w == View { page_size: Some(rows as usize), ..v },
                (AppStateMode::TagSearch(t), AppStateMode::TagSearch(u)) => u == TagSearch { page_size: Some(rows as usize), ..t },
                (AppStateMode::KeywordSearch(k), AppStateMode::KeywordSearch(u)) => u == KeywordSearch { page_size: Some(rows as usize), ..k },
                _ => false,
            },
    {
        match self {
            AppStateMode::Quit => {},
            AppStateMode::View(v) => {
                v.page_size = Some(rows as usize);
            },
            AppStateMode::TagSearch(t) => {
                t.page_size = Some(rows as usize);
            },
            AppStateMode::KeywordSearch(k) => {
                k.page_size = Some(rows as usize);
            },
        }
    }

    /// Whether the event can be handled in this state (see [`handles`]).
    pub fn accepts(&self, event: &Event) -> (r: bool)
        ensures
            r == handles(*self, *event),
    {
        match self {
            AppStateMode::Quit => false,
            _ => match event {
                Event::Other => true,
                Event::Key(key) => {
                    if !key.pressed {
                        true
                    } else {
                        let page_key = key.code == KeyCode::PageUp || key.code == KeyCode::PageDown;
                        match self {
                            AppStateMode::Quit => false,
                            AppStateMode::View(v) => !(page_key && v.overlay == ViewOverlay::NoOverlay) || v.page_size.is_some(),
                            AppStateMode::TagSearch(t) => !page_key || t.page_size.is_some(),
                            AppStateMode::KeywordSearch(k) => {
                                let page_ok = !page_key || k.page_size.is_some();
                                let enter_ok = if key.code == KeyCode::Enter && k.highlighted_snippet_index.is_some() {
                                    find_in(&k.snippets, k.shown_snippet)
                                } else {
                                    true
                                };
                                page_ok && enter_ok
                            },
                        }
                    }
                },
            },
        }
    }

    /// Handles an event: the next state, and what to do besides.
    pub fn handle_event(self, library: &Library, event: Event, code_blocks: usize) -> (r: (AppStateMode, Effect))
        requires
            library_ok(*library),
            self.wf(library.snippet_list()),
            handles(self, event),
        ensures
            transition(library.snippet_list(), self, event, code_blocks, r.0, r.1),
            r.0.wf(library.snippet_list()),
    {
        match event {
            Event::Key(key) => {
                if key.pressed {
                    match self {
                        AppStateMode::Quit => (AppStateMode::Quit, Effect::Nothing),
                        AppStateMode::View(v) => view_key(v, library, key.code, code_blocks),
                        AppStateMode::TagSearch(t) => (tag_search_key(t, library, key.code), Effect::Nothing),
                        AppStateMode::KeywordSearch(k) => (keyword_search_key(k, library, key), Effect::Nothing),
                    }
                } else {
                    (self, Effect::Nothing)
                }
            },
            Event::Other => (self, Effect::Nothing),
        }
    }
}

/// Whether the library can be shown (see [`library_ok`]).
pub fn library_fits(library: &Library) -> (r: bool)
    ensures
        r == library_ok(*library),
{
    let range = library.snippets();
    let n = range.end;
    if n > usize::MAX / 2 || library.tags().len() > usize::MAX / 2 {
        return false;
    }
    let mut i: usize = 0;
    while i < n
        invariant
            n == library.snippet_list().len(),
            i <= n,
            forall|j: int| 0 <= j < i ==> tags_named(#[trigger] library.snippet_list()[j]),
        decreases n - i,
    {
        let snippet = library.snippet(i);
        let mut k: usize = 0;
        while k < snippet.tags.len()
            invariant
                i < n,
                n == library.snippet_list().len(),
                *snippet == library.snippet_list()[i as int],
                k <= snippet.tags@.len(),
                forall|c: int| 0 <= c < k ==> crate::snippets::snippets::views(snippet.tag_set@).contains(#[trigger] snippet.tags@[c].name@),
            decreases snippet.tags@.len() - k,
        {
            if !contains_string(&snippet.tag_set, &snippet.tags[k].name) {
                return false;
            }
            k += 1;
        }
        i += 1;
    }
    true
}

/// Whether `x` occurs in `list`.
fn find_in(list: &Vec<usize>, x: usize) -> (r: bool)
    ensures
        r == list@.contains(x),
{
    let mut i: usize = 0;
    while i < list.len()
        invariant
            i <= list@.len(),
            forall|j: int| 0 <= j < i ==> list@[j] != x,
        decreases list@.len() - i,
    {
        if list[i] == x {
            return true;
        }
        i += 1;
    }
    false
}

/// The filtered tags are carried where the original ones are.
proof fn lemma_filter_carried(lib: Seq<Snippet>, ids: Seq<usize>, original: Seq<Tag>, input: Seq<char>)
    requires
        forall|k: int| 0 <= k < original.len() ==> carried(lib, ids, #[trigger] original[k]),
    ensures
        forall|k: int| 0 <= k < filter_tags(original, input).len() ==> carried(lib, ids, #[trigger] filter_tags(original, input)[k]),
        filter_tags(original, input).len() <= original.len(),
    decreases original.len(),
{
    if original.len() > 0 {
        lemma_filter_carried(lib, ids, original.drop_last(), input);
        let r = filter_tags(original.drop_last(), input);
        assert forall|k: int| 0 <= k < filter_tags(original, input).len() implies carried(lib, ids, #[trigger] filter_tags(original, input)[k]) by {
            if k < r.len() {
                assert(filter_tags(original, input)[k] == r[k]);
            } else {
                assert(filter_tags(original, input)[k] == original.last());
                assert(carried(lib, ids, original[original.len() - 1]));
            }
        }
    }
}

// ------------------------------------------------------------------------------------------
// Laws of the interface
// ------------------------------------------------------------------------------------------

/// Where each move key takes a highlight at position `i` of a list of `n` entries, with pages
/// of `page` entries: Up goes one back, from the first to the last; Down one on, from the last
/// to the first; Home to the first; End to the last; PageUp a page back, no further than the
/// first; PageDown a page on, no further than the last.
pub proof fn lemma_move_targets(code: KeyCode, i: int, n: int, page: int)
    requires
        0 <= i < n,
        0 <= page,
        is_move(code),
    ensures
        code == KeyCode::Up ==> move_target(code, i, n, page) == if i > 0 { i - 1 } else { n - 1 },
        code == KeyCode::Down ==> move_target(code, i, n, page) == if i + 1 < n { i + 1 } else { 0 },
        code == KeyCode::Home ==> move_target(code, i, n, page) == 0,
        code == KeyCode::End ==> move_target(code, i, n, page) == n - 1,
        code == KeyCode::PageUp ==> move_target(code, i, n, page) == if i < page { 0 } else { i - page },
        code == KeyCode::PageDown ==> move_target(code, i, n, page) == if i + page < n { i + page } else { n - 1 },
        0 <= move_target(code, i, n, page) < n,
{
    if i > 0 {
        vstd::arithmetic::div_mod::lemma_small_mod((i - 1) as nat, n as nat);
    } else {
        vstd::arithmetic::div_mod::lemma_mod_add_multiples_vanish(-1, n);
        vstd::arithmetic::div_mod::lemma_small_mod((n - 1) as nat, n as nat);
    }
    if i + 1 < n {
        vstd::arithmetic::div_mod::lemma_small_mod((i + 1) as nat, n as nat);
    } else {
        vstd::arithmetic::div_mod::lemma_mod_self_0(n);
    }
    if i >= page {
        vstd::arithmetic::div_mod::lemma_small_mod((i - page) as nat, n as nat);
    }
    if i + page < n {
        vstd::arithmetic::div_mod::lemma_small_mod((i + page) as nat, n as nat);
    }
}

/// End puts the highlight on the last entry of the list it moves in, in every mode: the last
/// snippet in a view (which is then shown), the last tag in a tag search, the last found
/// snippet in a keyword search.
pub proof fn lemma_end_highlights_last(
    lib: Seq<Snippet>,
    old: AppStateMode,
    key: KeyEvent,
    blocks: usize,
    new: AppStateMode,
    eff: Effect,
)
    requires
        old.wf(lib),
        key.pressed,
        key.code == KeyCode::End,
        transition(lib, old, Event::Key(key), blocks, new, eff),
    ensures
        old is View && (old->View_0).overlay == ViewOverlay::NoOverlay ==> ({
            let v = old->View_0;
            &&& new is View
            &&& (new->View_0).highlighted_snippet_index is Some
            &&& ((new->View_0).highlighted_snippet_index->Some_0).modulus() == v.snippets@.len()
            &&& ((new->View_0).highlighted_snippet_index->Some_0).val() == v.snippets@.len() - 1
            &&& (new->View_0).shown_snippet == v.snippets@[v.snippets@.len() - 1]
        }),
        old is TagSearch && (old->TagSearch_0).highlighted_tag_index is Some ==> ({
            let t = old->TagSearch_0;
            &&& new is TagSearch
            &&& (new->TagSearch_0).highlighted_tag_index is Some
            &&& ((new->TagSearch_0).highlighted_tag_index->Some_0).modulus() == t.tags@.len()
            &&& ((new->TagSearch_0).highlighted_tag_index->Some_0).val() == t.tags@.len() - 1
        }),
        old is KeywordSearch && (old->KeywordSearch_0).highlighted_snippet_index is Some ==> ({
            let k = old->KeywordSearch_0;
            &&& new is KeywordSearch
            &&& (new->KeywordSearch_0).highlighted_snippet_index is Some
            &&& ((new->KeywordSearch_0).highlighted_snippet_index->Some_0).modulus() == k.filtered_snippets@.len()
            &&& ((new->KeywordSearch_0).highlighted_snippet_index->Some_0).val() == k.filtered_snippets@.len() - 1
        }),
{
}

/// Backspace without Control in a keyword search removes one character: the last one of the
/// last keyword; where that keyword is empty and another comes before it, the empty one goes
/// and the last character of the one before goes with it. The other keywords stay as they
/// were.
pub proof fn lemma_backspace_drops_one_character(
    lib: Seq<Snippet>,
    old: AppStateMode,
    key: KeyEvent,
    blocks: usize,
    new: AppStateMode,
    eff: Effect,
)
    requires
        old.wf(lib),
        key.pressed,
        key.code == KeyCode::Backspace,
        !key.control,
        old is KeywordSearch,
        transition(lib, old, Event::Key(key), blocks, new, eff),
    ensures
        ({
            let k = old->KeywordSearch_0;
            let before = texts(k.keywords@);
            let n = before.len();
            let last = before[n - 1];
            &&& new is KeywordSearch
            &&& ({
                let after = texts((new->KeywordSearch_0).keywords@);
                &&& last.len() > 0 ==> after.len() == n && after[n - 1].len() + 1 == last.len() && after[n - 1] == last.take(
                    last.len() - 1,
                ) && forall|j: int| 0 <= j < n - 1 ==> after[j] == before[j]
                &&& last.len() == 0 && n >= 2 && before[n - 2].len() > 0 ==> after.len() == n - 1 && after[n - 2].len() + 1
                    == before[n - 2].len() && after[n - 2] == before[n - 2].take(before[n - 2].len() - 1) && forall|j: int|
                    0 <= j < n - 2 ==> after[j] == before[j]
                &&& last.len() == 0 && n == 1 ==> after == before
            })
        }),
{
}

/// Control-Backspace in a keyword search removes the last keyword that holds anything (an
/// empty last keyword goes with it) and begins a new, empty one; the keywords before stay.
pub proof fn lemma_control_backspace_drops_keyword(
    lib: Seq<Snippet>,
    old: AppStateMode,
    key: KeyEvent,
    blocks: usize,
    new: AppStateMode,
    eff: Effect,
)
    requires
        old.wf(lib),
        key.pressed,
        key.code == KeyCode::Backspace,
        key.control,
        old is KeywordSearch,
        transition(lib, old, Event::Key(key), blocks, new, eff),
    ensures
        ({
            let before = texts((old->KeywordSearch_0).keywords@);
            let n = before.len();
            &&& new is KeywordSearch
            &&& ({
                let after = texts((new->KeywordSearch_0).keywords@);
                &&& after[after.len() - 1].len() == 0
                &&& before[n - 1].len() > 0 ==> after == before.take(n - 1).push(Seq::empty())
                &&& before[n - 1].len() == 0 && n >= 2 ==> after == before.take(n - 2).push(Seq::empty())
            })
        }),
{
    let before = texts((old->KeywordSearch_0).keywords@);
    let n = before.len();
    if before[n - 1].len() > 0 {
        assert(before.take(n - 1) =~= before.drop_last());
    } else if n >= 2 {
        assert(before.take(n - 2) =~= before.drop_last().drop_last());
    }
}

/// The tags a tag search lists for an input: those of `tags`, in order, whose lower-cased name
/// starts, as bytes, with the lower-cased input.
pub proof fn lemma_filter_tags_by_lowercase_prefix(tags: Seq<Tag>, input: Seq<char>)
    ensures
        filter_tags(tags, input) == tags.filter(
            |t: Tag| has_prefix(encode_utf8(lowercase(t.name@)), encode_utf8(lowercase(input))),
        ),
    decreases tags.len(),
{
    reveal(Seq::filter);
    if tags.len() > 0 {
        lemma_filter_tags_by_lowercase_prefix(tags.drop_last(), input);
    }
}

/// Inputs that lower-case alike list the same tags: the filter ignores letter case.
pub proof fn lemma_filter_tags_ignores_case(tags: Seq<Tag>, a: Seq<char>, b: Seq<char>)
    requires
        lowercase(a) == lowercase(b),
    ensures
        filter_tags(tags, a) == filter_tags(tags, b),
{
    lemma_filter_tags_by_lowercase_prefix(tags, a);
    lemma_filter_tags_by_lowercase_prefix(tags, b);
}

/// Typing a character or Backspace in a tag search lists exactly the tags of the search, in
/// order, whose lower-cased name starts with the lower-cased new input: every listed tag does,
/// and every tag that does is listed.
pub proof fn lemma_typing_filters_tags(
    lib: Seq<Snippet>,
    old: AppStateMode,
    key: KeyEvent,
    blocks: usize,
    new: AppStateMode,
    eff: Effect,
)
    requires
        old.wf(lib),
        key.pressed,
        key.code == KeyCode::Backspace || (key.code matches KeyCode::Char(c) && is_graphic(c)),
        old is TagSearch,
        transition(lib, old, Event::Key(key), blocks, new, eff),
    ensures
        ({
            let t = old->TagSearch_0;
            &&& new is TagSearch
            &&& ({
                let u = new->TagSearch_0;
                let keep = |x: Tag| has_prefix(encode_utf8(lowercase(x.name@)), encode_utf8(lowercase(u.tag_input@)));
                &&& u.tag_input@ == if key.code == KeyCode::Backspace {
                    if t.tag_input@.len() > 0 { t.tag_input@.drop_last() } else { t.tag_input@ }
                } else {
                    t.tag_input@.push(key.code->Char_0)
                }
                &&& u.tags@ == t.original_tags@.filter(keep)
                &&& forall|j: int| 0 <= j < u.tags@.len() ==> keep(#[trigger] u.tags@[j]) && t.original_tags@.contains(u.tags@[j])
                &&& forall|i: int| 0 <= i < t.original_tags@.len() && keep(#[trigger] t.original_tags@[i]) ==> u.tags@.contains(
                    t.original_tags@[i],
                )
            })
        }),
{
    let t = old->TagSearch_0;
    let u = new->TagSearch_0;
    lemma_filter_tags_by_lowercase_prefix(t.original_tags@, u.tag_input@);
    let keep = |x: Tag| has_prefix(encode_utf8(lowercase(x.name@)), encode_utf8(lowercase(u.tag_input@)));
    assert forall|j: int| 0 <= j < u.tags@.len() implies keep(#[trigger] u.tags@[j]) && t.original_tags@.contains(u.tags@[j]) by {
        t.original_tags@.lemma_filter_pred(keep, j);
        assert(t.original_tags@.filter(keep).contains(u.tags@[j]));
        t.original_tags@.lemma_filter_contains_rev(keep, u.tags@[j]);
    }
    assert forall|i: int| 0 <= i < t.original_tags@.len() && keep(#[trigger] t.original_tags@[i]) implies u.tags@.contains(
        t.original_tags@[i],
    ) by {
        t.original_tags@.lemma_filter_contains(keep, i);
    }
}

} // verus!
