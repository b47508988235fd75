//! Laying the words of a document out in lines of a given width.
use vstd::prelude::*;
use vstd::seq_lib::lemma_flatten_concat;
use crate::document::fragment::{Code, Fragment};
use crate::document::color::Color;
use crate::document::line::Line;
use crate::document::mdconverter::{lines_view, pad_text, padded, spans_view, Alignment};
use crate::document::text::{push_char, spaces, spaces_seq};
use crate::util::strings::{decimal, to_decimal};
use vstd::string::StringExecFns;
use crate::document::span::{lemma_spans_len_prefix, spans_len, Span};
use crate::document::style::{combined, default_style, unset_style, Style};
use crate::document::word::Word;
use crate::snippets::snippets::code_blocks;

verus! {

/// The length of a word in bytes.
pub open spec fn word_len(w: Word) -> int {
    spans_len(w.0@) as int
}

/// The length of a line of words with one space between each two.
pub open spec fn line_length(line: Seq<Word>) -> int
    decreases line.len(),
{
    if line.len() == 0 {
        0
    } else if line.len() == 1 {
        word_len(line[0])
    } else {
        line_length(line.drop_last()) + 1 + word_len(line.last())
    }
}

/// One word placed: the lines finished so far, the line being filled and its length. A word
/// goes on the current line if that line is empty or the word still fits after a space;
/// otherwise it starts a new line.
pub open spec fn wrap_step(st: (Seq<Seq<Word>>, Seq<Word>, int), w: Word, width: int) -> (
    Seq<Seq<Word>>,
    Seq<Word>,
    int,
) {
    let (done, current, acc) = st;
    if current.len() == 0 {
        (done, seq![w], acc + word_len(w))
    } else if acc + 1 + word_len(w) <= width {
        (done, current.push(w), acc + word_len(w) + 1)
    } else {
        (done.push(current), seq![w], word_len(w))
    }
}

/// The words placed one after the other.
pub open spec fn wrap_scan(words: Seq<Word>, width: int) -> (Seq<Seq<Word>>, Seq<Word>, int)
    decreases words.len(),
{
    if words.len() == 0 {
        (seq![], seq![], 0)
    } else {
        wrap_step(wrap_scan(words.drop_last(), width), words.last(), width)
    }
}

/// The lines that `words` are broken into for lines of `width` bytes.
pub open spec fn wrapped_lines(words: Seq<Word>, width: int) -> Seq<Seq<Word>> {
    let (done, current, acc) = wrap_scan(words, width);
    done.push(current)
}

/// Lines of word references as lines of words.
pub open spec fn lines_of(lines: Seq<Vec<&Word>>) -> Seq<Seq<Word>> {
    lines.map_values(|l: Vec<&Word>| l@.map_values(|w: &Word| *w))
}

proof fn lemma_flatten_single(x: Seq<Word>)
    ensures
        seq![x].flatten() == x,
{
    seq![x].lemma_flatten_one_element();
}

/// What the scan keeps: the finished lines followed by the current one hold the words in
/// order; the current line's length is the tally; every finished line is non-empty, and
/// fits unless it holds a single word; the current line is empty only before the first word,
/// and then fits too unless it holds a single word.
proof fn lemma_wrap_scan(words: Seq<Word>, width: int)
    ensures
        ({
            let (done, current, acc) = wrap_scan(words, width);
            &&& done.push(current).flatten() == words
            &&& acc == line_length(current)
            &&& (current.len() == 0 <==> words.len() == 0)
            &&& forall|k: int| 0 <= k < done.len() ==> (#[trigger] done[k]).len() > 0
            &&& forall|k: int|
                0 <= k < done.len() && done[k].len() > 1 ==> line_length(#[trigger] done[k]) <= width
            &&& current.len() > 1 ==> acc <= width
        }),
    decreases words.len(),
{
    if words.len() > 0 {
        let rest = words.drop_last();
        let w = words.last();
        lemma_wrap_scan(rest, width);
        let (done, current, acc) = wrap_scan(rest, width);
        lemma_flatten_concat(done, seq![current]);
        lemma_flatten_single(current);
        assert(done.push(current) =~= done + seq![current]);
        assert(rest.push(w) =~= words);
        assert(rest.push(w) =~= done.flatten() + current + seq![w]);
        if current.len() == 0 {
            assert(seq![w].drop_last() =~= Seq::<Word>::empty());
            lemma_flatten_concat(done, seq![seq![w]]);
            lemma_flatten_single(seq![w]);
            assert(done.push(seq![w]) =~= done + seq![seq![w]]);
            assert(line_length(seq![w]) == word_len(w));
        } else if acc + 1 + word_len(w) <= width {
            assert(current.push(w).drop_last() =~= current);
            lemma_flatten_concat(done, seq![current.push(w)]);
            lemma_flatten_single(current.push(w));
            assert(done.push(current.push(w)) =~= done + seq![current.push(w)]);
            assert(line_length(current.push(w)) == line_length(current) + 1 + word_len(w));
        } else {
            let done2 = done.push(current);
            lemma_flatten_concat(done2, seq![seq![w]]);
            lemma_flatten_single(seq![w]);
            assert(done2.push(seq![w]) =~= done2 + seq![seq![w]]);
            assert(line_length(seq![w]) == word_len(w));
            assert(done2.flatten() == done.push(current).flatten());
            assert forall|k: int| 0 <= k < done2.len() implies (#[trigger] done2[k]).len() > 0 by {
                if k < done.len() {
                    assert(done2[k] == done[k]);
                }
            }
            assert forall|k: int| 0 <= k < done2.len() && done2[k].len() > 1 implies line_length(
                #[trigger] done2[k],
            ) <= width by {
                if k < done.len() {
                    assert(done2[k] == done[k]);
                }
            }
        }
    } else {
        lemma_flatten_single(Seq::<Word>::empty());
        assert(Seq::<Seq<Word>>::empty().push(Seq::<Word>::empty()) =~= seq![Seq::<Word>::empty()]);
        assert(words =~= Seq::<Word>::empty());
    }
}

/// Breaking words into lines keeps every word, in order: the lines run together are the words.
pub proof fn lemma_wrapped_lines_keep_words(words: Seq<Word>, width: int)
    ensures
        wrapped_lines(words, width).flatten() == words,
{
    lemma_wrap_scan(words, width);
}

/// Every line of a non-empty text holds a word, and a line of two or more words is no longer
/// than the width; only a word longer than the width gets a line that overflows.
pub proof fn lemma_wrapped_lines_fit(words: Seq<Word>, width: int)
    requires
        words.len() > 0,
    ensures
        forall|k: int|
            0 <= k < wrapped_lines(words, width).len() ==> (#[trigger] wrapped_lines(words, width)[k]).len() > 0,
        forall|k: int|
            0 <= k < wrapped_lines(words, width).len() && wrapped_lines(words, width)[k].len() > 1
                ==> line_length(#[trigger] wrapped_lines(words, width)[k]) <= width,
{
    lemma_wrap_scan(words, width);
    let (done, current, acc) = wrap_scan(words, width);
    let lines = done.push(current);
    assert forall|k: int| 0 <= k < lines.len() implies (#[trigger] lines[k]).len() > 0 by {
        if k < done.len() {
            assert(lines[k] == done[k]);
        }
    }
    assert forall|k: int| 0 <= k < lines.len() && lines[k].len() > 1 implies line_length(
        #[trigger] lines[k],
    ) <= width by {
        if k < done.len() {
            assert(lines[k] == done[k]);
        }
    }
}

/// Breaks words into lines of at most `line_width` bytes, greedily: each word goes on the
/// current line when it fits there after a space, else on a new line; a word longer than a
/// line gets a line of its own. There is always at least one line, empty for no words.
pub fn break_into_lines<'a>(words: &'a Vec<Word>, line_width: usize) -> (r: Vec<Vec<&'a Word>>)
    requires
        forall|k: int| 0 <= k < words@.len() ==> spans_len((#[trigger] words@[k]).0@) <= usize::MAX,
    ensures
        lines_of(r@) == wrapped_lines(words@, line_width as int),
        lines_of(r@).flatten() == words@,
{
    let mut done: Vec<Vec<&'a Word>> = Vec::new();
    let mut current: Vec<&'a Word> = Vec::new();
    let mut acc: usize = 0;
    let mut i: usize = 0;
    while i < words.len()
        invariant
            i <= words@.len(),
            forall|k: int| 0 <= k < words@.len() ==> spans_len((#[trigger] words@[k]).0@) <= usize::MAX,
            (lines_of(done@), current@.map_values(|w: &Word| *w), acc as int) == wrap_scan(
                words@.take(i as int),
                line_width as int,
            ),
        decreases words@.len() - i,
    {
        let word = &words[i];
        let len = word.len();
        proof {
            assert(words@.take(i + 1).drop_last() =~= words@.take(i as int));
            lemma_wrap_scan(words@.take(i as int), line_width as int);
        }
        let ghost before_done = done@;
        let ghost before_current = current@;
        if current.len() == 0 {
            current.push(word);
            acc = len;
            proof {
                assert(current@.map_values(|w: &Word| *w) =~= seq![*word]);
            }
        } else if acc < line_width && len <= line_width - acc - 1 {
            current.push(word);
            acc = acc + len + 1;
            proof {
                assert(current@.map_values(|w: &Word| *w) =~= before_current.map_values(|w: &Word| *w).push(*word));
            }
        } else {
            let finished = current;
            current = Vec::new();
            current.push(word);
            done.push(finished);
            acc = len;
            proof {
                assert(lines_of(done@) =~= lines_of(before_done).push(before_current.map_values(|w: &Word| *w)));
                assert(current@.map_values(|w: &Word| *w) =~= seq![*word]);
            }
        }
        i += 1;
    }
    proof {
        assert(words@.take(words@.len() as int) =~= words@);
        lemma_wrapped_lines_keep_words(words@, line_width as int);
    }
    let ghost before_done = done@;
    let ghost last = current@;
    done.push(current);
    proof {
        assert(lines_of(done@) =~= lines_of(before_done).push(last.map_values(|w: &Word| *w)));
    }
    done
}

/// Spans drawn over `base`, as plain values.
pub open spec fn styled_spans(spans: Seq<Span>, base: Style) -> Seq<(Seq<char>, Style)> {
    spans.map_values(|s: Span| (s.text@, combined(s.style, base)))
}

/// The spans of a line of a paragraph: the words' spans over the paragraph's style, with a
/// space in that style before each word that follows some span.
pub open spec fn paragraph_line(ws: Seq<Word>, style: Style) -> Seq<(Seq<char>, Style)>
    decreases ws.len(),
{
    if ws.len() == 0 {
        seq![]
    } else {
        let before = paragraph_line(ws.drop_last(), style);
        (if before.len() > 0 { before.push((seq![' '], style)) } else { before }) + styled_spans(
            ws.last().0@,
            style,
        )
    }
}

/// The lines of a paragraph broken for `width`.
pub open spec fn paragraph_lines(words: Seq<Word>, style: Style, width: int) -> Seq<Seq<(Seq<char>, Style)>> {
    wrapped_lines(words, width).map_values(|l: Seq<Word>| paragraph_line(l, style))
}

/// Whether a line shows any text.
pub open spec fn line_has_text(l: Seq<(Seq<char>, Style)>) -> bool {
    exists|k: int| 0 <= k < l.len() && (#[trigger] l[k]).0.len() > 0
}

/// The lines with an empty line added after a last line that shows text.
pub open spec fn separated(lines: Seq<Seq<(Seq<char>, Style)>>) -> Seq<Seq<(Seq<char>, Style)>> {
    if lines.len() > 0 && line_has_text(lines.last()) {
        lines.push(seq![])
    } else {
        lines
    }
}

/// Whether a line shows any text.
fn has_text(line: &Line) -> (r: bool)
    ensures
        r == line_has_text(spans_view(line.0@)),
{
    let mut k: usize = 0;
    while k < line.0.len()
        invariant
            k <= line.0@.len(),
            forall|j: int| 0 <= j < k ==> line.0@[j].text@.len() == 0,
        decreases line.0@.len() - k,
    {
        if !line.0[k].text.as_str().is_empty() {
            proof {
                assert(spans_view(line.0@)[k as int].0.len() > 0);
            }
            return true;
        }
        k += 1;
    }
    proof {
        assert forall|j: int| 0 <= j < spans_view(line.0@).len() implies !((#[trigger] spans_view(line.0@)[j]).0.len() > 0) by {
            assert(line.0@[j].text@.len() == 0);
        }
    }
    false
}

/// The words' spans over `style`, appended to `spans`.
fn push_styled(spans: &mut Vec<Span>, word: &Word, style: &Style)
    ensures
        spans_view(final(spans)@) == spans_view(old(spans)@) + styled_spans(word.0@, *style),
{
    let ghost start = spans_view(spans@);
    let mut k: usize = 0;
    while k < word.0.len()
        invariant
            k <= word.0@.len(),
            spans_view(spans@) == start + styled_spans(word.0@.take(k as int), *style),
        decreases word.0@.len() - k,
    {
        let span = &word.0[k];
        let ghost before = spans@;
        spans.push(Span { text: span.text.clone(), style: span.style.combine(style) });
        proof {
            assert(spans_view(spans@) =~= spans_view(before).push((span.text@, combined(span.style, *style))));
            assert(styled_spans(word.0@.take(k + 1), *style) =~= styled_spans(word.0@.take(k as int), *style).push(
                (span.text@, combined(span.style, *style)),
            ));
        }
        k += 1;
    }
    proof {
        assert(word.0@.take(k as int) =~= word.0@);
    }
}

/// Verbatim lines over the default style.
pub open spec fn verbatim_lines(lines: Seq<Line>) -> Seq<Seq<(Seq<char>, Style)>> {
    lines.map_values(|l: Line| styled_spans(l.0@, default_style()))
}

/// The words of a list line, each after an unstyled space, over the default style.
pub open spec fn list_words(ws: Seq<Word>) -> Seq<(Seq<char>, Style)>
    decreases ws.len(),
{
    if ws.len() == 0 {
        seq![]
    } else {
        list_words(ws.drop_last()) + seq![(seq![' '], unset_style())] + styled_spans(
            ws.last().0@,
            default_style(),
        )
    }
}

/// A line of a list item: a bullet on the first line, a space on the others, then the words.
pub open spec fn list_line(ws: Seq<Word>, first: bool) -> Seq<(Seq<char>, Style)> {
    seq![(if first { seq!['*'] } else { seq![' '] }, unset_style())] + list_words(ws)
}

/// The lines of a list item broken for `width`.
pub open spec fn item_lines(item: Seq<Word>, width: int) -> Seq<Seq<(Seq<char>, Style)>> {
    let wl = wrapped_lines(item, width);
    Seq::new(wl.len(), |i: int| list_line(wl[i], i == 0))
}

/// The lines of the items of a list, one item after the other.
pub open spec fn list_lines(items: Seq<Vec<Word>>, width: int) -> Seq<Seq<(Seq<char>, Style)>>
    decreases items.len(),
{
    if items.len() == 0 {
        seq![]
    } else {
        list_lines(items.drop_last(), width) + item_lines(items.last()@, width)
    }
}

/// The width of a code block: the line's width less two columns of margin on each side, or
/// ten where the line is too narrow for that.
pub open spec fn code_block_width(width: int) -> int {
    if width > 4 { width - 4 } else { 10 }
}

/// The style code blocks are drawn over: the default on dark gray.
pub open spec fn code_base() -> Style {
    Style { background: Some(Color { r: 32, g: 32, b: 32 }), ..default_style() }
}

/// The style of a code block's caption: the default on gray.
pub open spec fn code_caption_style() -> Style {
    Style { background: Some(Color { r: 128, g: 128, b: 128 }), ..default_style() }
}

/// The left margin of a code block's lines.
pub open spec fn margin_span() -> (Seq<char>, Style) {
    (spaces_seq(2), combined(default_style(), default_style()))
}

/// The blank line above and below a code block's code.
pub open spec fn separator_line(width: int) -> Seq<(Seq<char>, Style)> {
    seq![margin_span(), (spaces_seq(code_block_width(width) as nat), combined(default_style(), code_base()))]
}

/// The caption of the code block numbered `index`: its number in brackets, its metadata
/// (or "Code snippet") and its language in parentheses, if it has one.
pub open spec fn code_caption(index: nat, language: Option<String>, metadata: Option<String>) -> Seq<char> {
    let name = match metadata {
        Some(m) => m@,
        None => "Code snippet"@,
    };
    seq![' ', '['] + decimal(index) + seq![']', ' '] + name + match language {
        Some(l) => seq![' ', '('] + l@ + seq![')'],
        None => seq![],
    }
}

/// The caption line of a code block, padded to the block's width.
pub open spec fn caption_line(index: nat, code: Code, width: int) -> Seq<(Seq<char>, Style)> {
    seq![
        margin_span(),
        (
            padded(code_caption(index, code.language, code.metadata), code_block_width(width) as nat, Alignment::Left),
            combined(code_caption_style(), code_base()),
        ),
    ]
}

/// A line of code: the margin, its spans over the code style, and spaces up to the block's
/// width where it is no wider.
pub open spec fn code_line(l: Line, width: int) -> Seq<(Seq<char>, Style)> {
    let cw = code_block_width(width);
    seq![margin_span()] + styled_spans(l.0@, code_base()) + if spans_len(l.0@) <= cw {
        seq![(spaces_seq((cw - spans_len(l.0@)) as nat), combined(default_style(), code_base()))]
    } else {
        seq![]
    }
}

/// The lines a code block adds after `prev`: an empty line after text, the caption, a blank
/// line, the code, a blank line and an empty line.
pub open spec fn code_fragment_lines(
    prev: Seq<Seq<(Seq<char>, Style)>>,
    code: Code,
    index: nat,
    width: int,
) -> Seq<Seq<(Seq<char>, Style)>> {
    separated(prev).push(caption_line(index, code, width)).push(separator_line(width)) + code.highlighted_lines@.map_values(
        |l: Line| code_line(l, width),
    ).push(separator_line(width)).push(seq![])
}

/// Every word has a length that fits in `usize`.
pub open spec fn words_fit(words: Seq<Word>) -> bool {
    forall|k: int| 0 <= k < words.len() ==> spans_len((#[trigger] words[k]).0@) <= usize::MAX
}

/// Whether a fragment can be laid out for `width`: its words' and lines' lengths fit in
/// `usize`, and a list has room for its bullet.
pub open spec fn fragment_fits(f: Fragment, width: int) -> bool {
    match f {
        Fragment::Paragraph { words, .. } => words_fit(words@),
        Fragment::Heading { words, .. } => words_fit(words@),
        Fragment::Code(c) => forall|k: int|
            0 <= k < c.highlighted_lines@.len() ==> spans_len((#[trigger] c.highlighted_lines@[k]).0@) <= usize::MAX,
        Fragment::Verbatim { .. } => true,
        Fragment::List { items } => width >= 2 && forall|i: int| 0 <= i < items@.len() ==> words_fit(#[trigger] items@[i]@),
    }
}

/// Whether a document can be laid out for `width`.
pub open spec fn document_fits(document: Seq<Fragment>, width: int) -> bool {
    &&& document.len() < usize::MAX
    &&& forall|k: int| 0 <= k < document.len() ==> fragment_fits(#[trigger] document[k], width)
}

/// One fragment laid out after the lines so far; the second component numbers code blocks.
pub open spec fn render_step(st: (Seq<Seq<(Seq<char>, Style)>>, nat), f: Fragment, width: int) -> (
    Seq<Seq<(Seq<char>, Style)>>,
    nat,
) {
    let (lines, index) = st;
    match f {
        Fragment::Paragraph { words, style } => (lines + paragraph_lines(words@, style, width), index),
        Fragment::Heading { words, style, .. } => (separated(separated(lines) + paragraph_lines(words@, style, width)), index),
        Fragment::Code(c) => (code_fragment_lines(lines, c, index, width), index + 1),
        Fragment::Verbatim { lines: v } => (separated(separated(lines) + verbatim_lines(v@)), index),
        Fragment::List { items } => (separated(separated(lines) + list_lines(items@, width - 2)), index),
    }
}

/// The fragments laid out one after the other, code blocks numbered from 1.
pub open spec fn render_scan(document: Seq<Fragment>, width: int) -> (Seq<Seq<(Seq<char>, Style)>>, nat)
    decreases document.len(),
{
    if document.len() == 0 {
        (seq![], 1)
    } else {
        render_step(render_scan(document.drop_last(), width), document.last(), width)
    }
}

/// The lines of a document laid out for `width`.
pub open spec fn rendered(document: Seq<Fragment>, width: int) -> Seq<Seq<(Seq<char>, Style)>> {
    render_scan(document, width).0
}

/// Laying out numbers the code blocks from one, in the order of the document.
proof fn lemma_render_counts_code_blocks(document: Seq<Fragment>, width: int)
    ensures
        render_scan(document, width).1 == code_blocks(document).len() + 1,
    decreases document.len(),
{
    if document.len() > 0 {
        lemma_render_counts_code_blocks(document.drop_last(), width);
    }
}

/// A code block laid out after a document starts, after the blank line that follows any text,
/// with its caption line: the margin, then the caption padded to the block's width. The caption
/// is the block's number among the document's code blocks, counted from one, in brackets; its
/// metadata, or `Code snippet` where it has none; and, whenever it names a language, the
/// language in parentheses, whatever its metadata.
pub proof fn lemma_code_block_caption(document: Seq<Fragment>, code: Code, width: int)
    ensures
        ({
            let before = rendered(document, width);
            let lines = rendered(document.push(Fragment::Code(code)), width);
            let at = separated(before).len() as int;
            let name = match code.metadata {
                Some(m) => m@,
                None => "Code snippet"@,
            };
            let caption = seq![' ', '['] + decimal(code_blocks(document).len() + 1) + seq![']', ' '] + name + match code.language {
                Some(l) => seq![' ', '('] + l@ + seq![')'],
                None => Seq::<char>::empty(),
            };
            &&& lines.take(separated(before).len() as int) == separated(before)
            &&& at < lines.len()
            &&& lines[at].len() == 2
            &&& lines[at][0] == margin_span()
            &&& lines[at][1].0 == padded(caption, code_block_width(width) as nat, Alignment::Left)
        }),
{
    let d2 = document.push(Fragment::Code(code));
    assert(d2.drop_last() =~= document);
    lemma_render_counts_code_blocks(document, width);
    let prev = render_scan(document, width).0;
    let lines = rendered(d2, width);
    assert(lines == code_fragment_lines(prev, code, render_scan(document, width).1, width));
    let sep = separated(prev);
    assert(lines[sep.len() as int] == caption_line(render_scan(document, width).1, code, width));
    assert(lines.take(sep.len() as int) =~= sep);
    assert(code_blocks(d2) == code_blocks(document).push(code.original@));
}

/// Whenever a code block names a language, its caption ends with the language in parentheses,
/// after its metadata or `Code snippet`.
pub proof fn lemma_code_caption_ends_with_language(index: nat, language: String, metadata: Option<String>)
    ensures
        ({
            let c = code_caption(index, Some(language), metadata);
            let tail = seq![' ', '('] + language@ + seq![')'];
            &&& c.len() >= tail.len()
            &&& c.skip(c.len() - tail.len()) == tail
            &&& c.take(c.len() - tail.len()) == seq![' ', '['] + decimal(index) + seq![']', ' '] + match metadata {
                Some(m) => m@,
                None => "Code snippet"@,
            }
        }),
{
    let c = code_caption(index, Some(language), metadata);
    let tail = seq![' ', '('] + language@ + seq![')'];
    let head = seq![' ', '['] + decimal(index) + seq![']', ' '] + match metadata {
        Some(m) => m@,
        None => "Code snippet"@,
    };
    assert(c =~= head + tail);
    assert(c.skip(c.len() - tail.len()) =~= tail);
    assert(c.take(c.len() - tail.len()) =~= head);
}

proof fn lemma_render_index(document: Seq<Fragment>, width: int)
    ensures
        1 <= render_scan(document, width).1 <= document.len() + 1,
    decreases document.len(),
{
    if document.len() > 0 {
        lemma_render_index(document.drop_last(), width);
    }
}

/// Whether the total length of `spans` fits in `usize`.
fn spans_fit(spans: &Vec<Span>) -> (r: bool)
    ensures
        r == (spans_len(spans@) <= usize::MAX),
{
    let mut sum: usize = 0;
    let mut i: usize = 0;
    while i < spans.len()
        invariant
            i <= spans@.len(),
            sum == spans_len(spans@.take(i as int)),
        decreases spans@.len() - i,
    {
        proof {
            assert(spans@.take(i + 1).drop_last() =~= spans@.take(i as int));
            lemma_spans_len_prefix(spans@, i + 1);
        }
        let len = spans[i].len();
        match sum.checked_add(len) {
            Some(total) => {
                sum = total;
            },
            None => {
                return false;
            },
        }
        i += 1;
    }
    proof {
        assert(spans@.take(i as int) =~= spans@);
    }
    true
}

/// Whether every word's length fits in `usize`.
fn all_words_fit(words: &Vec<Word>) -> (r: bool)
    ensures
        r == words_fit(words@),
{
    let mut k: usize = 0;
    while k < words.len()
        invariant
            k <= words@.len(),
            forall|j: int| 0 <= j < k ==> spans_len((#[trigger] words@[j]).0@) <= usize::MAX,
        decreases words@.len() - k,
    {
        if !spans_fit(&words[k].0) {
            return false;
        }
        k += 1;
    }
    true
}

/// Whether a document can be laid out for `line_width`.
pub fn fits(document: &Vec<Fragment>, line_width: usize) -> (r: bool)
    ensures
        r == document_fits(document@, line_width as int),
{
    if document.len() == usize::MAX {
        return false;
    }
    let mut k: usize = 0;
    while k < document.len()
        invariant
            k <= document@.len(),
            document@.len() < usize::MAX,
            forall|j: int| 0 <= j < k ==> fragment_fits(#[trigger] document@[j], line_width as int),
        decreases document@.len() - k,
    {
        let ok = match &document[k] {
            Fragment::Paragraph { words, .. } => all_words_fit(words),
            Fragment::Heading { words, .. } => all_words_fit(words),
            Fragment::Code(c) => {
                let mut ok = true;
                let mut q: usize = 0;
                while q < c.highlighted_lines.len()
                    invariant
                        q <= c.highlighted_lines@.len(),
                        ok ==> forall|j: int| 0 <= j < q ==> spans_len((#[trigger] c.highlighted_lines@[j]).0@) <= usize::MAX,
                        !ok ==> exists|j: int| 0 <= j < c.highlighted_lines@.len() && spans_len((#[trigger] c.highlighted_lines@[j]).0@) > usize::MAX,
                    decreases c.highlighted_lines@.len() - q,
                {
                    if ok && !spans_fit(&c.highlighted_lines[q].0) {
                        ok = false;
                    }
                    q += 1;
                }
                ok
            },
            Fragment::Verbatim { .. } => true,
            Fragment::List { items } => {
                let mut ok = line_width >= 2;
                let mut q: usize = 0;
                while q < items.len()
                    invariant
                        q <= items@.len(),
                        ok ==> line_width >= 2 && forall|j: int| 0 <= j < q ==> words_fit(#[trigger] items@[j]@),
                        !ok ==> line_width < 2 || exists|j: int| 0 <= j < items@.len() && !words_fit(#[trigger] items@[j]@),
                    decreases items@.len() - q,
                {
                    if ok && !all_words_fit(&items[q]) {
                        ok = false;
                    }
                    q += 1;
                }
                ok
            },
        };
        if !ok {
            return false;
        }
        k += 1;
    }
    true
}

/// Lays documents out in lines of a given width.
struct DocumentRenderer {
    line_width: usize,
    lines: Vec<Line>,
    code_block_index: usize,
}

impl DocumentRenderer {
    /// Adds an empty line after a last line that shows text.
    fn add_separating_line(&mut self)
        ensures
            lines_view(final(self).lines@) == separated(lines_view(old(self).lines@)),
            final(self).line_width == old(self).line_width,
            final(self).code_block_index == old(self).code_block_index,
    {
        let n = self.lines.len();
        if n > 0 && has_text(&self.lines[n - 1]) {
            self.add_empty_line();
        }
    }

    /// Adds an empty line.
    fn add_empty_line(&mut self)
        ensures
            lines_view(final(self).lines@) == lines_view(old(self).lines@).push(seq![]),
            final(self).line_width == old(self).line_width,
            final(self).code_block_index == old(self).code_block_index,
    {
        let ghost before = self.lines@;
        let empty: Vec<Span> = Vec::new();
        proof {
            assert(spans_view(empty@) =~= Seq::<(Seq<char>, Style)>::empty());
        }
        self.lines.push(Line(empty));
        proof {
            assert(lines_view(self.lines@) =~= lines_view(before).push(seq![]));
        }
    }

    /// Adds the lines of a paragraph broken for the width.
    fn render_paragraph(&mut self, words: &Vec<Word>, style: &Style)
        requires
            forall|k: int| 0 <= k < words@.len() ==> spans_len((#[trigger] words@[k]).0@) <= usize::MAX,
        ensures
            lines_view(final(self).lines@) == lines_view(old(self).lines@) + paragraph_lines(
                words@,
                *style,
                old(self).line_width as int,
            ),
            final(self).line_width == old(self).line_width,
            final(self).code_block_index == old(self).code_block_index,
    {
        let document_lines = break_into_lines(words, self.line_width);
        let ghost wrapped = wrapped_lines(words@, self.line_width as int);
        let ghost start = lines_view(self.lines@);
        let mut i: usize = 0;
        while i < document_lines.len()
            invariant
                i <= document_lines@.len(),
                self.line_width == old(self).line_width,
                self.code_block_index == old(self).code_block_index,
                lines_of(document_lines@) == wrapped,
                lines_view(self.lines@) == start + wrapped.take(i as int).map_values(
                    |l: Seq<Word>| paragraph_line(l, *style),
                ),
            decreases document_lines@.len() - i,
        {
            let line = &document_lines[i];
            let ghost ws = line@.map_values(|w: &Word| *w);
            let mut spans: Vec<Span> = Vec::new();
            let mut j: usize = 0;
            while j < line.len()
                invariant
                    j <= line@.len(),
                    ws == line@.map_values(|w: &Word| *w),
                    spans_view(spans@) == paragraph_line(ws.take(j as int), *style),
                decreases line@.len() - j,
            {
                proof {
                    assert(ws.take(j + 1).drop_last() =~= ws.take(j as int));
                }
                if spans.len() > 0 {
                    let ghost before = spans@;
                    let space = String::from_str(" ");
                    proof {
                        reveal_strlit(" ");
                        assert(space@ =~= seq![' ']);
                    }
                    spans.push(Span { text: space, style: *style });
                    proof {
                        assert(spans_view(spans@) =~= spans_view(before).push((seq![' '], *style)));
                    }
                }
                push_styled(&mut spans, line[j], style);
                j += 1;
            }
            proof {
                assert(ws.take(j as int) =~= ws);
                assert(lines_of(document_lines@)[i as int] == ws);
            }
            let ghost before = self.lines@;
            let ghost added = spans@;
            self.lines.push(Line(spans));
            proof {
                assert(lines_view(self.lines@) =~= lines_view(before).push(spans_view(added)));
                assert(wrapped.take(i + 1) =~= wrapped.take(i as int).push(wrapped[i as int]));
                assert(wrapped.take(i + 1).map_values(|l: Seq<Word>| paragraph_line(l, *style)) =~= wrapped.take(
                    i as int,
                ).map_values(|l: Seq<Word>| paragraph_line(l, *style)).push(paragraph_line(wrapped[i as int], *style)));
            }
            i += 1;
        }
        proof {
            assert(wrapped.take(i as int) =~= wrapped);
        }
    }

    /// Adds a heading: its lines set apart by empty lines.
    fn render_heading_fragment(&mut self, words: &Vec<Word>, style: &Style)
        requires
            forall|k: int| 0 <= k < words@.len() ==> spans_len((#[trigger] words@[k]).0@) <= usize::MAX,
        ensures
            lines_view(final(self).lines@) == separated(
                separated(lines_view(old(self).lines@)) + paragraph_lines(words@, *style, old(self).line_width as int),
            ),
            final(self).line_width == old(self).line_width,
            final(self).code_block_index == old(self).code_block_index,
    {
        self.add_separating_line();
        self.render_paragraph(words, style);
        self.add_separating_line();
    }

    /// Adds verbatim lines, set apart by empty lines.
    fn render_verbatim_fragment(&mut self, lines: &Vec<Line>)
        ensures
            lines_view(final(self).lines@) == separated(separated(lines_view(old(self).lines@)) + verbatim_lines(lines@)),
            final(self).line_width == old(self).line_width,
            final(self).code_block_index == old(self).code_block_index,
    {
        let base = Style::default();
        self.add_separating_line();
        let ghost start = lines_view(self.lines@);
        let mut i: usize = 0;
        while i < lines.len()
            invariant
                i <= lines@.len(),
                base == default_style(),
                self.line_width == old(self).line_width,
                self.code_block_index == old(self).code_block_index,
                lines_view(self.lines@) == start + verbatim_lines(lines@.take(i as int)),
            decreases lines@.len() - i,
        {
            let mut spans: Vec<Span> = Vec::new();
            push_styled(&mut spans, &Word(clone_spans(&lines[i].0)), &base);
            let ghost before = self.lines@;
            let ghost added = spans@;
            self.lines.push(Line(spans));
            proof {
                assert(spans_view(added) =~= styled_spans(lines@[i as int].0@, default_style()));
                assert(lines_view(self.lines@) =~= lines_view(before).push(spans_view(added)));
                assert(verbatim_lines(lines@.take(i + 1)) =~= verbatim_lines(lines@.take(i as int)).push(
                    styled_spans(lines@[i as int].0@, default_style()),
                ));
            }
            i += 1;
        }
        proof {
            assert(lines@.take(i as int) =~= lines@);
        }
        self.add_separating_line();
    }

    /// Adds a list: each item's lines, a bullet before the first; set apart by empty lines.
    fn render_list(&mut self, items: &Vec<Vec<Word>>)
        requires
            old(self).line_width >= 2,
            forall|i: int, k: int|
                0 <= i < items@.len() && 0 <= k < items@[i]@.len() ==> spans_len((#[trigger] items@[i]@[k]).0@) <= usize::MAX,
        ensures
            lines_view(final(self).lines@) == separated(
                separated(lines_view(old(self).lines@)) + list_lines(items@, old(self).line_width - 2),
            ),
            final(self).line_width == old(self).line_width,
            final(self).code_block_index == old(self).code_block_index,
    {
        let list_item_max_width = self.line_width - 2;
        self.add_separating_line();
        let ghost start = lines_view(self.lines@);
        let mut i: usize = 0;
        while i < items.len()
            invariant
                i <= items@.len(),
                list_item_max_width == old(self).line_width - 2,
                self.line_width == old(self).line_width,
                self.code_block_index == old(self).code_block_index,
                forall|a: int, k: int|
                    0 <= a < items@.len() && 0 <= k < items@[a]@.len() ==> spans_len((#[trigger] items@[a]@[k]).0@) <= usize::MAX,
                lines_view(self.lines@) == start + list_lines(items@.take(i as int), list_item_max_width as int),
            decreases items@.len() - i,
        {
            let item = &items[i];
            assert forall|k: int| 0 <= k < item@.len() implies spans_len((#[trigger] item@[k]).0@) <= usize::MAX by {
                assert(item@[k] == items@[i as int]@[k]);
            }
            let lines = break_into_lines(item, list_item_max_width);
            let ghost wl = wrapped_lines(item@, list_item_max_width as int);
            let ghost before_item = lines_view(self.lines@);
            let mut j: usize = 0;
            while j < lines.len()
                invariant
                    j <= lines@.len(),
                    lines_of(lines@) == wl,
                    self.line_width == old(self).line_width,
                    self.code_block_index == old(self).code_block_index,
                    lines_view(self.lines@) == before_item + Seq::new(j as nat, |q: int| list_line(wl[q], q == 0)),
                decreases lines@.len() - j,
            {
                let line = &lines[j];
                let ghost ws = line@.map_values(|w: &Word| *w);
                let bullet = if j == 0 { String::from_str("*") } else { String::from_str(" ") };
                proof {
                    reveal_strlit("*");
                    reveal_strlit(" ");
                    assert(bullet@ =~= (if j == 0 { seq!['*'] } else { seq![' '] }));
                }
                let mut spans: Vec<Span> = vec![Span { text: bullet, style: Style::unset() }];
                let mut k: usize = 0;
                while k < line.len()
                    invariant
                        k <= line@.len(),
                        ws == line@.map_values(|w: &Word| *w),
                        spans_view(spans@) == seq![(if j == 0 { seq!['*'] } else { seq![' '] }, unset_style())]
                            + list_words(ws.take(k as int)),
                    decreases line@.len() - k,
                {
                    proof {
                        assert(ws.take(k + 1).drop_last() =~= ws.take(k as int));
                    }
                    let ghost before = spans@;
                    let space = String::from_str(" ");
                    proof {
                        reveal_strlit(" ");
                        assert(space@ =~= seq![' ']);
                    }
                    spans.push(Span { text: space, style: Style::unset() });
                    proof {
                        assert(spans_view(spans@) =~= spans_view(before).push((seq![' '], unset_style())));
                    }
                    push_styled(&mut spans, line[k], &Style::default());
                    k += 1;
                }
                proof {
                    assert(ws.take(k as int) =~= ws);
                    assert(lines_of(lines@)[j as int] == ws);
                }
                let ghost before = self.lines@;
                let ghost added = spans@;
                self.lines.push(Line(spans));
                proof {
                    assert(lines_view(self.lines@) =~= lines_view(before).push(spans_view(added)));
                    assert(Seq::new((j + 1) as nat, |q: int| list_line(wl[q], q == 0)) =~= Seq::new(
                        j as nat,
                        |q: int| list_line(wl[q], q == 0),
                    ).push(list_line(wl[j as int], j == 0)));
                }
                j += 1;
            }
            proof {
                assert(Seq::new(j as nat, |q: int| list_line(wl[q], q == 0)) =~= item_lines(item@, list_item_max_width as int));
                assert(items@.take(i + 1).drop_last() =~= items@.take(i as int));
            }
            i += 1;
        }
        proof {
            assert(items@.take(i as int) =~= items@);
        }
        self.add_separating_line();
    }

    /// Adds a code block: its caption, its lines framed by blank lines, and an empty line.
    #[verifier::rlimit(40)]
    fn render_code_fragment(&mut self, code: &Code)
        requires
            old(self).code_block_index < usize::MAX,
            forall|k: int| 0 <= k < code.highlighted_lines@.len() ==> spans_len(
                (#[trigger] code.highlighted_lines@[k]).0@,
            ) <= usize::MAX,
        ensures
            lines_view(final(self).lines@) == code_fragment_lines(
                lines_view(old(self).lines@),
                *code,
                old(self).code_block_index as nat,
                old(self).line_width as int,
            ),
            final(self).line_width == old(self).line_width,
            final(self).code_block_index == old(self).code_block_index + 1,
    {
        let base = Style::default().background(Color::gray(32));
        let caption_style = Style::default().background(Color::gray(128));
        let width = if self.line_width > 4 { self.line_width - 4 } else { 10 };
        let ghost w = self.line_width as int;

        let mut caption = String::new();
        push_char(&mut caption, ' ');
        push_char(&mut caption, '[');
        let number = to_decimal(self.code_block_index);
        caption.append(number.as_str());
        push_char(&mut caption, ']');
        push_char(&mut caption, ' ');
        match &code.metadata {
            Some(m) => caption.append(m.as_str()),
            None => caption.append("Code snippet"),
        }
        match &code.language {
            Some(l) => {
                push_char(&mut caption, ' ');
                push_char(&mut caption, '(');
                caption.append(l.as_str());
                push_char(&mut caption, ')');
            },
            None => {},
        }
        proof {
            assert(caption@ =~= code_caption(self.code_block_index as nat, code.language, code.metadata));
        }
        let caption_text = pad_text(&caption, width, Alignment::Left);

        self.add_separating_line();
        let ghost before = self.lines@;
        let caption_spans = vec![
            Span { text: spaces(2), style: Style::default().combine(&Style::default()) },
            Span { text: caption_text, style: caption_style.combine(&base) },
        ];
        proof {
            assert(spans_view(caption_spans@) =~= caption_line(self.code_block_index as nat, *code, w));
        }
        self.lines.push(Line(caption_spans));
        self.push_separator(width, &base);
        proof {
            assert(lines_view(self.lines@) =~= lines_view(before).push(caption_line(self.code_block_index as nat, *code, w)).push(
                separator_line(w),
            ));
        }

        let ghost start = lines_view(self.lines@);
        let code_lines = &code.highlighted_lines;
        let mut i: usize = 0;
        while i < code_lines.len()
            invariant
                i <= code_lines@.len(),
                code_lines == &code.highlighted_lines,
                forall|k: int| 0 <= k < code_lines@.len() ==> spans_len((#[trigger] code_lines@[k]).0@) <= usize::MAX,
                width == code_block_width(w),
                base == code_base(),
                w == self.line_width,
                self.line_width == old(self).line_width,
                self.code_block_index == old(self).code_block_index,
                lines_view(self.lines@) == start + code_lines@.take(i as int).map_values(|l: Line| code_line(l, w)),
            decreases code_lines@.len() - i,
        {
            let line = &code_lines[i];
            let mut spans: Vec<Span> = vec![Span { text: spaces(2), style: Style::default().combine(&Style::default()) }];
            let cloned = clone_spans(&line.0);
            proof {
                assert(styled_spans(cloned@, code_base()) =~= styled_spans(line.0@, code_base()));
            }
            push_styled(&mut spans, &Word(cloned), &base);
            let len = line.len();
            if len <= width {
                let ghost before_pad = spans@;
                spans.push(Span { text: spaces(width - len), style: Style::default().combine(&base) });
                proof {
                    assert(spans_view(spans@) =~= spans_view(before_pad).push(
                        (spaces_seq((width - len) as nat), combined(default_style(), code_base())),
                    ));
                }
            }
            proof {
                assert(spans_view(spans@) =~= code_line(*line, w));
            }
            let ghost before_line = self.lines@;
            let ghost added = spans@;
            self.lines.push(Line(spans));
            proof {
                assert(lines_view(self.lines@) =~= lines_view(before_line).push(spans_view(added)));
                assert(code_lines@.take(i + 1).map_values(|l: Line| code_line(l, w)) =~= code_lines@.take(i as int).map_values(
                    |l: Line| code_line(l, w),
                ).push(code_line(*line, w)));
            }
            i += 1;
        }
        proof {
            assert(code_lines@.take(i as int) =~= code_lines@);
        }
        self.push_separator(width, &base);
        self.add_empty_line();
        self.code_block_index = self.code_block_index + 1;
    }

    /// Adds the blank line that frames a code block's code.
    fn push_separator(&mut self, width: usize, base: &Style)
        requires
            width == code_block_width(old(self).line_width as int),
            *base == code_base(),
        ensures
            lines_view(final(self).lines@) == lines_view(old(self).lines@).push(separator_line(old(self).line_width as int)),
            final(self).line_width == old(self).line_width,
            final(self).code_block_index == old(self).code_block_index,
    {
        let spans = vec![
            Span { text: spaces(2), style: Style::default().combine(&Style::default()) },
            Span { text: spaces(width), style: Style::default().combine(base) },
        ];
        let ghost before = self.lines@;
        proof {
            assert(spans_view(spans@) =~= separator_line(self.line_width as int));
        }
        self.lines.push(Line(spans));
        proof {
            assert(lines_view(self.lines@) =~= lines_view(before).push(separator_line(self.line_width as int)));
        }
    }

    /// Lays out every fragment of `document`, one after the other.
    fn render(&mut self, document: &Vec<Fragment>)
        requires
            old(self).lines@.len() == 0,
            old(self).code_block_index == 1,
            document_fits(document@, old(self).line_width as int),
        ensures
            lines_view(final(self).lines@) == rendered(document@, old(self).line_width as int),
    {
        let ghost w = self.line_width as int;
        proof {
            assert(lines_view(self.lines@) =~= Seq::<Seq<(Seq<char>, Style)>>::empty());
        }
        let mut i: usize = 0;
        while i < document.len()
            invariant
                i <= document@.len(),
                w == self.line_width,
                document_fits(document@, w),
                (lines_view(self.lines@), self.code_block_index as nat) == render_scan(document@.take(i as int), w),
            decreases document@.len() - i,
        {
            proof {
                assert(document@.take(i + 1).drop_last() =~= document@.take(i as int));
                lemma_render_index(document@.take(i as int), w);
                assert(fragment_fits(document@[i as int], w));
            }
            match &document[i] {
                Fragment::Paragraph { words, style } => self.render_paragraph(words, style),
                Fragment::Heading { words, style, depth: _ } => self.render_heading_fragment(words, style),
                Fragment::Code(code) => self.render_code_fragment(code),
                Fragment::Verbatim { lines } => self.render_verbatim_fragment(lines),
                Fragment::List { items } => self.render_list(items),
            }
            i += 1;
        }
        proof {
            assert(document@.take(i as int) =~= document@);
        }
    }
}

/// The lines of a document laid out for lines of `line_width` columns: paragraphs broken
/// into lines, headings, verbatim lines and lists set apart by empty lines, and code blocks
/// numbered from 1, captioned and framed.
pub fn render_document_as_paragraph(document: &Vec<Fragment>, line_width: usize) -> (r: Vec<Line>)
    requires
        document_fits(document@, line_width as int),
    ensures
        lines_view(r@) == rendered(document@, line_width as int),
{
    let mut renderer = DocumentRenderer { line_width, lines: Vec::new(), code_block_index: 1 };
    renderer.render(document);
    renderer.lines
}

/// A copy of spans.
fn clone_spans(spans: &Vec<Span>) -> (r: Vec<Span>)
    ensures
        r@.len() == spans@.len(),
        forall|k: int| 0 <= k < r@.len() ==> (#[trigger] r@[k]).text@ == spans@[k].text@ && r@[k].style == spans@[k].style,
{
    let mut r: Vec<Span> = Vec::new();
    let mut k: usize = 0;
    while k < spans.len()
        invariant
            k <= spans@.len(),
            r@.len() == k,
            forall|j: int| 0 <= j < k ==> (#[trigger] r@[j]).text@ == spans@[j].text@ && r@[j].style == spans@[j].style,
        decreases spans@.len() - k,
    {
        r.push(Span { text: spans[k].text.clone(), style: spans[k].style });
        k += 1;
    }
    r
}

} // verus!