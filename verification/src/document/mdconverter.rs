//! Turning a markdown syntax tree into a document.
use markdown::mdast::{AlignKind, Node};
use markdown::{to_mdast, ParseOptions};
use vstd::prelude::*;
use vstd::string::StringExecFns;
use crate::document::fragment::{Code, Fragment};
use crate::document::line::Line;
use crate::document::span::Span;
use crate::document::style::{default_style, Style};
use crate::document::text::{byte_len, push_char, spaces, spaces_seq, str_len};
use crate::document::theme::Theme;
use crate::document::word::Word;
use crate::util::strings::{is_whitespace, white_space};

verus! {

/// How a table column aligns its cells.
#[derive(Debug, Clone, Copy, PartialEq, Eq, Structural)]
pub enum Alignment {
    Left,
    Right,
    Center,
    Unaligned,
}

/// What a node of a markdown syntax tree is.
#[derive(Debug)]
pub enum MdKind {
    Root,
    Paragraph,
    Heading(u8),
    Code { language: Option<String>, metadata: Option<String> },
    Table(Vec<Alignment>),
    TableRow,
    TableCell,
    List,
    ListItem,
    Text,
    InlineCode,
    Other,
}

/// A node of a markdown syntax tree: what it is, its text (the literal value of a text, inline
/// code or code node; for a parent, the texts of its children run together), and its children.
#[derive(Debug)]
pub struct MdNode {
    pub kind: MdKind,
    pub value: String,
    pub children: Vec<MdNode>,
}

/// A span as plain values: its text and its style.
pub open spec fn span_view(s: Span) -> (Seq<char>, Style) {
    (s.text@, s.style)
}

/// Spans as plain values.
pub open spec fn spans_view(ss: Seq<Span>) -> Seq<(Seq<char>, Style)> {
    ss.map_values(|s: Span| span_view(s))
}

/// A word as plain values: its spans.
pub open spec fn word_view(w: Word) -> Seq<(Seq<char>, Style)> {
    spans_view(w.0@)
}

/// Words as plain values.
pub open spec fn words_view(ws: Seq<Word>) -> Seq<Seq<(Seq<char>, Style)>> {
    ws.map_values(|w: Word| word_view(w))
}

/// ASCII whitespace as `u8::is_ascii_whitespace` documents it: space, tab, line feed,
/// form feed and carriage return.
pub open spec fn ascii_white_space(c: char) -> bool {
    c == ' ' || c == '\t' || c == '\n' || c == '\x0C' || c == '\r'
}

fn is_ascii_whitespace(c: char) -> (r: bool)
    ensures
        r == ascii_white_space(c),
{
    c == ' ' || c == '\t' || c == '\n' || c == '\x0C' || c == '\r'
}

/// Splitting at ASCII whitespace, as a scan: the words finished so far and the word being read.
pub open spec fn ascii_scan(s: Seq<char>) -> (Seq<Seq<char>>, Seq<char>)
    decreases s.len(),
{
    if s.len() == 0 {
        (seq![], seq![])
    } else {
        let (done, current) = ascii_scan(s.drop_last());
        if ascii_white_space(s.last()) {
            (if current.len() > 0 { done.push(current) } else { done }, seq![])
        } else {
            (done, current.push(s.last()))
        }
    }
}

/// The words of `s`: its maximal runs of characters other than ASCII whitespace, in order
/// (what `str::split_ascii_whitespace` yields).
pub open spec fn ascii_words(s: Seq<char>) -> Seq<Seq<char>> {
    let (done, current) = ascii_scan(s);
    if current.len() > 0 { done.push(current) } else { done }
}

/// One word of one span per piece of `string` between ASCII whitespace, each in `style`.
pub fn split_string_into_words(string: &String, style: &Style) -> (r: Vec<Word>)
    ensures
        words_view(r@) == ascii_words(string@).map_values(|w: Seq<char>| seq![(w, *style)]),
{
    let mut words: Vec<Word> = Vec::new();
    let mut current = String::new();
    let ghost text = string@;
    proof {
        assert(text.take(0) =~= Seq::<char>::empty());
    }
    for c in it: string.chars()
        invariant
            text == string@,
            it.seq() == text,
            words_view(words@) == ascii_scan(text.take(it.index() as int)).0.map_values(
                |w: Seq<char>| seq![(w, *style)],
            ),
            current@ == ascii_scan(text.take(it.index() as int)).1,
    {
        let ghost n = it.index() as int;
        proof {
            assert(text.take(n + 1).drop_last() =~= text.take(n));
        }
        if is_ascii_whitespace(c) {
            if !current.as_str().is_empty() {
                let finished = current;
                current = String::new();
                let ghost before = words@;
                words.push(Word(vec![Span { text: finished, style: *style }]));
                proof {
                    assert(word_view(words@.last()) =~= seq![(finished@, *style)]);
                    assert(words@.drop_last() =~= before);
                    assert(words_view(words@) =~= words_view(before).push(seq![(finished@, *style)]));
                }
            } else {
                current = String::new();
            }
        } else {
            push_char(&mut current, c);
        }
        proof {
            let (d, cur) = ascii_scan(text.take(n + 1));
            assert(words_view(words@) =~= d.map_values(|w: Seq<char>| seq![(w, *style)]));
        }
    }
    proof {
        assert(text.take(text.len() as int) =~= text);
    }
    if !current.as_str().is_empty() {
        let ghost before = words@;
        let last = current;
        words.push(Word(vec![Span { text: last, style: *style }]));
        proof {
            assert(word_view(words@.last()) =~= seq![(last@, *style)]);
            assert(words@.drop_last() =~= before);
            assert(words_view(words@) =~= words_view(before).push(seq![(last@, *style)]));
        }
    }
    proof {
        assert(words_view(words@) =~= ascii_words(text).map_values(|w: Seq<char>| seq![(w, *style)]));
    }
    words
}

/// Whether a node can stand in running text: plain text or inline code.
pub open spec fn is_inline(n: MdNode) -> bool {
    n.kind is Text || n.kind is InlineCode
}

/// One character of running text read into the words finished so far, the spans of the word
/// being read and the span being read: whitespace ends the span and the word.
pub open spec fn scan_char(
    st: (Seq<Seq<(Seq<char>, Style)>>, Seq<(Seq<char>, Style)>, Seq<char>),
    c: char,
    style: Style,
) -> (Seq<Seq<(Seq<char>, Style)>>, Seq<(Seq<char>, Style)>, Seq<char>) {
    let (words, spans, span) = st;
    if white_space(c) {
        let spans2 = if span.len() > 0 { spans.push((span, style)) } else { spans };
        if spans2.len() > 0 { (words.push(spans2), seq![], seq![]) } else { (words, spans2, seq![]) }
    } else {
        (words, spans, span.push(c))
    }
}

/// The characters of `s` read one after the other, starting with no span being read.
pub open spec fn scan_chars(
    start: (Seq<Seq<(Seq<char>, Style)>>, Seq<(Seq<char>, Style)>),
    s: Seq<char>,
    style: Style,
) -> (Seq<Seq<(Seq<char>, Style)>>, Seq<(Seq<char>, Style)>, Seq<char>)
    decreases s.len(),
{
    if s.len() == 0 {
        (start.0, start.1, seq![])
    } else {
        scan_char(scan_chars(start, s.drop_last(), style), s.last(), style)
    }
}

/// One node of running text read: inline code is a span of its own in the word being read;
/// text is read character by character in the `text` style.
pub open spec fn scan_inline(
    st: (Seq<Seq<(Seq<char>, Style)>>, Seq<(Seq<char>, Style)>),
    n: MdNode,
    text: Style,
    code: Style,
) -> (Seq<Seq<(Seq<char>, Style)>>, Seq<(Seq<char>, Style)>) {
    if n.kind is InlineCode {
        (st.0, st.1.push((n.value@, code)))
    } else {
        let (words, spans, span) = scan_chars(st, n.value@, text);
        (words, if span.len() > 0 { spans.push((span, text)) } else { spans })
    }
}

/// The nodes read one after the other.
pub open spec fn scan_inlines(nodes: Seq<MdNode>, text: Style, code: Style) -> (
    Seq<Seq<(Seq<char>, Style)>>,
    Seq<(Seq<char>, Style)>,
)
    decreases nodes.len(),
{
    if nodes.len() == 0 {
        (seq![], seq![])
    } else {
        scan_inline(scan_inlines(nodes.drop_last(), text, code), nodes.last(), text, code)
    }
}

/// The words of running text: whitespace separates words; a piece of inline code joins the
/// word it touches.
pub open spec fn text_words(nodes: Seq<MdNode>, text: Style, code: Style) -> Seq<
    Seq<(Seq<char>, Style)>,
> {
    let (words, spans) = scan_inlines(nodes, text, code);
    if spans.len() > 0 { words.push(spans) } else { words }
}

/// Words that each hold at least one span.
pub open spec fn all_nonempty(words: Seq<Seq<(Seq<char>, Style)>>) -> bool {
    forall|k: int| 0 <= k < words.len() ==> (#[trigger] words[k]).len() > 0
}

proof fn lemma_scan_chars_nonempty(
    start: (Seq<Seq<(Seq<char>, Style)>>, Seq<(Seq<char>, Style)>),
    s: Seq<char>,
    style: Style,
)
    requires
        all_nonempty(start.0),
    ensures
        all_nonempty(scan_chars(start, s, style).0),
    decreases s.len(),
{
    if s.len() > 0 {
        lemma_scan_chars_nonempty(start, s.drop_last(), style);
        let st = scan_chars(start, s.drop_last(), style);
        let next = scan_char(st, s.last(), style);
        assert forall|k: int| 0 <= k < next.0.len() implies (#[trigger] next.0[k]).len() > 0 by {
            if k < st.0.len() {
                assert(next.0[k] == st.0[k]);
            }
        }
    }
}

proof fn lemma_scan_inlines_nonempty(nodes: Seq<MdNode>, text: Style, code: Style)
    ensures
        all_nonempty(scan_inlines(nodes, text, code).0),
    decreases nodes.len(),
{
    if nodes.len() > 0 {
        lemma_scan_inlines_nonempty(nodes.drop_last(), text, code);
        let st = scan_inlines(nodes.drop_last(), text, code);
        lemma_scan_chars_nonempty(st, nodes.last().value@, text);
    }
}

/// Running text never gives an empty word: every word holds at least one span.
pub proof fn lemma_text_words_nonempty(nodes: Seq<MdNode>, text: Style, code: Style)
    ensures
        all_nonempty(text_words(nodes, text, code)),
{
    lemma_scan_inlines_nonempty(nodes, text, code);
    let (words, spans) = scan_inlines(nodes, text, code);
    if spans.len() > 0 {
        assert forall|k: int| 0 <= k < words.push(spans).len() implies (#[trigger] words.push(spans)[k]).len() > 0 by {
            if k < words.len() {
                assert(words.push(spans)[k] == words[k]);
            }
        }
    }
}

/// Converts running text (text and inline code nodes) to words.
pub fn convert_text_nodes(nodes: &Vec<MdNode>, theme: &Theme) -> (r: Vec<Word>)
    requires
        forall|k: int| 0 <= k < nodes@.len() ==> is_inline(#[trigger] nodes@[k]),
    ensures
        words_view(r@) == text_words(nodes@, theme.default, theme.inline_code),
{
    let mut words: Vec<Word> = Vec::new();
    let mut spans: Vec<Span> = Vec::new();
    let mut i: usize = 0;
    while i < nodes.len()
        invariant
            i <= nodes@.len(),
            forall|k: int| 0 <= k < nodes@.len() ==> is_inline(#[trigger] nodes@[k]),
            (words_view(words@), spans_view(spans@)) == scan_inlines(
                nodes@.take(i as int),
                theme.default,
                theme.inline_code,
            ),
        decreases nodes@.len() - i,
    {
        let node = &nodes[i];
        proof {
            assert(nodes@.take(i + 1).drop_last() =~= nodes@.take(i as int));
            assert(is_inline(nodes@[i as int]));
        }
        let ghost start = (words_view(words@), spans_view(spans@));
        match node.kind {
            MdKind::InlineCode => {
                let ghost before = spans@;
                spans.push(Span { text: node.value.clone(), style: theme.inline_code });
                proof {
                    assert(spans@.drop_last() =~= before);
                    assert(spans_view(spans@) =~= spans_view(before).push((node.value@, theme.inline_code)));
                }
            },
            _ => {
                let mut span = String::new();
                let ghost text = node.value@;
                proof {
                    assert(text.take(0) =~= Seq::<char>::empty());
                }
                for c in it: node.value.chars()
                    invariant
                        text == node.value@,
                        it.seq() == text,
                        (words_view(words@), spans_view(spans@), span@) == scan_chars(
                            start,
                            text.take(it.index() as int),
                            theme.default,
                        ),
                {
                    let ghost n = it.index() as int;
                    proof {
                        assert(text.take(n + 1).drop_last() =~= text.take(n));
                    }
                    if is_whitespace(c) {
                        if !span.as_str().is_empty() {
                            let finished = span;
                            span = String::new();
                            let ghost before = spans@;
                            spans.push(Span { text: finished, style: theme.default });
                            proof {
                                assert(spans@.drop_last() =~= before);
                                assert(spans_view(spans@) =~= spans_view(before).push(
                                    (finished@, theme.default),
                                ));
                            }
                        }
                        if spans.len() > 0 {
                            let finished = spans;
                            spans = Vec::new();
                            let ghost before = words@;
                            words.push(Word(finished));
                            proof {
                                assert(words@.drop_last() =~= before);
                                assert(words_view(words@) =~= words_view(before).push(
                                    spans_view(finished@),
                                ));
                                assert(spans_view(spans@) =~= Seq::<(Seq<char>, Style)>::empty());
                            }
                        }
                        span = String::new();
                    } else {
                        push_char(&mut span, c);
                    }
                }
                proof {
                    assert(text.take(text.len() as int) =~= text);
                }
                if !span.as_str().is_empty() {
                    let ghost before = spans@;
                    spans.push(Span { text: span, style: theme.default });
                    proof {
                        assert(spans@.drop_last() =~= before);
                        assert(spans_view(spans@) =~= spans_view(before).push((span@, theme.default)));
                    }
                }
            },
        }
        i += 1;
    }
    proof {
        assert(nodes@.take(nodes@.len() as int) =~= nodes@);
    }
    if spans.len() > 0 {
        let ghost before = words@;
        words.push(Word(spans));
        proof {
            assert(words@.drop_last() =~= before);
            assert(words_view(words@) =~= words_view(before).push(spans_view(spans@)));
        }
    }
    words
}

/// The alignments of a table's columns (none for another node).
pub open spec fn table_alignments(table: MdNode) -> Seq<Alignment> {
    match table.kind {
        MdKind::Table(alignments) => alignments@,
        _ => seq![],
    }
}

/// The text of a table cell: the value of its first child.
pub open spec fn cell_text(cell: MdNode) -> Seq<char> {
    cell.children@[0].value@
}

/// The texts of a table's cells, row by row.
pub open spec fn table_cells(table: MdNode) -> Seq<Seq<Seq<char>>> {
    table.children@.map_values(
        |row: MdNode| row.children@.map_values(|cell: MdNode| cell_text(cell)),
    )
}

/// Whether `table` is a table that can be laid out: it has a header row, every row has as many
/// cells as the header, every cell holds exactly one text node, every column has an
/// alignment, and every cell's length in bytes leaves room for the padding.
pub open spec fn table_supported(table: MdNode) -> bool {
    &&& table.kind is Table
    &&& table.children@.len() > 0
    &&& table_alignments(table).len() >= table.children@[0].children@.len()
    &&& forall|r: int|
        0 <= r < table.children@.len() ==> {
            &&& (#[trigger] table.children@[r]).kind is TableRow
            &&& table.children@[r].children@.len() == table.children@[0].children@.len()
        }
    &&& forall|r: int, c: int|
        0 <= r < table.children@.len() && 0 <= c < table.children@[r].children@.len() ==> {
            let cell = #[trigger] table.children@[r].children@[c];
            &&& cell.kind is TableCell
            &&& cell.children@.len() == 1
            &&& cell.children@[0].kind is Text
            &&& byte_len(cell_text(cell)) + 2 <= usize::MAX
        }
}

/// The greatest length in bytes of the texts in column `c` of the first `n` rows.
pub open spec fn column_max(cells: Seq<Seq<Seq<char>>>, c: int, n: nat) -> nat
    decreases n,
{
    if n == 0 {
        0
    } else {
        let rest = column_max(cells, c, (n - 1) as nat);
        let here = byte_len(cells[n - 1][c]);
        if here > rest { here } else { rest }
    }
}

/// The width of column `c`: its longest text in bytes, and a space on either side.
pub open spec fn column_width(cells: Seq<Seq<Seq<char>>>, c: int) -> nat {
    column_max(cells, c, cells.len()) + 2
}

/// `text` padded with spaces to `width` characters as `format!` aligns it: on the right for
/// left alignment or none, on the left for right alignment, and on both sides for center
/// alignment, the odd space going to the right.
pub open spec fn padded(text: Seq<char>, width: nat, alignment: Alignment) -> Seq<char> {
    if text.len() >= width {
        text
    } else {
        let pad = (width - text.len()) as nat;
        match alignment {
            Alignment::Right => spaces_seq(pad) + text,
            Alignment::Center => spaces_seq(pad / 2) + text + spaces_seq((pad - pad / 2) as nat),
            _ => text + spaces_seq(pad),
        }
    }
}

/// The style of row `r`: the header's for the first, then alternating even and odd rows.
pub open spec fn row_style(theme: Theme, r: int) -> Style {
    if r == 0 {
        theme.table_heading
    } else if r % 2 == 0 {
        theme.table_even_row
    } else {
        theme.table_odd_row
    }
}

/// The spans of row `r` of a table: two spaces of indentation, then every cell padded to its
/// column's width in the row's style.
pub open spec fn table_line(table: MdNode, theme: Theme, r: int) -> Seq<(Seq<char>, Style)> {
    let cells = table_cells(table);
    seq![(spaces_seq(2), default_style())] + Seq::new(
        cells[r].len(),
        |c: int|
            (
                padded(cells[r][c], column_width(cells, c), table_alignments(table)[c]),
                row_style(theme, r),
            ),
    )
}

/// A string takes at least one byte per character.
proof fn lemma_byte_len_at_least_len(s: Seq<char>)
    ensures
        byte_len(s) >= s.len(),
    decreases s.len(),
{
    if s.len() > 0 {
        lemma_byte_len_at_least_len(s.drop_first());
        assert(vstd::utf8::encode_scalar(s[0] as u32).len() >= 1);
        assert(s.drop_first() == s.subrange(1, s.len() as int));
    }
}

/// No text of a column is longer in bytes than the longest.
proof fn lemma_column_max(cells: Seq<Seq<Seq<char>>>, c: int, n: nat, r: int)
    requires
        0 <= r < n,
    ensures
        byte_len(cells[r][c]) <= column_max(cells, c, n),
    decreases n,
{
    if r < n - 1 {
        lemma_column_max(cells, c, (n - 1) as nat, r);
    }
}

/// Every cell of a laid-out table is exactly as wide, in characters, as its column: the
/// rows of a table line up.
pub proof fn lemma_table_cells_fill_columns(table: MdNode, theme: Theme, r: int, c: int)
    requires
        table_supported(table),
        0 <= r < table.children@.len(),
        0 <= c < table.children@[0].children@.len(),
    ensures
        table_line(table, theme, r).len() == table.children@[0].children@.len() + 1,
        table_line(table, theme, r)[c + 1].0.len() == column_width(table_cells(table), c),
{
    let cells = table_cells(table);
    let text = cells[r][c];
    lemma_byte_len_at_least_len(text);
    lemma_column_max(cells, c, cells.len(), r);
    let width = column_width(cells, c);
    let pad = (width - text.len()) as nat;
    assert(spaces_seq(pad).len() == pad);
    assert(spaces_seq(pad / 2).len() == pad / 2);
    assert(spaces_seq((pad - pad / 2) as nat).len() == pad - pad / 2);
}

/// Lines as plain values.
pub open spec fn lines_view(lines: Seq<Line>) -> Seq<Seq<(Seq<char>, Style)>> {
    lines.map_values(|l: Line| spans_view(l.0@))
}

/// How many characters `s` has, counting no further than `limit`.
fn char_count_up_to(s: &String, limit: usize) -> (n: usize)
    ensures
        n == if s@.len() < limit { s@.len() } else { limit as nat },
{
    let mut n: usize = 0;
    for c in it: s.chars()
        invariant
            it.seq() == s@,
            n == if it.index() < limit { it.index() } else { limit as int },
    {
        if n < limit {
            n += 1;
        }
    }
    n
}

/// `text` padded to `width` characters for `alignment`.
pub fn pad_text(text: &String, width: usize, alignment: Alignment) -> (r: String)
    ensures
        r@ == padded(text@, width as nat, alignment),
{
    let n = char_count_up_to(text, width);
    if n >= width {
        return text.clone();
    }
    let pad = width - n;
    match alignment {
        Alignment::Right => {
            let mut r = spaces(pad);
            r.append(text.as_str());
            r
        },
        Alignment::Center => {
            let mut r = spaces(pad / 2);
            r.append(text.as_str());
            let right = spaces(pad - pad / 2);
            r.append(right.as_str());
            r
        },
        _ => {
            let mut r = text.clone();
            let right = spaces(pad);
            r.append(right.as_str());
            r
        },
    }
}

/// Lays a table out as verbatim lines, each cell padded to its column's width.
pub fn convert_table(table: &MdNode, theme: &Theme) -> (r: Fragment)
    requires
        table_supported(*table),
    ensures
        r matches Fragment::Verbatim { lines } && lines_view(lines@) == Seq::new(
            table.children@.len(),
            |row: int| table_line(*table, *theme, row),
        ),
{
    let ghost cells = table_cells(*table);
    let rows = &table.children;
    let row_count = rows.len();
    let column_count = rows[0].children.len();
    let alignments = match &table.kind {
        MdKind::Table(a) => a,
        _ => { return Fragment::Verbatim { lines: Vec::new() }; },
    };
    let mut widths: Vec<usize> = Vec::new();
    let mut c: usize = 0;
    while c < column_count
        invariant
            table_supported(*table),
            cells == table_cells(*table),
            rows == &table.children,
            row_count == rows@.len(),
            column_count == rows@[0].children@.len(),
            c <= column_count,
            widths@.len() == c,
            forall|k: int| 0 <= k < c ==> #[trigger] widths@[k] == column_width(cells, k),
        decreases column_count - c,
    {
        let mut widest: usize = 0;
        let mut r: usize = 0;
        while r < row_count
            invariant
                table_supported(*table),
                cells == table_cells(*table),
                rows == &table.children,
                row_count == rows@.len(),
                column_count == rows@[0].children@.len(),
                c < column_count,
                r <= row_count,
                widest == column_max(cells, c as int, r as nat),
                widest + 2 <= usize::MAX,
            decreases row_count - r,
        {
            let cell = &rows[r].children[c];
            assert(cell.children@.len() == 1);
            let len = str_len(&cell.children[0].value);
            proof {
                assert(cells[r as int][c as int] == cell_text(*cell));
            }
            if len > widest {
                widest = len;
            }
            r += 1;
        }
        widths.push(widest + 2);
        proof {
            assert(widths@[c as int] == column_width(cells, c as int));
        }
        c += 1;
    }
    let mut lines: Vec<Line> = Vec::new();
    let mut r: usize = 0;
    while r < row_count
        invariant
            table_supported(*table),
            cells == table_cells(*table),
            rows == &table.children,
            row_count == rows@.len(),
            column_count == rows@[0].children@.len(),
            alignments@ == table_alignments(*table),
            widths@.len() == column_count,
            forall|k: int| 0 <= k < column_count ==> #[trigger] widths@[k] == column_width(cells, k),
            r <= row_count,
            lines_view(lines@) == Seq::new(r as nat, |row: int| table_line(*table, *theme, row)),
        decreases row_count - r,
    {
        let style = if r == 0 {
            theme.table_heading
        } else if r % 2 == 0 {
            theme.table_even_row
        } else {
            theme.table_odd_row
        };
        let mut spans: Vec<Span> = vec![Span { text: spaces(2), style: Style::default() }];
        let row = &rows[r];
        let mut c: usize = 0;
        while c < column_count
            invariant
                table_supported(*table),
                cells == table_cells(*table),
                rows == &table.children,
                row_count == rows@.len(),
                column_count == rows@[0].children@.len(),
                alignments@ == table_alignments(*table),
                widths@.len() == column_count,
                forall|k: int| 0 <= k < column_count ==> #[trigger] widths@[k] == column_width(cells, k),
                r < row_count,
                row == &rows@[r as int],
                style == row_style(*theme, r as int),
                c <= column_count,
                spans_view(spans@) == table_line(*table, *theme, r as int).take(c + 1),
            decreases column_count - c,
        {
            let cell = &row.children[c];
            let text = pad_text(&cell.children[0].value, widths[c], alignments[c]);
            let ghost before = spans@;
            spans.push(Span { text, style });
            proof {
                let line = table_line(*table, *theme, r as int);
                assert(cells[r as int][c as int] == cell_text(*cell));
                assert(cells[r as int].len() == column_count);
                assert(line[c + 1] == (text@, style));
                assert(spans@.drop_last() =~= before);
                assert(spans_view(spans@) =~= spans_view(before).push((text@, style)));
                assert(line.take(c + 2) =~= line.take(c + 1).push(line[c + 1]));
            }
            c += 1;
        }
        let ghost before = lines@;
        let ghost last = spans@;
        lines.push(Line(spans));
        proof {
            assert(cells[r as int].len() == column_count);
            assert(lines_view(lines@) =~= lines_view(before).push(spans_view(last)));
            assert(table_line(*table, *theme, r as int).take(column_count + 1) =~= table_line(
                *table,
                *theme,
                r as int,
            ));
            assert(lines@.drop_last() =~= before);
            assert(lines_view(lines@) =~= Seq::new((r + 1) as nat, |row: int| table_line(*table, *theme, row)));
        }
        r += 1;
    }
    Fragment::Verbatim { lines }
}

/// The words of a heading's text nodes: each node split at ASCII whitespace on its own.
pub open spec fn heading_words(nodes: Seq<MdNode>) -> Seq<Seq<char>>
    decreases nodes.len(),
{
    if nodes.len() == 0 {
        seq![]
    } else {
        heading_words(nodes.drop_last()) + ascii_words(nodes.last().value@)
    }
}

/// The depth of a heading node (0 for another node).
pub open spec fn heading_depth(n: MdNode) -> int {
    match n.kind {
        MdKind::Heading(depth) => depth as int,
        _ => 0,
    }
}

/// Whether a heading can be converted: its depth has a style in the theme (1 to 3) and its
/// children are text nodes.
pub open spec fn heading_supported(n: MdNode) -> bool {
    &&& n.kind is Heading
    &&& 1 <= heading_depth(n) <= 3
    &&& forall|k: int| 0 <= k < n.children@.len() ==> (#[trigger] n.children@[k]).kind is Text
}

/// A heading: its words, each one span in the style of its level, and its level counted from 0.
pub fn convert_heading(heading: &MdNode, theme: &Theme) -> (r: Fragment)
    requires
        heading_supported(*heading),
    ensures
        r matches Fragment::Heading { words, depth, style } && {
            &&& depth == heading_depth(*heading) - 1
            &&& style == theme.headings@[depth as int]
            &&& words_view(words@) == heading_words(heading.children@).map_values(
                |w: Seq<char>| seq![(w, style)],
            )
        },
{
    let depth = match heading.kind {
        MdKind::Heading(d) => d,
        _ => 1,
    };
    let level = (depth - 1) as usize;
    let style = theme.headings[level];
    let mut words: Vec<Word> = Vec::new();
    let mut i: usize = 0;
    while i < heading.children.len()
        invariant
            i <= heading.children@.len(),
            words_view(words@) == heading_words(heading.children@.take(i as int)).map_values(
                |w: Seq<char>| seq![(w, style)],
            ),
        decreases heading.children@.len() - i,
    {
        let mut part = split_string_into_words(&heading.children[i].value, &style);
        let ghost before = words@;
        let ghost added = part@;
        words.append(&mut part);
        proof {
            assert(heading.children@.take(i + 1).drop_last() =~= heading.children@.take(i as int));
            assert(words@ =~= before + added);
            assert(words_view(words@) =~= words_view(before) + words_view(added));
            assert(words_view(words@) =~= heading_words(heading.children@.take(i + 1)).map_values(
                |w: Seq<char>| seq![(w, style)],
            ));
        }
        i += 1;
    }
    proof {
        assert(heading.children@.take(heading.children@.len() as int) =~= heading.children@);
    }
    Fragment::Heading { words, depth: level, style }
}

/// A paragraph: the words of its running text, in the default style.
pub fn convert_paragraph(paragraph: &MdNode, theme: &Theme) -> (r: Fragment)
    requires
        forall|k: int| 0 <= k < paragraph.children@.len() ==> is_inline(#[trigger] paragraph.children@[k]),
    ensures
        r matches Fragment::Paragraph { words, style } && style == theme.default && words_view(words@)
            == text_words(paragraph.children@, theme.default, theme.inline_code),
{
    let words = convert_text_nodes(&paragraph.children, theme);
    Fragment::Paragraph { words, style: theme.default }
}

/// Whether a list can be converted: each item holds exactly one paragraph of running text.
pub open spec fn list_supported(n: MdNode) -> bool {
    &&& n.kind is List
    &&& forall|k: int|
        0 <= k < n.children@.len() ==> {
            let item = #[trigger] n.children@[k];
            &&& item.kind is ListItem
            &&& item.children@.len() == 1
            &&& item.children@[0].kind is Paragraph
            &&& forall|j: int|
                0 <= j < item.children@[0].children@.len() ==> is_inline(
                    #[trigger] item.children@[0].children@[j],
                )
        }
}

/// A list: for each item, the words of its paragraph.
pub fn convert_list(list: &MdNode, theme: &Theme) -> (r: Fragment)
    requires
        list_supported(*list),
    ensures
        r matches Fragment::List { items } && items@.len() == list.children@.len() && forall|k: int|
            0 <= k < items@.len() ==> words_view(#[trigger] items@[k]@) == text_words(
                list.children@[k].children@[0].children@,
                theme.default,
                theme.inline_code,
            ),
{
    let mut items: Vec<Vec<Word>> = Vec::new();
    let mut i: usize = 0;
    while i < list.children.len()
        invariant
            list_supported(*list),
            i <= list.children@.len(),
            items@.len() == i,
            forall|k: int|
                0 <= k < i ==> words_view(#[trigger] items@[k]@) == text_words(
                    list.children@[k].children@[0].children@,
                    theme.default,
                    theme.inline_code,
                ),
        decreases list.children@.len() - i,
    {
        let item = &list.children[i];
        assert(item.children@.len() == 1);
        let words = convert_text_nodes(&item.children[0].children, theme);
        items.push(words);
        i += 1;
    }
    Fragment::List { items }
}

/// A copy of an optional string.
fn clone_option(o: &Option<String>) -> (r: Option<String>)
    ensures
        r == *o,
{
    match o {
        Some(s) => Some(s.clone()),
        None => None,
    }
}

/// The language of a code node (none for another node).
pub open spec fn code_language(n: MdNode) -> Option<String> {
    match n.kind {
        MdKind::Code { language, metadata } => language,
        _ => None,
    }
}

/// The metadata of a code node (none for another node).
pub open spec fn code_metadata(n: MdNode) -> Option<String> {
    match n.kind {
        MdKind::Code { language, metadata } => metadata,
        _ => None,
    }
}

/// A line indented by one space in the default style, as plain values.
pub open spec fn indented_line(l: Line) -> Seq<(Seq<char>, Style)> {
    seq![(spaces_seq(1), default_style())] + spans_view(l.0@)
}

/// A code block: its language, source and metadata, and the lines `highlight` gives for its
/// language and source, each indented by one space.
pub fn convert_code<H: Fn(&Option<String>, &String) -> Vec<Line>>(code: &MdNode, highlight: &H) -> (r: Fragment)
    requires
        code.kind is Code,
        highlight.requires((&code_language(*code), &code.value)),
    ensures
        r matches Fragment::Code(c) && {
            &&& c.language == code_language(*code)
            &&& c.metadata == code_metadata(*code)
            &&& c.original == code.value
            &&& exists|raw: Vec<Line>|
                highlight.ensures((&code_language(*code), &code.value), raw) && lines_view(
                    c.highlighted_lines@,
                ) == raw@.map_values(|l: Line| indented_line(l))
        },
{
    let (language, metadata) = match &code.kind {
        MdKind::Code { language, metadata } => (language, metadata),
        _ => { return Fragment::Verbatim { lines: Vec::new() }; },
    };
    let raw = highlight(language, &code.value);
    let ghost raw_lines = raw@;
    let mut lines: Vec<Line> = Vec::new();
    for line in it: raw.into_iter()
        invariant
            it.seq() == raw_lines,
            lines_view(lines@) == raw_lines.take(it.index() as int).map_values(
                |l: Line| indented_line(l),
            ),
    {
        let ghost n = it.index() as int;
        let ghost original = line;
        let mut line = line;
        line.indent(1);
        let ghost before = lines@;
        lines.push(line);
        proof {
            assert(raw_lines.take(n + 1) =~= raw_lines.take(n).push(original));
            assert forall|k: int| 1 <= k < line.0@.len() implies line.0@[k] == original.0@[k - 1] by {
                assert(line.0@.skip(1)[k - 1] == line.0@[k]);
            }
            assert(spans_view(line.0@) =~= indented_line(original));
            assert(lines@.drop_last() =~= before);
            assert(lines_view(lines@) =~= lines_view(before).push(indented_line(original)));
        }
    }
    proof {
        assert(raw_lines.take(raw_lines.len() as int) =~= raw_lines);
    }
    Fragment::Code(Code {
        language: clone_option(language),
        original: code.value.clone(),
        highlighted_lines: lines,
        metadata: clone_option(metadata),
    })
}

/// Whether a block of a document can be converted: a paragraph of running text, a heading,
/// a code block, a table or a list as the functions above take them.
pub open spec fn block_supported(n: MdNode) -> bool {
    match n.kind {
        MdKind::Paragraph => forall|k: int|
            0 <= k < n.children@.len() ==> is_inline(#[trigger] n.children@[k]),
        MdKind::Heading(_) => heading_supported(n),
        MdKind::Code { .. } => true,
        MdKind::Table(_) => table_supported(n),
        MdKind::List => list_supported(n),
        _ => false,
    }
}

/// Whether a whole syntax tree can be converted: a root whose children are blocks that can.
pub open spec fn document_supported(root: MdNode) -> bool {
    &&& root.kind is Root
    &&& forall|k: int| 0 <= k < root.children@.len() ==> block_supported(#[trigger] root.children@[k])
}

/// What the fragment of a block is.
pub open spec fn block_fragment<H: Fn(&Option<String>, &String) -> Vec<Line>>(
    f: Fragment,
    n: MdNode,
    theme: Theme,
    highlight: H,
) -> bool {
    match n.kind {
        MdKind::Paragraph => f matches Fragment::Paragraph { words, style } && style
            == theme.default && words_view(words@) == text_words(
            n.children@,
            theme.default,
            theme.inline_code,
        ),
        MdKind::Heading(d) => f matches Fragment::Heading { words, depth, style } && depth == d
            - 1 && style == theme.headings@[depth as int] && words_view(words@) == heading_words(
            n.children@,
        ).map_values(|w: Seq<char>| seq![(w, style)]),
        MdKind::Code { language, metadata } => f matches Fragment::Code(c) && c.language
            == language && c.metadata == metadata && c.original == n.value && exists|raw: Vec<Line>|
            highlight.ensures((&language, &n.value), raw) && lines_view(c.highlighted_lines@)
                == raw@.map_values(|l: Line| indented_line(l)),
        MdKind::Table(_) => f matches Fragment::Verbatim { lines } && lines_view(lines@)
            == Seq::new(n.children@.len(), |row: int| table_line(n, theme, row)),
        MdKind::List => f matches Fragment::List { items } && items@.len() == n.children@.len()
            && forall|k: int|
            0 <= k < items@.len() ==> words_view(#[trigger] items@[k]@) == text_words(
                n.children@[k].children@[0].children@,
                theme.default,
                theme.inline_code,
            ),
        _ => false,
    }
}

/// What the fragments of a document are: one per block of the root, in order.
pub open spec fn document_fragments<H: Fn(&Option<String>, &String) -> Vec<Line>>(
    doc: Seq<Fragment>,
    root: MdNode,
    theme: Theme,
    highlight: H,
) -> bool {
    &&& doc.len() == root.children@.len()
    &&& forall|k: int|
        0 <= k < doc.len() ==> block_fragment(#[trigger] doc[k], root.children@[k], theme, highlight)
}

/// Converts one block.
fn convert_node<H: Fn(&Option<String>, &String) -> Vec<Line>>(
    node: &MdNode,
    highlight: &H,
    theme: &Theme,
) -> (r: Fragment)
    requires
        block_supported(*node),
        forall|l: Option<String>, v: String| #[trigger] highlight.requires((&l, &v)),
    ensures
        block_fragment(r, *node, *theme, *highlight),
{
    match &node.kind {
        MdKind::Paragraph => convert_paragraph(node, theme),
        MdKind::Heading(_) => convert_heading(node, theme),
        MdKind::Code { .. } => {
            proof {
                assert(highlight.requires((&code_language(*node), &node.value)));
            }
            convert_code(node, highlight)
        },
        MdKind::Table(_) => convert_table(node, theme),
        MdKind::List => convert_list(node, theme),
        _ => Fragment::Verbatim { lines: Vec::new() },
    }
}

/// Converts a syntax tree to a document: one fragment per block, in order.
pub fn convert<H: Fn(&Option<String>, &String) -> Vec<Line>>(
    root: &MdNode,
    highlight: &H,
    theme: &Theme,
) -> (r: Vec<Fragment>)
    requires
        document_supported(*root),
        forall|l: Option<String>, v: String| #[trigger] highlight.requires((&l, &v)),
    ensures
        document_fragments(r@, *root, *theme, *highlight),
{
    let mut fragments: Vec<Fragment> = Vec::new();
    let mut i: usize = 0;
    while i < root.children.len()
        invariant
            document_supported(*root),
            forall|l: Option<String>, v: String| #[trigger] highlight.requires((&l, &v)),
            i <= root.children@.len(),
            fragments@.len() == i,
            forall|k: int|
                0 <= k < i ==> block_fragment(#[trigger] fragments@[k], root.children@[k], *theme, *highlight),
        decreases root.children@.len() - i,
    {
        let fragment = convert_node(&root.children[i], highlight, theme);
        fragments.push(fragment);
        i += 1;
    }
    fragments
}

/// Whether a node is text or inline code.
fn is_inline_node(n: &MdNode) -> (r: bool)
    ensures
        r == is_inline(*n),
{
    match n.kind {
        MdKind::Text => true,
        MdKind::InlineCode => true,
        _ => false,
    }
}

/// Whether every node is text or inline code.
fn all_inline(nodes: &Vec<MdNode>) -> (r: bool)
    ensures
        r == forall|k: int| 0 <= k < nodes@.len() ==> is_inline(#[trigger] nodes@[k]),
{
    let mut i: usize = 0;
    while i < nodes.len()
        invariant
            i <= nodes@.len(),
            forall|k: int| 0 <= k < i ==> is_inline(#[trigger] nodes@[k]),
        decreases nodes@.len() - i,
    {
        if !is_inline_node(&nodes[i]) {
            return false;
        }
        i += 1;
    }
    true
}

/// Whether a heading can be converted.
fn is_heading_supported(n: &MdNode) -> (r: bool)
    ensures
        r == heading_supported(*n),
{
    let depth = match n.kind {
        MdKind::Heading(d) => d,
        _ => { return false; },
    };
    if depth < 1 || depth > 3 {
        return false;
    }
    let mut i: usize = 0;
    while i < n.children.len()
        invariant
            i <= n.children@.len(),
            forall|k: int| 0 <= k < i ==> (#[trigger] n.children@[k]).kind is Text,
        decreases n.children@.len() - i,
    {
        if !matches!(n.children[i].kind, MdKind::Text) {
            return false;
        }
        i += 1;
    }
    true
}

/// Whether a list can be converted.
fn is_list_supported(n: &MdNode) -> (r: bool)
    ensures
        r == list_supported(*n),
{
    if !matches!(n.kind, MdKind::List) {
        return false;
    }
    let mut i: usize = 0;
    while i < n.children.len()
        invariant
            n.kind is List,
            i <= n.children@.len(),
            forall|k: int|
                0 <= k < i ==> {
                    let item = #[trigger] n.children@[k];
                    &&& item.kind is ListItem
                    &&& item.children@.len() == 1
                    &&& item.children@[0].kind is Paragraph
                    &&& forall|j: int|
                        0 <= j < item.children@[0].children@.len() ==> is_inline(
                            #[trigger] item.children@[0].children@[j],
                        )
                },
        decreases n.children@.len() - i,
    {
        let item = &n.children[i];
        if !matches!(item.kind, MdKind::ListItem) || item.children.len() != 1 {
            return false;
        }
        let paragraph = &item.children[0];
        if !matches!(paragraph.kind, MdKind::Paragraph) || !all_inline(&paragraph.children) {
            return false;
        }
        i += 1;
    }
    true
}

/// Whether a table can be laid out.
fn is_table_supported(n: &MdNode) -> (r: bool)
    ensures
        r == table_supported(*n),
{
    let alignments = match &n.kind {
        MdKind::Table(a) => a,
        _ => { return false; },
    };
    let rows = &n.children;
    if rows.len() == 0 {
        return false;
    }
    let column_count = rows[0].children.len();
    if alignments.len() < column_count {
        return false;
    }
    let mut r: usize = 0;
    while r < rows.len()
        invariant
            n.kind is Table,
            rows == &n.children,
            rows@.len() > 0,
            column_count == rows@[0].children@.len(),
            table_alignments(*n).len() >= column_count,
            r <= rows@.len(),
            forall|i: int|
                0 <= i < r ==> {
                    &&& (#[trigger] rows@[i]).kind is TableRow
                    &&& rows@[i].children@.len() == column_count
                },
            forall|i: int, c: int|
                0 <= i < r && 0 <= c < rows@[i].children@.len() ==> {
                    let cell = #[trigger] rows@[i].children@[c];
                    &&& cell.kind is TableCell
                    &&& cell.children@.len() == 1
                    &&& cell.children@[0].kind is Text
                    &&& byte_len(cell_text(cell)) + 2 <= usize::MAX
                },
        decreases rows@.len() - r,
    {
        let row = &rows[r];
        if !matches!(row.kind, MdKind::TableRow) || row.children.len() != column_count {
            return false;
        }
        let mut c: usize = 0;
        while c < column_count
            invariant
                rows == &n.children,
                r < rows@.len(),
                row == &rows@[r as int],
                row.children@.len() == column_count,
                c <= column_count,
                forall|j: int|
                    0 <= j < c ==> {
                        let cell = #[trigger] row.children@[j];
                        &&& cell.kind is TableCell
                        &&& cell.children@.len() == 1
                        &&& cell.children@[0].kind is Text
                        &&& byte_len(cell_text(cell)) + 2 <= usize::MAX
                    },
            decreases column_count - c,
        {
            let cell = &row.children[c];
            if !matches!(cell.kind, MdKind::TableCell) || cell.children.len() != 1 {
                return false;
            }
            let text = &cell.children[0];
            if !matches!(text.kind, MdKind::Text) {
                return false;
            }
            if str_len(&text.value) > usize::MAX - 2 {
                return false;
            }
            c += 1;
        }
        r += 1;
    }
    true
}

/// Whether a block can be converted.
fn is_block_supported(n: &MdNode) -> (r: bool)
    ensures
        r == block_supported(*n),
{
    match &n.kind {
        MdKind::Paragraph => all_inline(&n.children),
        MdKind::Heading(_) => is_heading_supported(n),
        MdKind::Code { .. } => true,
        MdKind::Table(_) => is_table_supported(n),
        MdKind::List => is_list_supported(n),
        _ => false,
    }
}

/// Whether a whole syntax tree can be converted.
pub fn is_supported(root: &MdNode) -> (r: bool)
    ensures
        r == document_supported(*root),
{
    if !matches!(root.kind, MdKind::Root) {
        return false;
    }
    let mut i: usize = 0;
    while i < root.children.len()
        invariant
            root.kind is Root,
            i <= root.children@.len(),
            forall|k: int| 0 <= k < i ==> block_supported(#[trigger] root.children@[k]),
        decreases root.children@.len() - i,
    {
        if !is_block_supported(&root.children[i]) {
            return false;
        }
        i += 1;
    }
    true
}

#[verifier::external_type_specification]
#[verifier::external_body]
pub struct ExMdastNode(markdown::mdast::Node);

#[verifier::external_type_specification]
#[verifier::external_body]
pub struct ExAlignKind(markdown::mdast::AlignKind);

/// The syntax tree that `markdown::to_mdast` gives for a string with GitHub-flavoured options,
/// as `MdNode`s (none where it reports an error).
pub uninterp spec fn markdown_syntax_tree(markdown: Seq<char>) -> Option<MdNode>;

/// `markdown::to_mdast` with `ParseOptions::gfm()` (CommonMark with GitHub's tables), its
/// tree converted to `MdNode`s. The contract only ties the result to `markdown` through
/// `markdown_syntax_tree`; the markdown grammar is not stated.
#[verifier::external_body]
fn syntax_tree(markdown: &str) -> (r: Option<MdNode>)
    ensures
        r == markdown_syntax_tree(markdown@),
{
    match to_mdast(markdown, &ParseOptions::gfm()) {
        Ok(root) => Some(mdast_node(&root)),
        Err(_) => None,
    }
}

/// The conversion that `syntax_tree` applies to the tree `markdown::to_mdast` returns, kept
/// apart because it recurses: the `MdNode` for a node, with its kind, its text as
/// `Node::to_string` gives it, and its children (from `Node::children`) converted alike.
/// Nothing is promised of it on its own; `syntax_tree`'s contract covers the whole.
#[verifier::external_body]
fn mdast_node(node: &Node) -> MdNode {
    MdNode {
        kind: mdast_kind(node),
        value: node.to_string(),
        children: node.children().map_or(Vec::new(), |c| c.iter().map(mdast_node).collect()),
    }
}

/// Part of `syntax_tree`'s conversion: the `MdKind` for a variant of `markdown::mdast::Node`,
/// with its depth, language, metadata and alignments; the variants this library has no use
/// for are `Other`.
#[verifier::external_body]
fn mdast_kind(node: &Node) -> MdKind {
    match node {
        Node::Root(_) => MdKind::Root,
        Node::Paragraph(_) => MdKind::Paragraph,
        Node::Heading(x) => MdKind::Heading(x.depth),
        Node::Code(x) => MdKind::Code { language: x.lang.clone(), metadata: x.meta.clone() },
        Node::Table(x) => MdKind::Table(x.align.iter().map(mdast_alignment).collect()),
        Node::TableRow(_) => MdKind::TableRow,
        Node::TableCell(_) => MdKind::TableCell,
        Node::List(_) => MdKind::List,
        Node::ListItem(_) => MdKind::ListItem,
        Node::Text(_) => MdKind::Text,
        Node::InlineCode(_) => MdKind::InlineCode,
        _ => MdKind::Other,
    }
}

/// Part of `syntax_tree`'s conversion: the `Alignment` for a `markdown::mdast::AlignKind`.
#[verifier::external_body]
fn mdast_alignment(a: &AlignKind) -> Alignment {
    match a {
        AlignKind::Left => Alignment::Left,
        AlignKind::Right => Alignment::Right,
        AlignKind::Center => Alignment::Center,
        AlignKind::None => Alignment::Unaligned,
    }
}

/// Parses markdown into a document: the syntax tree that `markdown` gives for it, converted
/// block by block. There is no document where the parser reports an error or where the tree
/// holds what the conversion does not handle.
pub fn parse<H: Fn(&Option<String>, &String) -> Vec<Line>>(
    markdown: &str,
    highlight: &H,
    theme: &Theme,
) -> (r: Option<Vec<Fragment>>)
    requires
        forall|l: Option<String>, v: String| #[trigger] highlight.requires((&l, &v)),
    ensures
        match markdown_syntax_tree(markdown@) {
            Some(tree) => if document_supported(tree) {
                r matches Some(doc) && document_fragments(doc@, tree, *theme, *highlight)
            } else {
                r is None
            },
            None => r is None,
        },
{
    match syntax_tree(markdown) {
        Some(tree) => {
            if is_supported(&tree) {
                Some(convert(&tree, highlight, theme))
            } else {
                None
            }
        },
        None => None,
    }
}

} // verus!
