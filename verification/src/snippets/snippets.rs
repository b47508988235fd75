//! Snippets as the library holds them: linked to each other by index.
use vstd::prelude::*;
use crate::document::fragment::Fragment;
use crate::document::line::Line;
use crate::document::mdconverter::{document_fragments, document_supported, markdown_syntax_tree, parse};
use crate::document::text::push_char;
use crate::document::theme::Theme;
use crate::snippets::snippets::source::{join_lines, joined};
use crate::util::strings::{lowercase, pieces, split_spaces, to_lowercase};
use crate::util::attstring::{last_wins, pairs_map};
use vstd::hash_map::StringHashMap;

pub mod raw;
pub mod source;

verus! {

/// A tag: a name within a category.
#[derive(Debug, Clone, PartialEq, Eq, Hash)]
pub struct Tag {
    pub category: String,
    pub name: String,
}

/// One part of a snippet: its attributes (each key with its last value), caption, link and
/// source lines.
pub struct Part {
    pub attributes: StringHashMap<String>,
    pub caption: Option<String>,
    pub url: Option<String>,
    pub source: Vec<String>,
}

/// A snippet of the library.
pub struct Snippet {
    pub description: String,
    /// Indices of the snippets this one links to.
    pub links: Vec<usize>,
    pub parts: Vec<Part>,
    pub tags: Vec<Tag>,
    /// The names of the tags, each once.
    pub tag_set: Vec<String>,
    pub extra_keywords: Vec<String>,
}

/// The strings of a vector, as character sequences.
pub open spec fn views(v: Seq<String>) -> Seq<Seq<char>> {
    v.map_values(|s: String| s@)
}

/// The keywords under which a snippet is found: its extra keywords, then the lower-cased
/// words of its description, then the lower-cased names of its tags.
pub open spec fn keywords_of(s: Snippet) -> Seq<Seq<char>> {
    views(s.extra_keywords@) + pieces(s.description@).map_values(|w: Seq<char>| lowercase(w))
        + s.tags@.map_values(|t: Tag| lowercase(t.name@))
}

/// `tag_set` holds the name of every tag of `tags` and no other, each name once.
pub open spec fn names_of_tags(tag_set: Seq<String>, tags: Seq<Tag>) -> bool {
    &&& forall|a: int, b: int| 0 <= a < b < tag_set.len() ==> (#[trigger] tag_set[a])@ != (#[trigger] tag_set[b])@
    &&& forall|k: int| 0 <= k < tags.len() ==> views(tag_set).contains(#[trigger] tags[k].name@)
    &&& forall|j: int| 0 <= j < tag_set.len() ==> exists|k: int| 0 <= k < tags.len() && (#[trigger] tags[k]).name@ == (#[trigger] tag_set[j])@
}

/// Every name of `names` is among `tag_set`.
pub open spec fn has_tag_names(tag_set: Seq<String>, names: Seq<String>) -> bool {
    forall|i: int| 0 <= i < names.len() ==> views(tag_set).contains(#[trigger] names[i]@)
}

/// The identifier `o` is present and is `id`.
pub open spec fn carries_id(o: Option<String>, id: Seq<char>) -> bool {
    match o {
        Some(s) => s@ == id,
        None => false,
    }
}

/// The position of the last snippet with identifier `id`, or -1 if there is none.
pub open spec fn last_with_id(ids: Seq<Option<String>>, id: Seq<char>) -> int
    decreases ids.len(),
{
    if ids.len() == 0 {
        -1
    } else if carries_id(ids.last(), id) {
        ids.len() - 1
    } else {
        last_with_id(ids.drop_last(), id)
    }
}

/// The sources of the code blocks of a document, in order.
pub open spec fn code_blocks(document: Seq<Fragment>) -> Seq<Seq<char>>
    decreases document.len(),
{
    if document.len() == 0 {
        Seq::empty()
    } else {
        let before = code_blocks(document.drop_last());
        match document.last() {
            Fragment::Code(code) => before.push(code.original@),
            _ => before,
        }
    }
}

/// A line with every tab replaced by four spaces.
pub open spec fn detabbed(s: Seq<char>) -> Seq<char>
    decreases s.len(),
{
    if s.len() == 0 {
        Seq::empty()
    } else if s.last() == '\t' {
        detabbed(s.drop_last()) + seq![' ', ' ', ' ', ' ']
    } else {
        detabbed(s.drop_last()).push(s.last())
    }
}

proof fn lemma_views_push(s: Seq<String>, x: String)
    ensures
        views(s.push(x)) == views(s).push(x@),
{
    assert(views(s.push(x)) =~= views(s).push(x@));
}

/// A position that carries the identifier is at or before the last one.
pub proof fn lemma_last_with_id_found(ids: Seq<Option<String>>, id: Seq<char>, pos: int)
    requires
        0 <= pos < ids.len(),
        carries_id(ids[pos], id),
    ensures
        last_with_id(ids, id) >= pos,
    decreases ids.len(),
{
    if pos < ids.len() - 1 && !carries_id(ids.last(), id) {
        assert(ids.drop_last()[pos] == ids[pos]);
        lemma_last_with_id_found(ids.drop_last(), id, pos);
    }
}

pub proof fn lemma_last_with_id_range(ids: Seq<Option<String>>, id: Seq<char>)
    ensures
        -1 <= last_with_id(ids, id) < ids.len(),
        last_with_id(ids, id) >= 0 ==> carries_id(ids[last_with_id(ids, id)], id),
    decreases ids.len(),
{
    if ids.len() > 0 {
        lemma_last_with_id_range(ids.drop_last(), id);
    }
}

/// `r` is the snippet file `raw` linked against the identifiers `ids`.
pub open spec fn linked(r: Snippet, raw: raw::Snippet, ids: Seq<Option<String>>) -> bool {
    &&& r.description == raw.description
    &&& r.extra_keywords == raw.keywords
    &&& r.tags@.len() == raw.tags@.len()
    &&& forall|k: int| 0 <= k < r.tags@.len() ==> (#[trigger] r.tags@[k]).category == raw.tags@[k].category && r.tags@[k].name == raw.tags@[k].name
    &&& names_of_tags(r.tag_set@, r.tags@)
    &&& r.parts@.len() == raw.parts@.len()
    &&& forall|k: int| 0 <= k < r.parts@.len() ==> {
        &&& (#[trigger] r.parts@[k]).attributes@ == last_wins(raw.parts@[k].attributes@)
        &&& r.parts@[k].source == raw.parts@[k].source
        &&& r.parts@[k].caption == raw.parts@[k].caption
        &&& r.parts@[k].url == raw.parts@[k].url
    }
    &&& r.links@.len() == raw.links@.len()
    &&& forall|k: int| 0 <= k < r.links@.len() ==> #[trigger] r.links@[k] == last_with_id(ids, raw.links@[k]@)
}

/// The position of the last snippet whose identifier is `id`.
fn resolve_link(id: &String, identifiers: &Vec<Option<String>>) -> (r: usize)
    requires
        last_with_id(identifiers@, id@) >= 0,
    ensures
        r == last_with_id(identifiers@, id@),
{
    proof {
        lemma_last_with_id_range(identifiers@, id@);
        assert(identifiers@.take(identifiers@.len() as int) =~= identifiers@);
    }
    let mut i: usize = identifiers.len();
    while i > 0
        invariant
            i <= identifiers@.len(),
            last_with_id(identifiers@, id@) == last_with_id(identifiers@.take(i as int), id@),
            last_with_id(identifiers@, id@) >= 0,
            last_with_id(identifiers@, id@) < i,
        decreases i,
    {
        proof {
            assert(identifiers@.take(i as int).drop_last() =~= identifiers@.take(i - 1));
            lemma_last_with_id_range(identifiers@.take(i - 1), id@);
        }
        match &identifiers[i - 1] {
            Some(s) => {
                if *s == *id {
                    return i - 1;
                }
            },
            None => {},
        }
        i -= 1;
    }
    proof {
        assert(identifiers@.take(0) =~= Seq::<Option<String>>::empty());
    }
    0
}

impl Tag {
    /// The same tag.
    pub fn from_raw(raw_tag: raw::Tag) -> (r: Tag)
        ensures
            r.category == raw_tag.category,
            r.name == raw_tag.name,
    {
        Tag { category: raw_tag.category, name: raw_tag.name }
    }

    /// A copy of the tag.
    pub fn copied(&self) -> (r: Tag)
        ensures
            r == *self,
    {
        Tag { category: self.category.clone(), name: self.name.clone() }
    }
}

impl Part {
    /// The same part.
    /// The part of a snippet file, its attributes as a map in which the last value given for a
    /// key counts.
    pub fn from_raw(raw_part: raw::Part) -> (r: Part)
        ensures
            r.attributes@ == last_wins(raw_part.attributes@),
            r.source == raw_part.source,
            r.caption == raw_part.caption,
            r.url == raw_part.url,
    {
        let raw::Part { attributes, source, caption, url } = raw_part;
        let attributes = pairs_map(&attributes);
        Part { attributes, source, caption, url }
    }

    /// The markdown of the part: its source lines, tabs replaced by four spaces, joined with
    /// line feeds.
    pub open spec fn markdown_spec(&self) -> Seq<char> {
        joined(self.source@.map_values(|l: String| detabbed(l@)))
    }

    /// The markdown of the part.
    pub fn markdown(&self) -> (r: String)
        ensures
            r@ == self.markdown_spec(),
    {
        let mut lines: Vec<String> = Vec::new();
        let mut i: usize = 0;
        while i < self.source.len()
            invariant
                i <= self.source@.len(),
                lines@.map_values(|l: String| l@) == self.source@.take(i as int).map_values(
                    |l: String| detabbed(l@),
                ),
            decreases self.source@.len() - i,
        {
            let line = convert_tabs_to_spaces(self.source[i].as_str());
            let ghost before = lines@;
            lines.push(line);
            proof {
                assert(lines@ == before.push(line));
                assert(self.source@.take(i + 1) =~= self.source@.take(i as int).push(self.source@[i as int]));
                assert(line@ == detabbed(self.source@[i as int]@));
                assert(lines@.map_values(|l: String| l@) =~= before.map_values(|l: String| l@).push(line@));
                assert(self.source@.take(i + 1).map_values(|l: String| detabbed(l@)) =~= self.source@.take(
                    i as int,
                ).map_values(|l: String| detabbed(l@)).push(detabbed(self.source@[i as int]@)));
                assert(lines@.map_values(|l: String| l@) =~= self.source@.take(i + 1).map_values(
                    |l: String| detabbed(l@),
                ));
            }
            i += 1;
        }
        proof {
            assert(self.source@.take(i as int) =~= self.source@);
        }
        join_lines(&lines)
    }

    /// The part's markdown parsed into a document, its code highlighted by `highlight`; none
    /// where the markdown holds what the conversion does not handle.
    pub fn document<H: Fn(&Option<String>, &String) -> Vec<Line>>(&self, highlight: &H, theme: &Theme) -> (r: Option<Vec<Fragment>>)
        requires
            forall|l: Option<String>, v: String| #[trigger] highlight.requires((&l, &v)),
        ensures
            match markdown_syntax_tree(self.markdown_spec()) {
                Some(tree) => if document_supported(tree) {
                    r matches Some(doc) && document_fragments(doc@, tree, *theme, *highlight)
                } else {
                    r is None
                },
                None => r is None,
            },
    {
        let markdown = self.markdown();
        parse(markdown.as_str(), highlight, theme)
    }

    /// The source of the code block at position `index` among the code blocks of `document`.
    pub fn find_code_block_with_index<'a>(document: &'a Vec<Fragment>, index: usize) -> (r: Option<&'a str>)
        ensures
            match r {
                Some(s) => index < code_blocks(document@).len() && s@ == code_blocks(document@)[index as int],
                None => index >= code_blocks(document@).len(),
            },
    {
        let mut counter = index;
        let mut i: usize = 0;
        while i < document.len()
            invariant
                i <= document@.len(),
                counter + code_blocks(document@.take(i as int)).len() == index,
            decreases document@.len() - i,
        {
            proof {
                assert(document@.take(i + 1).drop_last() =~= document@.take(i as int));
            }
            match &document[i] {
                Fragment::Code(code) => {
                    if counter == 0 {
                        proof {
                            lemma_code_blocks_prefix(document@, i + 1);
                        }
                        return Some(code.original.as_str());
                    } else {
                        counter -= 1;
                    }
                },
                _ => {},
            }
            i += 1;
        }
        proof {
            assert(document@.take(i as int) =~= document@);
        }
        None
    }
}

/// How many code blocks `document` holds.
pub fn count_code_blocks(document: &Vec<Fragment>) -> (r: usize)
    ensures
        r == code_blocks(document@).len(),
{
    let mut count: usize = 0;
    let mut i: usize = 0;
    while i < document.len()
        invariant
            i <= document@.len(),
            count == code_blocks(document@.take(i as int)).len(),
            count <= i,
        decreases document@.len() - i,
    {
        proof {
            assert(document@.take(i + 1).drop_last() =~= document@.take(i as int));
        }
        match &document[i] {
            Fragment::Code(_) => {
                count += 1;
            },
            _ => {},
        }
        i += 1;
    }
    proof {
        assert(document@.take(i as int) =~= document@);
    }
    count
}

/// The code blocks of a prefix of a document come first among those of the whole.
proof fn lemma_code_blocks_prefix(d: Seq<Fragment>, n: int)
    requires
        0 <= n <= d.len(),
    ensures
        code_blocks(d.take(n)).len() <= code_blocks(d).len(),
        forall|i: int| 0 <= i < code_blocks(d.take(n)).len() ==> code_blocks(d)[i] == code_blocks(d.take(n))[i],
    decreases d.len() - n,
{
    if n < d.len() {
        lemma_code_blocks_prefix(d, n + 1);
        assert(d.take(n + 1).drop_last() =~= d.take(n));
    } else {
        assert(d.take(n) =~= d);
    }
}

/// Replaces every tab of `s` by four spaces.
pub fn convert_tabs_to_spaces(s: &str) -> (r: String)
    ensures
        r@ == detabbed(s@),
{
    let mut result = String::new();
    let ghost text = s@;
    proof {
        assert(text.take(0) =~= Seq::<char>::empty());
    }
    for c in it: s.chars()
        invariant
            text == s@,
            it.seq() == text,
            result@ == detabbed(text.take(it.index() as int)),
    {
        let ghost n = it.index() as int;
        proof {
            assert(text.take(n + 1).drop_last() =~= text.take(n));
        }
        if c == '\t' {
            push_char(&mut result, ' ');
            push_char(&mut result, ' ');
            push_char(&mut result, ' ');
            push_char(&mut result, ' ');
            proof {
                assert(result@ =~= detabbed(text.take(n)) + seq![' ', ' ', ' ', ' ']);
            }
        } else {
            push_char(&mut result, c);
        }
    }
    proof {
        assert(text.take(text.len() as int) =~= text);
    }
    result
}

/// Whether one of `set` is `s`.
pub(crate) fn contains_string(set: &Vec<String>, s: &String) -> (r: bool)
    ensures
        r == views(set@).contains(s@),
{
    let mut j: usize = 0;
    while j < set.len()
        invariant
            j <= set@.len(),
            forall|c: int| 0 <= c < j ==> set@[c]@ != s@,
        decreases set@.len() - j,
    {
        if set[j] == *s {
            proof {
                assert(views(set@)[j as int] == s@);
            }
            return true;
        }
        j += 1;
    }
    proof {
        if views(set@).contains(s@) {
            let c = choose|c: int| 0 <= c < views(set@).len() && views(set@)[c] == s@;
            assert(set@[c]@ == s@);
        }
    }
    false
}

impl Snippet {
    /// Links a snippet file's contents into the library: its links become the positions of
    /// the snippets they name (the last one, where several carry the identifier).
    pub fn from_raw(raw_snippet: raw::Snippet, identifiers: &Vec<Option<String>>) -> (r: Snippet)
        requires
            forall|k: int| 0 <= k < raw_snippet.links@.len() ==> last_with_id(identifiers@, (#[trigger] raw_snippet.links@[k])@) >= 0,
        ensures
            linked(r, raw_snippet, identifiers@),
    {
        let ghost wanted = raw_snippet.links@;
        let raw::Snippet { identifier: _, links: raw_links, description, parts: raw_parts, tags: raw_tags, keywords, path: _ } = raw_snippet;
        let mut links: Vec<usize> = Vec::new();
        let mut j: usize = 0;
        while j < raw_links.len()
            invariant
                j <= raw_links@.len(),
                raw_links == raw_snippet.links,
                links@.len() == j,
                raw_links@ == wanted,
                forall|k: int| 0 <= k < wanted.len() ==> last_with_id(identifiers@, (#[trigger] wanted[k])@) >= 0,
                forall|k: int| 0 <= k < j ==> links@[k] == last_with_id(identifiers@, raw_links@[k]@),
            decreases raw_links@.len() - j,
        {
            assert(wanted[j as int] == raw_links@[j as int]);
            let target = resolve_link(&raw_links[j], identifiers);
            links.push(target);
            j += 1;
        }
        let mut tags: Vec<Tag> = Vec::new();
        let mut tag_set: Vec<String> = Vec::new();
        let mut i: usize = 0;
        while i < raw_tags.len()
            invariant
                i <= raw_tags@.len(),
                raw_tags == raw_snippet.tags,
                tags@.len() == i,
                forall|k: int| 0 <= k < i ==> tags@[k].category == raw_tags@[k].category && tags@[k].name == raw_tags@[k].name,
                names_of_tags(tag_set@, tags@),
            decreases raw_tags@.len() - i,
        {
            let tag = Tag { category: raw_tags[i].category.clone(), name: raw_tags[i].name.clone() };
            let known = contains_string(&tag_set, &raw_tags[i].name);
            let ghost old_set = tag_set@;
            let ghost old_tags = tags@;
            if !known {
                tag_set.push(raw_tags[i].name.clone());
            }
            tags.push(tag);
            proof {
                assert forall|k: int| 0 <= k < tags@.len() implies views(tag_set@).contains(#[trigger] tags@[k].name@) by {
                    if k < old_tags.len() {
                        assert(tags@[k] == old_tags[k]);
                        assert(views(old_set).contains(old_tags[k].name@));
                        let c = choose|c: int| 0 <= c < views(old_set).len() && views(old_set)[c] == old_tags[k].name@;
                        assert(views(tag_set@)[c] == views(old_set)[c]);
                    } else if known {
                        let c = choose|c: int| 0 <= c < views(old_set).len() && views(old_set)[c] == raw_tags@[i as int].name@;
                        assert(views(tag_set@)[c] == views(old_set)[c]);
                    } else {
                        assert(views(tag_set@)[old_set.len() as int] == raw_tags@[i as int].name@);
                    }
                }
                assert forall|j: int| 0 <= j < tag_set@.len() implies exists|k: int| 0 <= k < tags@.len() && (#[trigger] tags@[k]).name@ == (#[trigger] tag_set@[j])@ by {
                    if j < old_set.len() {
                        assert(tag_set@[j] == old_set[j]);
                        let k = choose|k: int| 0 <= k < old_tags.len() && (#[trigger] old_tags[k]).name@ == old_set[j]@;
                        assert(tags@[k] == old_tags[k]);
                    } else {
                        assert(tags@[old_tags.len() as int].name@ == tag_set@[j]@);
                    }
                }
                assert forall|a: int, b: int| 0 <= a < b < tag_set@.len() implies (#[trigger] tag_set@[a])@ != (#[trigger] tag_set@[b])@ by {
                    if b >= old_set.len() {
                        assert(tag_set@[a] == old_set[a]);
                        assert(views(old_set)[a] == old_set[a]@);
                    } else {
                        assert(tag_set@[a] == old_set[a]);
                        assert(tag_set@[b] == old_set[b]);
                    }
                }
            }
            i += 1;
        }
        let mut parts: Vec<Part> = Vec::new();
        let mut raw_parts = raw_parts;
        let ghost all_parts = raw_parts@;
        while raw_parts.len() > 0
            invariant
                all_parts == raw_snippet.parts@,
                raw_parts@ == all_parts.take(raw_parts@.len() as int),
                raw_parts@.len() <= all_parts.len(),
                parts@.len() + raw_parts@.len() == all_parts.len(),
                forall|k: int| 0 <= k < parts@.len() ==> {
                    &&& #[trigger] parts@[k].attributes@ == last_wins(all_parts[raw_parts@.len() + k].attributes@)
                    &&& parts@[k].source == all_parts[raw_parts@.len() + k].source
                    &&& parts@[k].caption == all_parts[raw_parts@.len() + k].caption
                    &&& parts@[k].url == all_parts[raw_parts@.len() + k].url
                },
            decreases raw_parts@.len(),
        {
            let raw_part = raw_parts.pop().unwrap();
            parts.insert(0, Part::from_raw(raw_part));
        }
        assert forall|k: int| 0 <= k < parts@.len() implies {
            &&& parts@[k].attributes@ == last_wins(all_parts[k].attributes@)
            &&& parts@[k].source == all_parts[k].source
            &&& parts@[k].caption == all_parts[k].caption
            &&& parts@[k].url == all_parts[k].url
        } by {
            assert(parts@[k].attributes@ == last_wins(all_parts[raw_parts@.len() + k].attributes@));
        }
        Snippet { description, links, parts, tags, tag_set, extra_keywords: keywords }
    }

    /// The keywords under which the snippet is found.
    pub fn keywords(&self) -> (r: Vec<String>)
        ensures
            views(r@) == keywords_of(*self),
    {
        let mut keywords: Vec<String> = Vec::new();
        let mut i: usize = 0;
        while i < self.extra_keywords.len()
            invariant
                i <= self.extra_keywords@.len(),
                views(keywords@) == views(self.extra_keywords@.take(i as int)),
            decreases self.extra_keywords@.len() - i,
        {
            let ghost before = keywords@;
            keywords.push(self.extra_keywords[i].clone());
            proof {
                lemma_views_push(before, self.extra_keywords@[i as int]);
                assert(self.extra_keywords@.take(i + 1) =~= self.extra_keywords@.take(i as int).push(self.extra_keywords@[i as int]));
                lemma_views_push(self.extra_keywords@.take(i as int), self.extra_keywords@[i as int]);
            }
            i += 1;
        }
        proof {
            assert(self.extra_keywords@.take(i as int) =~= self.extra_keywords@);
        }
        let ghost base = views(keywords@);
        let words = split_spaces(self.description.as_str());
        let mut w: usize = 0;
        while w < words.len()
            invariant
                w <= words@.len(),
                views(words@) == pieces(self.description@),
                views(keywords@) == base + views(words@).take(w as int).map_values(|x: Seq<char>| lowercase(x)),
            decreases words@.len() - w,
        {
            let ghost before = keywords@;
            let lowered = to_lowercase(words[w].as_str());
            keywords.push(lowered);
            proof {
                lemma_views_push(before, lowered);
                assert(views(words@)[w as int] == words@[w as int]@);
                assert(views(keywords@) =~= base + views(words@).take(w + 1).map_values(|x: Seq<char>| lowercase(x)));
            }
            w += 1;
        }
        proof {
            assert(views(words@).take(w as int) =~= views(words@));
        }
        let ghost middle = views(keywords@);
        let mut t: usize = 0;
        while t < self.tags.len()
            invariant
                t <= self.tags@.len(),
                views(keywords@) == middle + self.tags@.take(t as int).map_values(|g: Tag| lowercase(g.name@)),
            decreases self.tags@.len() - t,
        {
            let ghost before = keywords@;
            let lowered = to_lowercase(self.tags[t].name.as_str());
            keywords.push(lowered);
            proof {
                lemma_views_push(before, lowered);
                assert(views(keywords@) =~= middle + self.tags@.take(t + 1).map_values(|g: Tag| lowercase(g.name@)));
            }
            t += 1;
        }
        proof {
            assert(self.tags@.take(t as int) =~= self.tags@);
        }
        keywords
    }

    /// Whether the snippet carries a tag of every name in `tags`.
    pub fn has_tags(&self, tags: &Vec<String>) -> (r: bool)
        ensures
            r == has_tag_names(self.tag_set@, tags@),
    {
        let ghost set = views(self.tag_set@);
        let mut i: usize = 0;
        while i < tags.len()
            invariant
                i <= tags@.len(),
                set == views(self.tag_set@),
                has_tag_names(self.tag_set@, tags@.take(i as int)),
            decreases tags@.len() - i,
        {
            let mut found = false;
            let mut j: usize = 0;
            proof {
                assert(set.take(0) =~= Seq::<Seq<char>>::empty());
            }
            while j < self.tag_set.len()
                invariant
                    i < tags@.len(),
                    set == views(self.tag_set@),
                    j <= self.tag_set@.len(),
                    found <==> set.take(j as int).contains(tags@[i as int]@),
                decreases self.tag_set@.len() - j,
            {
                proof {
                    assert(set.take(j + 1) =~= set.take(j as int).push(set[j as int]));
                    vstd::seq_lib::lemma_seq_contains_after_push(set.take(j as int), set[j as int], tags@[i as int]@);
                }
                if self.tag_set[j] == tags[i] {
                    found = true;
                }
                j += 1;
            }
            proof {
                assert(set.take(j as int) =~= set);
            }
            if !found {
                return false;
            }
            proof {
                assert forall|a: int| 0 <= a < i + 1 implies set.contains(#[trigger] tags@.take(i + 1)[a]@) by {
                    if a < i {
                        assert(tags@.take(i + 1)[a] == tags@.take(i as int)[a]);
                    }
                }
            }
            i += 1;
        }
        proof {
            assert(tags@.take(i as int) =~= tags@);
        }
        true
    }
}

} // verus!
