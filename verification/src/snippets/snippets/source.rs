//! Reading a snippet file: its metadata block, then parts opened by `===` separator lines
//! whose rest holds the part's attributes.
use vstd::prelude::*;
use vstd::string::StringExecFns;
use crate::document::text::push_char;
use crate::snippets::archive::{category_tags, directory_tags, tag_pairs};
use crate::snippets::snippets::raw::{Metadata, Part, Snippet};
use crate::util::attstring;
use crate::util::attstring::{parse_spec, Pair};
use crate::util::segment_file;
use crate::util::segment_file::{segments_of, SegmentView};
use crate::util::strings::{trim, trimmed};

verus! {

/// Why a snippet file is rejected.
#[derive(Debug, Clone, Copy, PartialEq, Eq, Structural)]
pub enum SourceError {
    /// The attributes of a part could not be read.
    Attributes(attstring::Error),
    /// The file holds metadata but no part.
    MissingSegments,
}

/// The lines of a text: split after each `\n`, which is dropped together with a `\r` just
/// before it; a final line ending adds no empty line.
pub open spec fn lines_of(s: Seq<char>) -> Seq<Seq<char>>
    decreases s.len(),
{
    if s.len() == 0 {
        Seq::empty()
    } else {
        let ls = lines_of(s.drop_last());
        let open = s.len() >= 2 && s[s.len() - 2] != '\n';
        if s.last() == '\n' {
            if open {
                ls.update(ls.len() - 1, strip_cr(ls.last()))
            } else {
                ls.push(Seq::empty())
            }
        } else if open {
            ls.update(ls.len() - 1, ls.last().push(s.last()))
        } else {
            ls.push(seq![s.last()])
        }
    }
}

/// A line without one trailing `\r`.
pub open spec fn strip_cr(l: Seq<char>) -> Seq<char> {
    if l.len() > 0 && l.last() == '\r' {
        l.drop_last()
    } else {
        l
    }
}

/// The caption of a separator line: the rest of a line that starts with `===`, trimmed.
pub open spec fn separator_spec(line: Seq<char>) -> Option<Seq<char>> {
    if line.len() >= 3 && line[0] == '=' && line[1] == '=' && line[2] == '=' {
        Some(trimmed(line.skip(3)))
    } else {
        None
    }
}

/// Whether a line is a part separator, and the caption it gives.
pub fn separator_caption(line: &String) -> (r: Option<String>)
    ensures
        match r {
            Some(c) => separator_spec(line@) == Some(c@),
            None => separator_spec(line@) is None,
        },
{
    let mut rest = String::new();
    let mut count: usize = 0;
    let ghost text = line@;
    for c in it: line.as_str().chars()
        invariant
            text == line@,
            it.seq() == text,
            count == if it.index() < 3 { it.index() } else { 3 },
            forall|j: int| 0 <= j < count ==> text[j] == '=',
            rest@ == if it.index() > 3 { text.subrange(3, it.index() as int) } else { Seq::empty() },
    {
        if count < 3 {
            if c != '=' {
                return None;
            }
            count += 1;
        } else {
            push_char(&mut rest, c);
            proof {
                assert(rest@ =~= text.subrange(3, it.index() + 1));
            }
        }
    }
    if count < 3 {
        return None;
    }
    proof {
        assert(rest@ =~= text.skip(3));
    }
    Some(trim(rest.as_str()))
}

/// The lines of `source`, as `str::lines` splits them.
pub fn split_lines(source: &str) -> (r: Vec<String>)
    ensures
        r@.map_values(|l: String| l@) == lines_of(source@),
{
    let mut lines: Vec<String> = Vec::new();
    let mut current = String::new();
    let mut open = false;
    let ghost text = source@;
    proof {
        assert(lines@.map_values(|l: String| l@) =~= lines_of(text.take(0)));
    }
    for c in it: source.chars()
        invariant
            text == source@,
            it.seq() == text,
            open == (it.index() > 0 && text[it.index() - 1] != '\n'),
            open ==> lines@.map_values(|l: String| l@).push(current@) == lines_of(text.take(it.index() as int)),
            !open ==> lines@.map_values(|l: String| l@) == lines_of(text.take(it.index() as int)) && current@ == Seq::<char>::empty(),
    {
        let ghost n = it.index() as int;
        let ghost prev = lines@.map_values(|l: String| l@);
        proof {
            assert(text.take(n + 1).drop_last() =~= text.take(n));
            if n >= 1 {
                assert(text.take(n + 1)[n - 1] == text[n - 1]);
            }
        }
        if c == '\n' {
            let mut finished = String::new();
            std::mem::swap(&mut finished, &mut current);
            let ghost raw = finished@;
            let ghost was_open = open;
            let line = if open {
                drop_cr(finished)
            } else {
                finished
            };
            lines.push(line);
            open = false;
            proof {
                assert(lines@.map_values(|l: String| l@) =~= prev.push(if was_open { strip_cr(raw) } else { raw }));
            }
        } else {
            push_char(&mut current, c);
            open = true;
        }
    }
    proof {
        assert(text.take(text.len() as int) =~= text);
    }
    if open {
        let ghost prev = lines@.map_values(|l: String| l@);
        lines.push(current);
        proof {
            assert(lines@.map_values(|l: String| l@) =~= prev.push(current@));
        }
    }
    lines
}

/// The line without one trailing `\r`.
fn drop_cr(line: String) -> (r: String)
    ensures
        r@ == strip_cr(line@),
{
    let mut result = String::new();
    let mut pending = false;
    let ghost text = line@;
    for c in it: line.as_str().chars()
        invariant
            text == line@,
            it.seq() == text,
            pending == (it.index() > 0 && text[it.index() - 1] == '\r'),
            pending ==> result@.push('\r') == text.take(it.index() as int),
            !pending ==> result@ == text.take(it.index() as int),
    {
        let ghost n = it.index() as int;
        proof {
            assert(text.take(n + 1) =~= text.take(n).push(c));
        }
        if pending {
            push_char(&mut result, '\r');
        }
        if c == '\r' {
            pending = true;
        } else {
            push_char(&mut result, c);
            pending = false;
        }
    }
    proof {
        assert(text.take(text.len() as int) =~= text);
    }
    result
}

/// The segments of a snippet file.
pub open spec fn source_segments(source: Seq<char>) -> Seq<SegmentView> {
    let ls = lines_of(source);
    segments_of(ls, ls.map_values(|l: Seq<char>| separator_spec(l)))
}

/// The lines joined with `\n` between them.
pub open spec fn joined(ls: Seq<Seq<char>>) -> Seq<char>
    decreases ls.len(),
{
    if ls.len() == 0 {
        Seq::empty()
    } else if ls.len() == 1 {
        ls[0]
    } else {
        joined(ls.drop_last()) + seq!['\n'] + ls.last()
    }
}

/// The value of the first pair with the key `key`.
pub open spec fn first_value(pairs: Seq<Pair>, key: Seq<char>) -> Option<Seq<char>>
    decreases pairs.len(),
{
    if pairs.len() == 0 {
        None
    } else if pairs[0].0 == key {
        Some(pairs[0].1)
    } else {
        first_value(pairs.drop_first(), key)
    }
}

/// The attributes of a segment: those of its caption, none where it has no caption.
pub open spec fn segment_attributes(seg: SegmentView) -> Result<Seq<Pair>, attstring::Error> {
    match seg.0 {
        Some(c) => parse_spec(c),
        None => Ok(Seq::empty()),
    }
}

/// An optional string as an optional character sequence.
pub open spec fn opt_view(o: Option<String>) -> Option<Seq<char>> {
    match o {
        Some(s) => Some(s@),
        None => None,
    }
}

/// `p` is the part that segment `seg` with attributes `attrs` makes.
pub open spec fn part_of(p: Part, seg: SegmentView, attrs: Seq<Pair>) -> bool {
    &&& p.source@.map_values(|l: String| l@) == seg.1
    &&& attstring::pairs_view(p.attributes@) == attrs
    &&& opt_view(p.caption) == first_value(attrs, "caption"@)
    &&& opt_view(p.url) == first_value(attrs, "url"@)
}

/// The attributes of the parts numbered below `n` (segments 1 to `n`) can all be read.
pub open spec fn attributes_read(segs: Seq<SegmentView>, n: int) -> bool {
    forall|i: int| 1 <= i <= n ==> (#[trigger] segment_attributes(segs[i])) is Ok
}

/// The value stored under `key` in the first pair that has it.
fn find_value(pairs: &Vec<(String, String)>, key: &String) -> (r: Option<String>)
    ensures
        opt_view(r) == first_value(attstring::pairs_view(pairs@), key@),
{
    let ghost pv = attstring::pairs_view(pairs@);
    let mut i: usize = 0;
    proof {
        assert(pv.skip(0) =~= pv);
    }
    while i < pairs.len()
        invariant
            i <= pairs@.len(),
            pv == attstring::pairs_view(pairs@),
            first_value(pv, key@) == first_value(pv.skip(i as int), key@),
        decreases pairs@.len() - i,
    {
        proof {
            assert(pv.skip(i as int)[0] == pv[i as int]);
            assert(pv.skip(i as int).drop_first() =~= pv.skip(i + 1));
        }
        if pairs[i].0 == *key {
            return Some(pairs[i].1.clone());
        }
        i += 1;
    }
    None
}

/// The part that a segment makes, or why its attributes cannot be read.
fn make_part(segment: segment_file::Segment) -> (r: Result<Part, attstring::Error>)
    ensures
        match r {
            Ok(p) => segment_attributes(segment_file::segment_view(segment)) matches Ok(attrs) && part_of(
                p,
                segment_file::segment_view(segment),
                attrs,
            ),
            Err(e) => segment_attributes(segment_file::segment_view(segment)) == Err::<Seq<Pair>, attstring::Error>(e),
        },
{
    let ghost seg = segment_file::segment_view(segment);
    let segment_file::Segment { caption, lines } = segment;
    let attributes = match caption {
        Some(c) => match attstring::parse(c.as_str()) {
            Ok(a) => a.pairs(),
            Err(e) => {
                return Err(e);
            },
        },
        None => {
            let empty: Vec<(String, String)> = Vec::new();
            proof {
                assert(attstring::pairs_view(empty@) =~= Seq::<Pair>::empty());
            }
            empty
        },
    };
    let caption_key = String::from_str("caption");
    let url_key = String::from_str("url");
    let caption = find_value(&attributes, &caption_key);
    let url = find_value(&attributes, &url_key);
    Ok(Part { attributes, source: lines, url, caption })
}

/// Reads a snippet file: the text of its metadata block and its parts.
pub fn split_source(source: &str) -> (r: Result<(String, Vec<Part>), SourceError>)
    ensures
        ({
            let segs = source_segments(source@);
            match r {
                Ok((meta, parts)) => {
                    &&& segs.len() >= 2
                    &&& meta@ == joined(segs[0].1)
                    &&& parts@.len() == segs.len() - 1
                    &&& attributes_read(segs, segs.len() - 1)
                    &&& forall|i: int| 0 <= i < parts@.len() ==> part_of(
                        #[trigger] parts@[i],
                        segs[i + 1],
                        segment_attributes(segs[i + 1])->Ok_0,
                    )
                },
                Err(SourceError::Attributes(e)) => exists|i: int|
                    1 <= i < segs.len() && attributes_read(segs, i - 1) && #[trigger] segment_attributes(segs[i])
                        == Err::<Seq<Pair>, attstring::Error>(e),
                Err(SourceError::MissingSegments) => segs.len() == 1,
            }
        }),
{
    let lines = split_lines(source);
    let segments = segment_file::parse(&lines, separator_caption);
    let ghost segs = source_segments(source@);
    proof {
        let seps = choose|seps: Seq<Option<String>>| #![trigger segment_file::separator_views(seps)]
            {
                &&& seps.len() == lines@.len()
                &&& forall|i: int| 0 <= i < lines@.len() ==> call_ensures(separator_caption, (&lines@[i],), #[trigger] seps[i])
                &&& segments@.map_values(|s: segment_file::Segment| segment_file::segment_view(s)) == segments_of(
                    lines@.map_values(|l: String| l@),
                    segment_file::separator_views(seps),
                )
            };
        let ls = lines_of(source@);
        assert(segment_file::separator_views(seps) =~= ls.map_values(|l: Seq<char>| separator_spec(l))) by {
            assert forall|i: int| 0 <= i < seps.len() implies segment_file::separator_views(seps)[i] == separator_spec(ls[i]) by {
                assert(call_ensures(separator_caption, (&lines@[i],), seps[i]));
                assert(lines@.map_values(|l: String| l@)[i] == lines@[i]@);
            }
        }
        assert(segments@.map_values(|s: segment_file::Segment| segment_file::segment_view(s)) == segs);
        segment_file::lemma_segments_nonempty(ls, ls.map_values(|l: Seq<char>| separator_spec(l)));
        assert(segments@.len() == segs.len());
        assert forall|j: int| 0 <= j < segments@.len() implies segment_file::segment_view(#[trigger] segments@[j]) == segs[j] by {
            assert(segments@.map_values(|s: segment_file::Segment| segment_file::segment_view(s))[j] == segment_file::segment_view(segments@[j]));
        }
    }
    let mut rest = segments;
    proof {
        assert(segment_file::segment_view(rest@[0]) == segs[0]);
    }
    let metadata_segment = rest.remove(0);
    let metadata = join_lines(&metadata_segment.lines);
    let mut parts: Vec<Part> = Vec::new();
    while rest.len() > 0
        invariant
            segs == source_segments(source@),
            parts@.len() + rest@.len() + 1 == segs.len(),
            attributes_read(segs, parts@.len() as int),
            forall|i: int| 0 <= i < parts@.len() ==> part_of(#[trigger] parts@[i], segs[i + 1], segment_attributes(segs[i + 1])->Ok_0),
            forall|j: int| 0 <= j < rest@.len() ==> segment_file::segment_view(#[trigger] rest@[j]) == segs[parts@.len() + 1 + j],
        decreases rest@.len(),
    {
        let segment = rest.remove(0);
        let ghost k = parts@.len() as int;
        match make_part(segment) {
            Ok(part) => {
                parts.push(part);
            },
            Err(e) => {
                proof {
                    assert(segment_attributes(segs[k + 1]) == Err::<Seq<Pair>, attstring::Error>(e));

                }
                return Err(SourceError::Attributes(e));
            },
        }
    }
    if parts.len() == 0 {
        return Err(SourceError::MissingSegments);
    }
    Ok((metadata, parts))
}

/// The lines joined with `\n` between them.
pub fn join_lines(lines: &Vec<String>) -> (r: String)
    ensures
        r@ == joined(lines@.map_values(|l: String| l@)),
{
    let ghost ls = lines@.map_values(|l: String| l@);
    let mut result = String::new();
    let mut i: usize = 0;
    while i < lines.len()
        invariant
            i <= lines@.len(),
            ls == lines@.map_values(|l: String| l@),
            result@ == joined(ls.take(i as int)),
        decreases lines@.len() - i,
    {
        if i > 0 {
            push_char(&mut result, '\n');
        }
        result.append(lines[i].as_str());
        proof {
            assert(ls.take(i + 1).drop_last() =~= ls.take(i as int));
            if i == 0 {
                assert(ls.take(1)[0] == ls[0]);
            }
        }
        i += 1;
    }
    proof {
        assert(ls.take(i as int) =~= ls);
    }
    result
}

/// A snippet file from its path, its parsed metadata and its parts.
pub fn assemble(path: String, metadata: Metadata, parts: Vec<Part>) -> (r: Snippet)
    ensures
        r.path == path,
        r.description == metadata.description,
        r.identifier == metadata.identifier,
        r.links@ == match metadata.links {
            Some(l) => l@,
            None => Seq::empty(),
        },
        r.keywords@ == match metadata.keywords {
            Some(k) => k@,
            None => Seq::empty(),
        },
        tag_pairs(r.tags@) == match metadata.tags {
            Some(entries) => category_tags(entries@),
            None => Seq::empty(),
        },
        r.parts == parts,
{
    let tags = directory_tags(&metadata.tags);
    let links = match metadata.links {
        Some(l) => l,
        None => Vec::new(),
    };
    let keywords = match metadata.keywords {
        Some(k) => k,
        None => Vec::new(),
    };
    Snippet { identifier: metadata.identifier, links, description: metadata.description, parts, tags, keywords, path }
}

} // verus!
