//! Files made of segments: separator lines split the lines of a file into segments, and a
//! separator may give the segment that follows it a caption.
use vstd::prelude::*;

verus! {

/// A run of lines, with the caption of the separator that opened it.
#[derive(Debug)]
pub struct Segment {
    pub caption: Option<String>,
    pub lines: Vec<String>,
}

/// A segment as character sequences.
pub type SegmentView = (Option<Seq<char>>, Seq<Seq<char>>);

/// The caption a separator gives: none where it is empty.
pub open spec fn caption_of(c: Seq<char>) -> Option<Seq<char>> {
    if c.len() > 0 {
        Some(c)
    } else {
        None
    }
}

/// The segments of `lines`, where `seps[i]` tells whether line `i` is a separator and with
/// which caption. The first segment has no caption and holds the lines before the first
/// separator; each separator starts a new segment.
pub open spec fn segments_of(lines: Seq<Seq<char>>, seps: Seq<Option<Seq<char>>>) -> Seq<SegmentView>
    decreases lines.len(),
{
    if lines.len() == 0 {
        seq![(None, Seq::empty())]
    } else {
        let before = segments_of(lines.drop_last(), seps.take(lines.len() - 1));
        match seps[lines.len() - 1] {
            Some(c) => before.push((caption_of(c), Seq::empty())),
            None => before.update(before.len() - 1, (before.last().0, before.last().1.push(lines.last()))),
        }
    }
}

/// A segment as character sequences.
pub open spec fn segment_view(s: Segment) -> SegmentView {
    (
        match s.caption {
            Some(c) => Some(c@),
            None => None,
        },
        s.lines@.map_values(|l: String| l@),
    )
}

/// The separator results as character sequences.
pub open spec fn separator_views(seps: Seq<Option<String>>) -> Seq<Option<Seq<char>>> {
    seps.map_values(
        |o: Option<String>|
            match o {
                Some(c) => Some(c@),
                None => None,
            },
    )
}

pub proof fn lemma_segments_nonempty(lines: Seq<Seq<char>>, seps: Seq<Option<Seq<char>>>)
    ensures
        segments_of(lines, seps).len() >= 1,
    decreases lines.len(),
{
    if lines.len() > 0 {
        lemma_segments_nonempty(lines.drop_last(), seps.take(lines.len() - 1));
    }
}

/// Splits `lines` into segments; `is_separator` tells which lines are separators, and with
/// which caption.
pub fn parse<F: Fn(&String) -> Option<String>>(lines: &Vec<String>, is_separator: F) -> (r: Vec<Segment>)
    requires
        forall|i: int| 0 <= i < lines@.len() ==> is_separator.requires((&lines@[i],)),
    ensures
        exists|seps: Seq<Option<String>>|
            #![trigger separator_views(seps)]
            {
                &&& seps.len() == lines@.len()
                &&& forall|i: int| 0 <= i < lines@.len() ==> is_separator.ensures((&lines@[i],), #[trigger] seps[i])
                &&& r@.map_values(|s: Segment| segment_view(s)) == segments_of(
                    lines@.map_values(|l: String| l@),
                    separator_views(seps),
                )
            },
{
    let ghost views = lines@.map_values(|l: String| l@);
    let ghost mut seps: Seq<Option<String>> = Seq::empty();
    let mut segments: Vec<Segment> = Vec::new();
    let mut current = Segment { caption: None, lines: Vec::new() };
    let mut i: usize = 0;
    proof {
        assert(views.take(0) =~= Seq::<Seq<char>>::empty());
        assert(separator_views(seps) =~= Seq::<Option<Seq<char>>>::empty());
        assert(segment_view(current).1 =~= Seq::<Seq<char>>::empty());
    }
    while i < lines.len()
        invariant
            i <= lines@.len(),
            views == lines@.map_values(|l: String| l@),
            forall|j: int| 0 <= j < lines@.len() ==> is_separator.requires((&lines@[j],)),
            seps.len() == i,
            forall|j: int| 0 <= j < i ==> is_separator.ensures((&lines@[j],), #[trigger] seps[j]),
            segments@.map_values(|s: Segment| segment_view(s)).push(segment_view(current)) == segments_of(
                views.take(i as int),
                separator_views(seps),
            ),
        decreases lines@.len() - i,
    {
        let line = &lines[i];
        let sep = is_separator(line);
        let ghost before = segments@.map_values(|s: Segment| segment_view(s)).push(segment_view(current));
        proof {
            lemma_segments_nonempty(views.take(i as int), separator_views(seps));
            assert(views.take(i + 1).drop_last() =~= views.take(i as int));
            assert(separator_views(seps.push(sep)).take(i as int) =~= separator_views(seps));
            assert(separator_views(seps.push(sep))[i as int] == match sep {
                Some(c) => Some(c@),
                None => None::<Seq<char>>,
            });
        }
        match sep {
            Some(caption) => {
                let caption = if caption.as_str().is_empty() {
                    None
                } else {
                    Some(caption)
                };
                let mut finished = Segment { caption, lines: Vec::new() };
                std::mem::swap(&mut finished, &mut current);
                segments.push(finished);
                proof {
                    assert(segment_view(current).1 =~= Seq::<Seq<char>>::empty());
                    assert(segments@.map_values(|s: Segment| segment_view(s)).push(segment_view(current)) =~= before.push(
                        segment_view(current),
                    ));
                }
            },
            None => {
                let ghost old_current = current;
                current.lines.push(line.clone());
                proof {
                    assert(segment_view(current).1 =~= segment_view(old_current).1.push(line@));
                    assert(segments@.map_values(|s: Segment| segment_view(s)).push(segment_view(current)) =~= before.update(
                        before.len() - 1,
                        (before.last().0, before.last().1.push(views[i as int])),
                    ));
                }
            },
        }
        proof {
            seps = seps.push(sep);
            assert(separator_views(seps).take(i as int) =~= separator_views(seps.drop_last()));
        }
        i += 1;
    }
    proof {
        assert(views.take(i as int) =~= views);
    }
    let ghost before = segments@.map_values(|s: Segment| segment_view(s));
    segments.push(current);
    proof {
        assert(segments@.map_values(|s: Segment| segment_view(s)) =~= before.push(segment_view(current)));
        assert(separator_views(seps) == separator_views(seps));
    }
    segments
}

} // verus!
