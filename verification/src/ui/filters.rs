//! Searching the library for the lists that the user interface shows.
use vstd::prelude::*;
use vstd::seq_lib::lemma_seq_contains_after_push;
use crate::snippets::library::{is_tag_collection, same_tag, selected, tag_key, tag_listed, sort_tags, Library};
use crate::snippets::snippets::{Snippet, Tag};
use crate::util::lexicographic::lex_lt;

verus! {

/// The names of a list of tags.
pub open spec fn tag_names(tags: Seq<Tag>) -> Seq<String> {
    tags.map_values(|t: Tag| t.name)
}

/// `ids` lists, in increasing order, exactly the snippets found by `keywords` and the tag
/// names `names`.
pub open spec fn found_by(lib: Seq<Snippet>, ids: Seq<usize>, keywords: Seq<String>, names: Seq<String>) -> bool {
    &&& forall|a: int, b: int| 0 <= a < b < ids.len() ==> ids[a] < ids[b]
    &&& forall|x: usize| ids.contains(x) <==> (x < lib.len() && selected(lib[x as int], keywords, names))
}

/// Some snippet listed in `ids` carries a tag like `t`.
pub open spec fn carried(lib: Seq<Snippet>, ids: Seq<usize>, t: Tag) -> bool {
    exists|a: int| 0 <= a < ids.len() && ids[a] < lib.len() && tag_listed(lib[ids[a] as int].tags@, t)
}

/// `tags` lists each tag of the snippets `ids` that is not among `excluded`, once, ordered by
/// lower-cased name.
pub open spec fn lists_tags_of(lib: Seq<Snippet>, ids: Seq<usize>, excluded: Seq<Tag>, tags: Seq<Tag>) -> bool {
    &&& forall|a: int, b: int| 0 <= a < ids.len() && 0 <= b < lib[ids[a] as int].tags@.len() && !tag_listed(excluded, lib[ids[a] as int].tags@[b])
        ==> tag_listed(tags, #[trigger] lib[ids[a] as int].tags@[b])
    &&& forall|k: int| 0 <= k < tags.len() ==> carried(lib, ids, #[trigger] tags[k]) && !tag_listed(excluded, tags[k])
    &&& forall|a: int, b: int| 0 <= a < b < tags.len() ==> !same_tag(#[trigger] tags[a], #[trigger] tags[b])
    &&& forall|a: int, b: int| 0 <= a < b < tags.len() ==> !lex_lt(tag_key(#[trigger] tags[b]), tag_key(#[trigger] tags[a]))
}

/// The snippets found by `keywords` and the tags `filtering_tags`, and the other tags that
/// those snippets carry.
pub fn apply_filters(library: &Library, keywords: &Vec<String>, filtering_tags: &Vec<Tag>) -> (r: (Vec<usize>, Vec<Tag>))
    ensures
        found_by(library.snippet_list(), r.0@, keywords@, tag_names(filtering_tags@)),
        lists_tags_of(library.snippet_list(), r.0@, filtering_tags@, r.1@),
        r.0@.len() <= library.snippet_list().len(),
        r.1@.len() <= library.tag_list().len(),
{
    let names = names_of(filtering_tags);
    let snippets = library.search(keywords, &names);
    let ghost lib = library.snippet_list();
    let mut distinct: Vec<Tag> = Vec::new();
    let mut a: usize = 0;
    while a < snippets.len()
        invariant
            lib == library.snippet_list(),
            found_by(lib, snippets@, keywords@, names@),
            a <= snippets@.len(),
            forall|x: int, b: int| 0 <= x < a && 0 <= b < lib[snippets@[x] as int].tags@.len() && !tag_listed(filtering_tags@, lib[snippets@[x] as int].tags@[b])
                ==> tag_listed(distinct@, #[trigger] lib[snippets@[x] as int].tags@[b]),
            forall|k: int| 0 <= k < distinct@.len() ==> carried(lib, snippets@, #[trigger] distinct@[k]) && !tag_listed(filtering_tags@, distinct@[k]),
            forall|x: int, y: int| 0 <= x < y < distinct@.len() ==> !same_tag(#[trigger] distinct@[x], #[trigger] distinct@[y]),
        decreases snippets@.len() - a,
    {
        let id = snippets[a];
        proof {
            assert(snippets@.contains(id));
        }
        let tags = &library.snippet(id).tags;
        let mut b: usize = 0;
        while b < tags.len()
            invariant
                lib == library.snippet_list(),
                a < snippets@.len(),
                id == snippets@[a as int],
                id < lib.len(),
                *tags == lib[id as int].tags,
                b <= tags@.len(),
                forall|x: int, c: int| 0 <= x < a && 0 <= c < lib[snippets@[x] as int].tags@.len() && !tag_listed(filtering_tags@, lib[snippets@[x] as int].tags@[c])
                    ==> tag_listed(distinct@, #[trigger] lib[snippets@[x] as int].tags@[c]),
                forall|c: int| 0 <= c < b && !tag_listed(filtering_tags@, tags@[c]) ==> tag_listed(distinct@, #[trigger] tags@[c]),
                forall|k: int| 0 <= k < distinct@.len() ==> carried(lib, snippets@, #[trigger] distinct@[k]) && !tag_listed(filtering_tags@, distinct@[k]),
                forall|x: int, y: int| 0 <= x < y < distinct@.len() ==> !same_tag(#[trigger] distinct@[x], #[trigger] distinct@[y]),
            decreases tags@.len() - b,
        {
            let tag = &tags[b];
            let excluded = listed_in(filtering_tags, tag);
            let seen = listed_in(&distinct, tag);
            if !excluded && !seen {
                let ghost before = distinct@;
                distinct.push(tag.copied());
                proof {
                    assert(tag_listed(lib[id as int].tags@, *tag)) by {
                        assert(same_tag(lib[id as int].tags@[b as int], *tag));
                    }
                    assert(carried(lib, snippets@, *tag));
                    assert forall|x: int, c: int| 0 <= x < a && 0 <= c < lib[snippets@[x] as int].tags@.len() && !tag_listed(filtering_tags@, lib[snippets@[x] as int].tags@[c])
                        implies tag_listed(distinct@, #[trigger] lib[snippets@[x] as int].tags@[c]) by {
                        let t = lib[snippets@[x] as int].tags@[c];
                        let k = choose|k: int| 0 <= k < before.len() && same_tag(#[trigger] before[k], t);
                        assert(distinct@[k] == before[k]);
                    }
                    assert forall|c: int| 0 <= c < b + 1 && !tag_listed(filtering_tags@, tags@[c]) implies tag_listed(distinct@, #[trigger] tags@[c]) by {
                        if c < b {
                            let k = choose|k: int| 0 <= k < before.len() && same_tag(#[trigger] before[k], tags@[c]);
                            assert(distinct@[k] == before[k]);
                        } else {
                            assert(same_tag(distinct@[before.len() as int], tags@[c]));
                        }
                    }
                }
            }
            b += 1;
        }
        a += 1;
    }
    let tags = sort_tags(distinct);
    let all_tags = library.tags();
    proof {
        assert forall|x: int| 0 <= x < snippets@.len() implies snippets@[x] < lib.len() by {
            assert(snippets@.contains(snippets@[x]));
        }
        lemma_increasing_len(snippets@, lib.len());
        assert forall|x: int, b: int| 0 <= x < snippets@.len() && 0 <= b < lib[snippets@[x] as int].tags@.len() && !tag_listed(filtering_tags@, lib[snippets@[x] as int].tags@[b])
            implies tag_listed(tags@, #[trigger] lib[snippets@[x] as int].tags@[b]) by {
            let t = lib[snippets@[x] as int].tags@[b];
            let c = choose|c: int| 0 <= c < distinct@.len() && same_tag(#[trigger] distinct@[c], t);
            assert(tag_listed(tags@, distinct@[c]));
            let k = choose|k: int| 0 <= k < tags@.len() && same_tag(#[trigger] tags@[k], distinct@[c]);
            assert(same_tag(tags@[k], t));
        }
        assert forall|k: int| 0 <= k < tags@.len() implies carried(lib, snippets@, #[trigger] tags@[k]) && !tag_listed(filtering_tags@, tags@[k]) by {
            assert(tag_listed(distinct@, tags@[k]));
            let c = choose|c: int| 0 <= c < distinct@.len() && same_tag(#[trigger] distinct@[c], tags@[k]);
            lemma_carried_same(lib, snippets@, distinct@[c], tags@[k]);
            lemma_listed_same(filtering_tags@, distinct@[c], tags@[k]);
        }
        assert forall|k: int| 0 <= k < tags@.len() implies tag_listed(all_tags@, #[trigger] tags@[k]) by {
            let t = tags@[k];
            assert(carried(lib, snippets@, t));
            let x = choose|x: int| 0 <= x < snippets@.len() && snippets@[x] < lib.len() && tag_listed(lib[snippets@[x] as int].tags@, t);
            let s = lib[snippets@[x] as int];
            let j = choose|j: int| 0 <= j < s.tags@.len() && same_tag(#[trigger] s.tags@[j], t);
            assert(tag_listed(all_tags@, s.tags@[j]));
            lemma_listed_same(all_tags@, s.tags@[j], t);
        }
        lemma_distinct_tags_within(tags@, all_tags@);
    }
    (snippets, tags)
}

/// The names of the tags.
pub fn names_of(tags: &Vec<Tag>) -> (r: Vec<String>)
    ensures
        r@ == tag_names(tags@),
{
    let mut names: Vec<String> = Vec::new();
    let mut i: usize = 0;
    while i < tags.len()
        invariant
            i <= tags@.len(),
            names@ == tag_names(tags@.take(i as int)),
        decreases tags@.len() - i,
    {
        names.push(tags[i].name.clone());
        proof {
            assert(names@ =~= tag_names(tags@.take(i + 1)));
        }
        i += 1;
    }
    proof {
        assert(tags@.take(i as int) =~= tags@);
    }
    names
}

/// Whether `tags` holds a tag like `tag`.
fn listed_in(tags: &Vec<Tag>, tag: &Tag) -> (r: bool)
    ensures
        r == tag_listed(tags@, *tag),
{
    let mut k: usize = 0;
    while k < tags.len()
        invariant
            k <= tags@.len(),
            forall|c: int| 0 <= c < k ==> !same_tag(#[trigger] tags@[c], *tag),
        decreases tags@.len() - k,
    {
        if tags[k].category == tag.category && tags[k].name == tag.name {
            return true;
        }
        k += 1;
    }
    false
}

/// A sequence without repetitions whose items all occur in `b` is no longer than `b`.
pub proof fn lemma_unique_within<A>(a: Seq<A>, b: Seq<A>)
    requires
        a.no_duplicates(),
        forall|i: int| 0 <= i < a.len() ==> b.contains(#[trigger] a[i]),
    ensures
        a.len() <= b.len(),
{
    a.unique_seq_to_set();
    b.lemma_cardinality_of_set();
    vstd::seq_lib::seq_to_set_is_finite(b);
    assert forall|x: A| a.to_set().contains(x) implies b.to_set().contains(x) by {
        assert(a.contains(x));
        let i = choose|i: int| 0 <= i < a.len() && a[i] == x;
        assert(b.contains(a[i]));
    }
    vstd::set_lib::lemma_len_subset(a.to_set(), b.to_set());
}

/// Increasing positions below `n` are at most `n`.
pub proof fn lemma_increasing_len(ids: Seq<usize>, n: nat)
    requires
        forall|a: int, b: int| 0 <= a < b < ids.len() ==> ids[a] < ids[b],
        forall|a: int| 0 <= a < ids.len() ==> ids[a] < n,
    ensures
        ids.len() <= n,
{
    let all = Seq::new(n, |i: int| i as usize);
    assert(ids.no_duplicates()) by {
        assert forall|a: int, b: int| 0 <= a < ids.len() && 0 <= b < ids.len() && a != b implies ids[a] != ids[b] by {
            if a < b {
                assert(ids[a] < ids[b]);
            } else {
                assert(ids[b] < ids[a]);
            }
        }
    }
    assert forall|a: int| 0 <= a < ids.len() implies all.contains(#[trigger] ids[a]) by {
        assert(all[ids[a] as int] == ids[a]);
    }
    lemma_unique_within(ids, all);
}

/// Increasing positions that all occur among other increasing positions are no more.
pub proof fn lemma_increasing_within(a: Seq<usize>, b: Seq<usize>)
    requires
        forall|i: int, j: int| 0 <= i < j < a.len() ==> a[i] < a[j],
        forall|i: int| 0 <= i < a.len() ==> b.contains(#[trigger] a[i]),
    ensures
        a.len() <= b.len(),
{
    assert(a.no_duplicates()) by {
        assert forall|i: int, j: int| 0 <= i < a.len() && 0 <= j < a.len() && i != j implies a[i] != a[j] by {
            if i < j {
                assert(a[i] < a[j]);
            } else {
                assert(a[j] < a[i]);
            }
        }
    }
    lemma_unique_within(a, b);
}

/// Tags that differ pairwise, each listed in `b`, are no more than `b`.
pub proof fn lemma_distinct_tags_within(a: Seq<Tag>, b: Seq<Tag>)
    requires
        forall|i: int, j: int| 0 <= i < j < a.len() ==> !same_tag(#[trigger] a[i], #[trigger] a[j]),
        forall|i: int| 0 <= i < a.len() ==> tag_listed(b, #[trigger] a[i]),
    ensures
        a.len() <= b.len(),
{
    let f = |t: Tag| (t.category@, t.name@);
    let av = a.map_values(f);
    let bv = b.map_values(f);
    assert(av.no_duplicates()) by {
        assert forall|i: int, j: int| 0 <= i < av.len() && 0 <= j < av.len() && i != j implies av[i] != av[j] by {
            if i < j {
                assert(!same_tag(a[i], a[j]));
            } else {
                assert(!same_tag(a[j], a[i]));
            }
        }
    }
    assert forall|i: int| 0 <= i < av.len() implies bv.contains(#[trigger] av[i]) by {
        let k = choose|k: int| 0 <= k < b.len() && same_tag(#[trigger] b[k], a[i]);
        assert(bv[k] == av[i]);
    }
    lemma_unique_within(av, bv);
}

/// Carrying a tag depends on its category and name only.
pub proof fn lemma_carried_same(lib: Seq<Snippet>, ids: Seq<usize>, t: Tag, u: Tag)
    requires
        carried(lib, ids, t),
        same_tag(t, u),
    ensures
        carried(lib, ids, u),
{
    let a = choose|a: int| 0 <= a < ids.len() && ids[a] < lib.len() && tag_listed(lib[ids[a] as int].tags@, t);
    lemma_listed_same(lib[ids[a] as int].tags@, t, u);
}

/// Being listed depends on the category and name only.
pub proof fn lemma_listed_same(tags: Seq<Tag>, t: Tag, u: Tag)
    requires
        same_tag(t, u),
    ensures
        tag_listed(tags, t) == tag_listed(tags, u),
{
    if tag_listed(tags, t) {
        let k = choose|k: int| 0 <= k < tags.len() && same_tag(#[trigger] tags[k], t);
        assert(same_tag(tags[k], u));
    }
    if tag_listed(tags, u) {
        let k = choose|k: int| 0 <= k < tags.len() && same_tag(#[trigger] tags[k], u);
        assert(same_tag(tags[k], t));
    }
}

} // verus!
