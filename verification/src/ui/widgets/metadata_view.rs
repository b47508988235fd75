//! The metadata of a snippet, shown by category.
use vstd::prelude::*;
use vstd::utf8::{encode_utf8, encode_utf8_decode_utf8};
use crate::snippets::snippets::Tag;
use crate::util::lexicographic::{lemma_lt_total, lemma_lt_trans, lex_lt};
use crate::util::sorting::{keys_sorted, sort_by_key_bytes, ByteKey};
use crate::util::strings::bytes_lt;

verus! {

/// A category of metadata: a caption and its entries.
pub struct Category {
    pub caption: String,
    pub entries: Vec<String>,
}

/// Strings are ordered by their UTF-8 bytes, as `str`'s comparison orders them.
impl ByteKey for String {
    open spec fn byte_key(&self) -> Seq<u8> {
        encode_utf8(self@)
    }

    fn key_bytes(&self) -> (r: &[u8]) {
        self.as_str().as_bytes()
    }
}

/// The names of the tags of `category`, in order.
pub open spec fn names_in(tags: Seq<Tag>, category: Seq<char>) -> Seq<String>
    decreases tags.len(),
{
    if tags.len() == 0 {
        seq![]
    } else {
        let rest = names_in(tags.drop_last(), category);
        if tags.last().category@ == category {
            rest.push(tags.last().name)
        } else {
            rest
        }
    }
}

/// The captions strictly increase in byte order, so no two are the same.
pub open spec fn captions_increasing(captions: Seq<String>) -> bool {
    forall|i: int, j: int|
        0 <= i < j < captions.len() ==> lex_lt(
            encode_utf8(#[trigger] captions[i]@),
            encode_utf8(#[trigger] captions[j]@),
        )
}

/// Whether `c` is the category of one of the tags.
pub open spec fn is_category_of(c: Seq<char>, tags: Seq<Tag>) -> bool {
    exists|t: int| 0 <= t < tags.len() && (#[trigger] tags[t]).category@ == c
}

/// Whether `c` is one of the captions.
pub open spec fn is_caption_in(c: Seq<char>, captions: Seq<String>) -> bool {
    exists|i: int| 0 <= i < captions.len() && (#[trigger] captions[i])@ == c
}

/// Every caption is the category of some tag.
pub open spec fn captions_from_tags(captions: Seq<String>, tags: Seq<Tag>) -> bool {
    forall|i: int| 0 <= i < captions.len() ==> is_category_of((#[trigger] captions[i])@, tags)
}

/// The category of every tag is a caption.
pub open spec fn tags_captioned(captions: Seq<String>, tags: Seq<Tag>) -> bool {
    forall|t: int| 0 <= t < tags.len() ==> is_caption_in((#[trigger] tags[t]).category@, captions)
}

/// The captions are exactly the categories of the tags.
pub open spec fn captions_are_categories(captions: Seq<String>, tags: Seq<Tag>) -> bool {
    captions_from_tags(captions, tags) && tags_captioned(captions, tags)
}

/// Equal byte keys mean equal strings.
proof fn lemma_same_bytes(a: Seq<char>, b: Seq<char>)
    requires
        encode_utf8(a) == encode_utf8(b),
    ensures
        a == b,
{
    encode_utf8_decode_utf8(a);
    encode_utf8_decode_utf8(b);
}

/// Puts `category` into the increasing captions unless it is there already.
fn insert_caption(out: &mut Vec<String>, category: &String)
    requires
        captions_increasing(old(out)@),
    ensures
        captions_increasing(final(out)@),
        is_caption_in(category@, final(out)@),
        forall|j: int| 0 <= j < old(out)@.len() ==> is_caption_in((#[trigger] old(out)@[j])@, final(out)@),
        forall|k: int|
            0 <= k < final(out)@.len() ==> (#[trigger] final(out)@[k])@ == category@ || is_caption_in(
                final(out)@[k]@,
                old(out)@,
            ),
{
    let mut p: usize = 0;
    while p < out.len() && bytes_lt(out[p].key_bytes(), category.key_bytes())
        invariant
            p <= out@.len(),
            forall|q: int| 0 <= q < p ==> lex_lt(encode_utf8(#[trigger] out@[q]@), encode_utf8(category@)),
        decreases out@.len() - p,
    {
        p += 1;
    }
    let ghost old_out = out@;
    if p < out.len() && out[p] == *category {
        proof {
            assert(out@[p as int]@ == category@);
            assert forall|j: int| 0 <= j < old_out.len() implies is_caption_in((#[trigger] old_out[j])@, out@) by {
                assert(out@[j] == old_out[j]);
            }
            assert forall|k: int| 0 <= k < out@.len() implies (#[trigger] out@[k])@ == category@ || is_caption_in(
                out@[k]@,
                old_out,
            ) by {
                assert(old_out[k] == out@[k]);
            }
        }
        return;
    }
    proof {
        if p < out@.len() {
            assert(!lex_lt(encode_utf8(out@[p as int]@), encode_utf8(category@)));
            lemma_lt_total(encode_utf8(out@[p as int]@), encode_utf8(category@));
            if encode_utf8(out@[p as int]@) == encode_utf8(category@) {
                lemma_same_bytes(out@[p as int]@, category@);
            }
        }
    }
    out.insert(p, category.clone());
    proof {
        assert(out@ == old_out.insert(p as int, *category));
        lemma_insert_increasing(old_out, p as int, *category);
        assert(out@[p as int]@ == category@);
        assert forall|j: int| 0 <= j < old_out.len() implies is_caption_in((#[trigger] old_out[j])@, out@) by {
            if j < p {
                assert(out@[j] == old_out[j]);
            } else {
                assert(out@[j + 1] == old_out[j]);
            }
        }
        assert forall|k: int| 0 <= k < out@.len() implies (#[trigger] out@[k])@ == category@ || is_caption_in(
            out@[k]@,
            old_out,
        ) by {
            if k < p {
                assert(old_out[k] == out@[k]);
            } else if k > p {
                assert(old_out[k - 1] == out@[k]);
            }
        }
    }
}

/// Inserting a caption where it belongs keeps the captions increasing.
proof fn lemma_insert_increasing(old_out: Seq<String>, p: int, x: String)
    requires
        captions_increasing(old_out),
        0 <= p <= old_out.len(),
        forall|q: int| 0 <= q < p ==> lex_lt(encode_utf8(#[trigger] old_out[q]@), encode_utf8(x@)),
        p < old_out.len() ==> lex_lt(encode_utf8(x@), encode_utf8(old_out[p]@)),
    ensures
        captions_increasing(old_out.insert(p, x)),
{
    let out = old_out.insert(p, x);
    assert forall|a: int, b: int| 0 <= a < b < out.len() implies lex_lt(
        encode_utf8(#[trigger] out[a]@),
        encode_utf8(#[trigger] out[b]@),
    ) by {
        if b < p {
            assert(out[a] == old_out[a] && out[b] == old_out[b]);
        } else if b == p {
            assert(out[a] == old_out[a]);
        } else if a > p {
            assert(out[a] == old_out[a - 1] && out[b] == old_out[b - 1]);
        } else if a == p {
            assert(out[b] == old_out[b - 1]);
            if b - 1 > p {
                lemma_lt_trans(encode_utf8(x@), encode_utf8(old_out[p]@), encode_utf8(old_out[b - 1]@));
            }
        } else {
            assert(out[a] == old_out[a] && out[b] == old_out[b - 1]);
            if b - 1 > p {
                lemma_lt_trans(encode_utf8(x@), encode_utf8(old_out[p]@), encode_utf8(old_out[b - 1]@));
            }
            lemma_lt_trans(encode_utf8(old_out[a]@), encode_utf8(x@), encode_utf8(old_out[b - 1]@));
        }
    }
}

/// After a tag's category joins the captions, every category of the tags so far and that one
/// has a caption.
proof fn lemma_categories_covered(old_out: Seq<String>, out: Seq<String>, seen: Seq<Tag>, tag: Tag)
    requires
        tags_captioned(old_out, seen),
        is_caption_in(tag.category@, out),
        forall|j: int| 0 <= j < old_out.len() ==> is_caption_in((#[trigger] old_out[j])@, out),
    ensures
        tags_captioned(out, seen.push(tag)),
{
    let now = seen.push(tag);
    assert forall|t: int| 0 <= t < now.len() implies is_caption_in((#[trigger] now[t]).category@, out) by {
        if t < seen.len() {
            assert(now[t] == seen[t]);
            assert(is_caption_in(seen[t].category@, old_out));
            let j = choose|j: int| 0 <= j < old_out.len() && (#[trigger] old_out[j])@ == seen[t].category@;
            assert(is_caption_in(old_out[j]@, out));
        } else {
            assert(now[t] == tag);
        }
    }
}

/// After a tag's category joins the captions, every caption is a category of the tags so far
/// or of that one.
proof fn lemma_captions_from_tags(old_out: Seq<String>, out: Seq<String>, seen: Seq<Tag>, tag: Tag)
    requires
        captions_from_tags(old_out, seen),
        forall|k: int| 0 <= k < out.len() ==> (#[trigger] out[k])@ == tag.category@ || is_caption_in(out[k]@, old_out),
    ensures
        captions_from_tags(out, seen.push(tag)),
{
    let now = seen.push(tag);
    assert forall|k: int| 0 <= k < out.len() implies is_category_of((#[trigger] out[k])@, now) by {
        if out[k]@ == tag.category@ {
            assert(now[seen.len() as int] == tag);
        } else {
            let j = choose|j: int| 0 <= j < old_out.len() && (#[trigger] old_out[j])@ == out[k]@;
            assert(is_category_of(old_out[j]@, seen));
            let t = choose|t: int| 0 <= t < seen.len() && (#[trigger] seen[t]).category@ == old_out[j]@;
            assert(now[t] == seen[t]);
        }
    }
}

/// The categories of the tags, each once, in byte order.
fn sorted_categories(tags: &Vec<Tag>) -> (r: Vec<String>)
    ensures
        captions_increasing(r@),
        captions_are_categories(r@, tags@),
{
    let mut out: Vec<String> = Vec::new();
    let mut i: usize = 0;
    while i < tags.len()
        invariant
            i <= tags@.len(),
            captions_increasing(out@),
            captions_are_categories(out@, tags@.take(i as int)),
        decreases tags@.len() - i,
    {
        let ghost seen = tags@.take(i as int);
        let ghost now = tags@.take(i + 1);
        let ghost old_out = out@;
        insert_caption(&mut out, &tags[i].category);
        proof {
            assert(now =~= seen.push(tags@[i as int]));
            lemma_categories_covered(old_out, out@, seen, tags@[i as int]);
            lemma_captions_from_tags(old_out, out@, seen, tags@[i as int]);
        }
        i += 1;
    }
    proof {
        assert(tags@.take(i as int) =~= tags@);
    }
    out
}

/// The names of the tags of `category`, in order.
fn names_of_category(tags: &Vec<Tag>, category: &String) -> (r: Vec<String>)
    ensures
        r@ == names_in(tags@, category@),
{
    let mut names: Vec<String> = Vec::new();
    let mut i: usize = 0;
    while i < tags.len()
        invariant
            i <= tags@.len(),
            names@ == names_in(tags@.take(i as int), category@),
        decreases tags@.len() - i,
    {
        proof {
            assert(tags@.take(i + 1).drop_last() =~= tags@.take(i as int));
        }
        if tags[i].category == *category {
            names.push(tags[i].name.clone());
        }
        i += 1;
    }
    proof {
        assert(tags@.take(i as int) =~= tags@);
    }
    names
}

/// The tags grouped by category for the metadata view: one category per tag category, in
/// byte order of the captions, each with the names of its tags sorted.
pub fn categories_of(tags: &Vec<Tag>) -> (r: Vec<Category>)
    ensures
        captions_increasing(r@.map_values(|c: Category| c.caption)),
        captions_are_categories(r@.map_values(|c: Category| c.caption), tags@),
        forall|i: int|
            0 <= i < r@.len() ==> keys_sorted((#[trigger] r@[i]).entries@) && r@[i].entries@.to_multiset()
                == names_in(tags@, r@[i].caption@).to_multiset(),
{
    let captions = sorted_categories(tags);
    let mut categories: Vec<Category> = Vec::new();
    let mut i: usize = 0;
    while i < captions.len()
        invariant
            i <= captions@.len(),
            categories@.map_values(|c: Category| c.caption) == captions@.take(i as int),
            forall|k: int|
                0 <= k < categories@.len() ==> keys_sorted((#[trigger] categories@[k]).entries@)
                    && categories@[k].entries@.to_multiset() == names_in(tags@, categories@[k].caption@).to_multiset(),
        decreases captions@.len() - i,
    {
        let caption = captions[i].clone();
        let entries = sort_by_key_bytes(names_of_category(tags, &caption));
        let ghost before = categories@;
        let ghost added = Category { caption, entries };
        categories.push(Category { caption, entries });
        proof {
            assert(categories@ == before.push(added));
            assert(categories@.map_values(|c: Category| c.caption) =~= before.map_values(|c: Category| c.caption).push(
                captions@[i as int],
            ));
            assert(captions@.take(i + 1) =~= captions@.take(i as int).push(captions@[i as int]));
            assert(categories@.map_values(|c: Category| c.caption) =~= captions@.take(i + 1));
        }
        i += 1;
    }
    proof {
        assert(captions@.take(i as int) =~= captions@);
    }
    categories
}

} // verus!
