//! The library: snippets, a keyword index over them, and the list of their tags.
use vstd::prelude::*;
use vstd::string::StringSliceAdditionalSpecFns;
use vstd::seq_lib::{lemma_seq_contains_after_push, to_multiset_contains};
use vstd::utf8::encode_utf8;
use crate::snippets::archive::{identifier_column, links_resolve, Archive};
use crate::snippets::snippets::raw;
use crate::snippets::snippets::{
    carries_id, has_tag_names, keywords_of, last_with_id, lemma_last_with_id_found, lemma_last_with_id_range,
    linked, Snippet, Tag,
};
use crate::util::lexicographic::{has_prefix, lex_lt};
use crate::util::sorting::{keys_sorted, sort_by_key_bytes, stable_sorted, ByteKey};
use crate::util::strings::{lowercase, to_lowercase};
use crate::util::trie::{is_listing, listing, prefix_search, Builder, Trie};

verus! {

/// The keywords of a snippet, as UTF-8 bytes.
pub open spec fn keyword_bytes(s: Snippet) -> Seq<Seq<u8>> {
    keywords_of(s).map_values(|w: Seq<char>| encode_utf8(w))
}

/// The index maps `k` to a list that holds `x`.
pub open spec fn stored(m: Map<Seq<u8>, Seq<usize>>, k: Seq<u8>, x: usize) -> bool {
    m.contains_key(k) && m[k].contains(x)
}

/// Snippet `x` has a keyword whose bytes are `k`, counting only the snippets before `i` and
/// the first `j` keywords of snippet `i`.
pub open spec fn counted(snippets: Seq<Snippet>, i: int, j: int, x: usize, k: Seq<u8>) -> bool {
    ||| (x < i && keyword_bytes(snippets[x as int]).contains(k))
    ||| (x == i && keyword_bytes(snippets[i]).take(j).contains(k))
}

/// The index holds, for each keyword, the snippets that have it, and nothing else.
pub open spec fn indexes(m: Map<Seq<u8>, Seq<usize>>, snippets: Seq<Snippet>) -> bool {
    forall|k: Seq<u8>, x: usize| #[trigger] stored(m, k, x) == (x < snippets.len() && keyword_bytes(snippets[x as int]).contains(k))
}

/// Some keyword of `s` starts with the bytes of `kw`.
pub open spec fn keyword_matches(s: Snippet, kw: Seq<char>) -> bool {
    exists|j: int| 0 <= j < keyword_bytes(s).len() && has_prefix(#[trigger] keyword_bytes(s)[j], encode_utf8(kw))
}

/// A snippet is found by a search: it carries every tag name, and each non-empty keyword
/// starts one of its keywords.
pub open spec fn selected(s: Snippet, keywords: Seq<String>, tags: Seq<String>) -> bool {
    &&& has_tag_names(s.tag_set@, tags)
    &&& forall|q: int| 0 <= q < keywords.len() && keywords[q]@.len() > 0 ==> keyword_matches(s, #[trigger] keywords[q]@)
}

/// Two tags with the same category and name.
pub open spec fn same_tag(a: Tag, b: Tag) -> bool {
    a.category@ == b.category@ && a.name@ == b.name@
}

/// The key by which tags are listed: the bytes of the lower-cased name.
pub open spec fn tag_key(t: Tag) -> Seq<u8> {
    encode_utf8(lowercase(t.name@))
}

/// `tags` holds a tag like `t`.
pub open spec fn tag_listed(tags: Seq<Tag>, t: Tag) -> bool {
    exists|k: int| 0 <= k < tags.len() && same_tag(#[trigger] tags[k], t)
}

/// Some snippet carries `t`.
pub open spec fn tag_used(snippets: Seq<Snippet>, t: Tag) -> bool {
    exists|i: int| 0 <= i < snippets.len() && tag_listed(#[trigger] snippets[i].tags@, t)
}

/// `tags` lists each tag of the snippets once, ordered by lower-cased name.
pub open spec fn is_tag_collection(snippets: Seq<Snippet>, tags: Seq<Tag>) -> bool {
    &&& forall|i: int, j: int| 0 <= i < snippets.len() && 0 <= j < snippets[i].tags@.len() ==> tag_listed(tags, #[trigger] snippets[i].tags@[j])
    &&& forall|k: int| 0 <= k < tags.len() ==> tag_used(snippets, #[trigger] tags[k])
    &&& forall|a: int, b: int| 0 <= a < b < tags.len() ==> !same_tag(#[trigger] tags[a], #[trigger] tags[b])
    &&& forall|a: int, b: int| 0 <= a < b < tags.len() ==> !lex_lt(tag_key(#[trigger] tags[b]), tag_key(#[trigger] tags[a]))
}

/// `sorted` holds the snippet files of `original`, ordered by description.
pub open spec fn arranged(sorted: Seq<raw::Snippet>, original: Seq<raw::Snippet>) -> bool {
    sorted.to_multiset() == original.to_multiset() && keys_sorted(sorted)
}

/// Each snippet of `lib` is the snippet file at its position in `sorted`, linked against the
/// identifiers of `sorted`.
pub open spec fn linked_all(lib: Seq<Snippet>, sorted: Seq<raw::Snippet>) -> bool {
    &&& lib.len() == sorted.len()
    &&& forall|i: int| 0 <= i < lib.len() ==> linked(#[trigger] lib[i], sorted[i], identifier_column(sorted))
}

/// The snippets, a keyword index over them and the list of their tags.
pub struct Library {
    snippets: Vec<Snippet>,
    trie: Trie<usize>,
    tags: Vec<Tag>,
}

impl Library {
    #[verifier::type_invariant]
    spec fn inv(self) -> bool {
        &&& indexes(self.trie@, self.snippets@)
        &&& is_tag_collection(self.snippets@, self.tags@)
    }

    /// The snippets, by position.
    pub closed spec fn snippet_list(self) -> Seq<Snippet> {
        self.snippets@
    }

    /// The tags of the snippets.
    pub closed spec fn tag_list(self) -> Seq<Tag> {
        self.tags@
    }

    /// Builds the library of `snippets`, keeping their order.
    pub fn new(snippets: Vec<Snippet>) -> (r: Library)
        ensures
            r.snippet_list() == snippets@,
            is_tag_collection(snippets@, r.tag_list()),
    {
        let mut builder: Builder<usize> = Builder::new();
        let n = snippets.len();
        let mut i: usize = 0;
        proof {
            assert forall|k: Seq<u8>, x: usize| #[trigger] stored(builder@, k, x) == counted(snippets@, 0, 0, x, k) by {
                assert(keyword_bytes(snippets@[0]).take(0) =~= Seq::<Seq<u8>>::empty());
            }
        }
        while i < n
            invariant
                n == snippets@.len(),
                i <= n,
                builder.wf(),
                forall|k: Seq<u8>, x: usize| #[trigger] stored(builder@, k, x) == counted(snippets@, i as int, 0, x, k),
            decreases n - i,
        {
            let keywords = snippets[i].keywords();
            let ghost kb = keyword_bytes(snippets@[i as int]);
            let mut j: usize = 0;
            proof {
                assert(kb.take(0) =~= Seq::<Seq<u8>>::empty());
            }
            while j < keywords.len()
                invariant
                    n == snippets@.len(),
                    i < n,
                    j <= keywords@.len(),
                    kb == keyword_bytes(snippets@[i as int]),
                    keywords@.map_values(|w: String| w@) == keywords_of(snippets@[i as int]),
                    builder.wf(),
                    forall|k: Seq<u8>, x: usize| #[trigger] stored(builder@, k, x) == counted(snippets@, i as int, j as int, x, k),
                decreases keywords@.len() - j,
            {
                let ghost m = builder@;
                let word = keywords[j].as_str();
                builder.add(word, i);
                proof {
                    let key = word.spec_bytes();
                    assert(keywords@.map_values(|w: String| w@)[j as int] == keywords@[j as int]@);
                    assert(key == kb[j as int]);
                    assert(kb.take(j + 1) =~= kb.take(j as int).push(key));
                    let old_list = if m.contains_key(key) { m[key] } else { Seq::<usize>::empty() };
                    assert forall|k: Seq<u8>, x: usize| #[trigger] stored(builder@, k, x) == counted(snippets@, i as int, j + 1, x, k) by {
                        assert(stored(m, k, x) == counted(snippets@, i as int, j as int, x, k));
                        lemma_seq_contains_after_push(kb.take(j as int), key, k);
                        if k == key {
                            lemma_seq_contains_after_push(old_list, i, x);
                        }
                    }
                }
                j += 1;
            }
            proof {
                assert(kb.take(j as int) =~= kb);
                assert forall|k: Seq<u8>, x: usize| #[trigger] stored(builder@, k, x) == counted(snippets@, i + 1, 0, x, k) by {
                    assert(stored(builder@, k, x) == counted(snippets@, i as int, j as int, x, k));
                    assert(keyword_bytes(snippets@[i + 1]).take(0) =~= Seq::<Seq<u8>>::empty());
                }
            }
            i += 1;
        }
        let trie = builder.finalize();
        let tags = collect_tags(&snippets);
        proof {
            assert forall|k: Seq<u8>, x: usize| #[trigger] stored(trie@, k, x) == (x < snippets@.len() && keyword_bytes(snippets@[x as int]).contains(k)) by {
                assert(stored(builder@, k, x) == counted(snippets@, n as int, 0, x, k));
            }
        }
        Library { snippets, trie, tags }
    }

    /// Builds the library of an archive: the snippets ordered by the bytes of their
    /// descriptions, snippets with equal descriptions in archive order, each link turned into
    /// the position of the snippet it names.
    pub fn from_archive(archive: Archive) -> (r: Library)
        requires
            links_resolve(archive.raw_snippets@),
        ensures
            linked_all(r.snippet_list(), stable_sorted(archive.raw_snippets@)),
            arranged(stable_sorted(archive.raw_snippets@), archive.raw_snippets@),
            is_tag_collection(r.snippet_list(), r.tag_list()),
    {
        let ghost original = archive.raw_snippets@;
        let sorted = sort_by_key_bytes(archive.raw_snippets);
        let ghost order = sorted@;
        let mut identifiers: Vec<Option<String>> = Vec::new();
        let mut i: usize = 0;
        while i < sorted.len()
            invariant
                i <= sorted@.len(),
                identifiers@ == identifier_column(sorted@).take(i as int),
            decreases sorted@.len() - i,
        {
            let id = match &sorted[i].identifier {
                Some(s) => Some(s.clone()),
                None => None,
            };
            identifiers.push(id);
            proof {
                assert(identifiers@ =~= identifier_column(sorted@).take(i + 1));
            }
            i += 1;
        }
        proof {
            assert(identifiers@ =~= identifier_column(sorted@));
            lemma_links_still_resolve(original, order);
        }
        let mut rest = sorted;
        let mut snippets: Vec<Snippet> = Vec::new();
        while rest.len() > 0
            invariant
                identifiers@ == identifier_column(order),
                links_resolve(order),
                rest@ == order.take(rest@.len() as int),
                snippets@.len() + rest@.len() == order.len(),
                forall|k: int| 0 <= k < snippets@.len() ==> linked(#[trigger] snippets@[k], order[rest@.len() + k], identifier_column(order)),
            decreases rest@.len(),
        {
            let ghost before = rest@;
            let raw_snippet = rest.pop().unwrap();
            let ghost pos = rest@.len() as int;
            proof {
                assert(raw_snippet == order[pos]);
                assert(rest@ =~= order.take(rest@.len() as int));
                assert forall|k: int| 0 <= k < raw_snippet.links@.len() implies last_with_id(identifiers@, (#[trigger] raw_snippet.links@[k])@) >= 0 by {
                    assert(raw_snippet.links@[k] == order[pos].links@[k]);
                }
            }
            let ghost old_snippets = snippets@;
            let snippet = Snippet::from_raw(raw_snippet, &identifiers);
            snippets.insert(0, snippet);
            proof {
                assert forall|k: int| 0 <= k < snippets@.len() implies linked(#[trigger] snippets@[k], order[rest@.len() + k], identifier_column(order)) by {
                    if k > 0 {
                        assert(snippets@[k] == old_snippets[k - 1]);
                    }
                }
            }
        }
        let library = Library::new(snippets);
        proof {
            assert(linked_all(library.snippet_list(), order));
            assert(arranged(order, original));
        }
        library
    }

    /// The positions of the snippets that have a keyword starting with `keyword`.
    fn search_single(&self, keyword: &str) -> (r: Vec<bool>)
        ensures
            r@.len() == self.snippet_list().len(),
            forall|x: int| 0 <= x < r@.len() ==> r@[x] == keyword_matches(self.snippet_list()[x], keyword@),
    {
        proof {
            use_type_invariant(self);
        }
        let n = self.snippets.len();
        let mut found: Vec<bool> = Vec::new();
        let mut i: usize = 0;
        while i < n
            invariant
                n == self.snippets@.len(),
                i <= n,
                found@.len() == i,
                forall|x: int| 0 <= x < i ==> !found@[x],
            decreases n - i,
        {
            found.push(false);
            i += 1;
        }
        let ghost m = self.trie@;
        let ghost kb = keyword.spec_bytes();
        let mut it = self.trie.iter(keyword);
        let ghost ls = listing(m, kb);
        let ghost ps = prefix_search(m, kb);
        let ghost mut consumed: int = 0;
        proof {
            assert forall|x: int| 0 <= x < n implies (found@[x] <==> seen_in(ps, consumed, x as usize)) by {}
        }
        loop
            invariant
                n == self.snippets@.len(),
                m == self.trie@,
                indexes(m, self.snippets@),
                is_listing(m, kb, ls),
                ps == ls.map_values(|k: Seq<u8>| m[k]),
                0 <= consumed <= ps.len(),
                it.remaining() == ps.skip(consumed),
                found@.len() == n,
                forall|x: int| 0 <= x < n ==> (found@[x] <==> seen_in(ps, consumed, x as usize)),
            ensures
                n == self.snippets@.len(),
                m == self.trie@,
                indexes(m, self.snippets@),
                is_listing(m, kb, ls),
                ps == ls.map_values(|k: Seq<u8>| m[k]),
                consumed == ps.len(),
                found@.len() == n,
                forall|x: int| 0 <= x < n ==> (found@[x] <==> seen_in(ps, consumed, x as usize)),
            decreases ps.len() - consumed,
        {
            let next = it.next();
            match next {
                None => {
                    proof {
                        assert(ps.skip(consumed).len() == 0);
                    }
                    break;
                },
                Some(list) => {
                    proof {
                        assert(ps.skip(consumed)[0] == ps[consumed]);
                        assert(list@ == ps[consumed]);
                        assert(m.contains_key(ls[consumed]));
                        assert(list@.take(0) =~= Seq::<usize>::empty());
                    }
                    let ghost before = found@;
                    let mut e: usize = 0;
                    while e < list.len()
                        invariant
                            n == self.snippets@.len(),
                            indexes(m, self.snippets@),
                            0 <= consumed < ps.len(),
                            list@ == ps[consumed],
                            ps[consumed] == m[ls[consumed]],
                            m.contains_key(ls[consumed]),
                            e <= list@.len(),
                            found@.len() == n,
                            before.len() == n,
                            forall|y: int| 0 <= y < n ==> (before[y] <==> seen_in(ps, consumed, y as usize)),
                            forall|y: int| 0 <= y < n ==> (found@[y] <==> (before[y] || list@.take(e as int).contains(y as usize))),
                        decreases list@.len() - e,
                    {
                        let x = list[e];
                        proof {
                            assert(list@.contains(x));
                            assert(stored(m, ls[consumed], x));
                        }
                        let ghost was = found@;
                        let ghost prev = list@.take(e as int);
                        found.set(x, true);
                        e += 1;
                        proof {
                            assert(list@.take(e as int) =~= prev.push(x));
                            assert forall|y: int| 0 <= y < n implies (found@[y] <==> (before[y] || list@.take(e as int).contains(y as usize))) by {
                                lemma_seq_contains_after_push(prev, x, y as usize);
                                assert(was[y] <==> (before[y] || prev.contains(y as usize)));
                            }
                        }
                    }
                    proof {
                        assert(list@.take(e as int) =~= list@);
                        assert forall|x: int| 0 <= x < n implies (found@[x] <==> seen_in(ps, consumed + 1, x as usize)) by {
                            lemma_seen_step(ps, consumed, x as usize);
                            assert(found@[x] <==> (before[x] || list@.take(e as int).contains(x as usize)));
                            assert(before[x] <==> seen_in(ps, consumed, x as usize));
                        }
                        assert(it.remaining() =~= ps.skip(consumed + 1));
                        consumed = consumed + 1;
                    }
                },
            }
        }
        proof {
            assert(consumed == ps.len());
            assert forall|x: int| 0 <= x < n implies found@[x] == keyword_matches(self.snippets@[x], keyword@) by {
                let s = self.snippets@[x];
                if found@[x] {
                    let t = choose|t: int| 0 <= t < consumed && ps[t].contains(x as usize);
                    let k = ls[t];
                    assert(stored(m, k, x as usize));
                    let j = choose|j: int| 0 <= j < keyword_bytes(s).len() && keyword_bytes(s)[j] == k;
                    assert(has_prefix(keyword_bytes(s)[j], encode_utf8(keyword@)));
                }
                if keyword_matches(s, keyword@) {
                    let j = choose|j: int| 0 <= j < keyword_bytes(s).len() && has_prefix(#[trigger] keyword_bytes(s)[j], encode_utf8(keyword@));
                    let k = keyword_bytes(s)[j];
                    assert(keyword_bytes(s).contains(k));
                    assert(stored(m, k, x as usize));
                    assert(ls.contains(k));
                    let t = choose|t: int| 0 <= t < ls.len() && ls[t] == k;
                    assert(ps[t].contains(x as usize));
                    assert(seen_in(ps, consumed, x as usize));
                }
            }
        }
        found
    }

    /// The positions, in increasing order, of the snippets that carry every tag named in `tags`
    /// and have, for each non-empty keyword of `keywords`, a keyword starting with it.
    pub fn search(&self, keywords: &Vec<String>, tags: &Vec<String>) -> (r: Vec<usize>)
        ensures
            forall|a: int, b: int| 0 <= a < b < r@.len() ==> r@[a] < r@[b],
            forall|x: usize| r@.contains(x) <==> (x < self.snippet_list().len() && selected(self.snippet_list()[x as int], keywords@, tags@)),
    {
        let n = self.snippets.len();
        let mut keep: Vec<bool> = Vec::new();
        let mut i: usize = 0;
        while i < n
            invariant
                n == self.snippets@.len(),
                i <= n,
                keep@.len() == i,
                forall|x: int| 0 <= x < i ==> keep@[x] == selected(self.snippets@[x], keywords@.take(0), tags@),
            decreases n - i,
        {
            let has = self.snippets[i].has_tags(tags);
            keep.push(has);
            i += 1;
        }
        let mut q: usize = 0;
        while q < keywords.len()
            invariant
                n == self.snippets@.len(),
                q <= keywords@.len(),
                keep@.len() == n,
                forall|x: int| 0 <= x < n ==> keep@[x] == selected(self.snippets@[x], keywords@.take(q as int), tags@),
            decreases keywords@.len() - q,
        {
            let word = keywords[q].as_str();
            if !word.is_empty() {
                let found = self.search_single(word);
                let mut x: usize = 0;
                while x < n
                    invariant
                        n == self.snippets@.len(),
                        q < keywords@.len(),
                        keywords@[q as int]@.len() > 0,
                        found@.len() == n,
                        forall|y: int| 0 <= y < n ==> found@[y] == keyword_matches(self.snippets@[y], keywords@[q as int]@),
                        x <= n,
                        keep@.len() == n,
                        forall|y: int| 0 <= y < x ==> keep@[y] == selected(self.snippets@[y], keywords@.take(q + 1), tags@),
                        forall|y: int| x <= y < n ==> keep@[y] == selected(self.snippets@[y], keywords@.take(q as int), tags@),
                    decreases n - x,
                {
                    let both = keep[x] && found[x];
                    keep.set(x, both);
                    proof {
                        lemma_selected_step(self.snippets@[x as int], keywords@, tags@, q as int);
                    }
                    x += 1;
                }
            } else {
                proof {
                    assert forall|y: int| 0 <= y < n implies keep@[y] == selected(self.snippets@[y], keywords@.take(q + 1), tags@) by {
                        lemma_selected_step(self.snippets@[y], keywords@, tags@, q as int);
                    }
                }
            }
            q += 1;
        }
        proof {
            assert(keywords@.take(q as int) =~= keywords@);
        }
        let mut result: Vec<usize> = Vec::new();
        let mut x: usize = 0;
        while x < n
            invariant
                n == self.snippets@.len(),
                x <= n,
                keep@.len() == n,
                forall|y: int| 0 <= y < n ==> keep@[y] == selected(self.snippets@[y], keywords@, tags@),
                forall|a: int, b: int| 0 <= a < b < result@.len() ==> result@[a] < result@[b],
                forall|a: int| 0 <= a < result@.len() ==> result@[a] < x,
                forall|y: usize| result@.contains(y) <==> (y < x && selected(self.snippets@[y as int], keywords@, tags@)),
            decreases n - x,
        {
            let ghost before = result@;
            if keep[x] {
                result.push(x);
            }
            proof {
                assert forall|y: usize| result@.contains(y) <==> (y < x + 1 && selected(self.snippets@[y as int], keywords@, tags@)) by {
                    lemma_seq_contains_after_push(before, x, y);
                }
            }
            x += 1;
        }
        result
    }

    /// The snippet at position `index`.
    pub fn snippet(&self, index: usize) -> (r: &Snippet)
        requires
            index < self.snippet_list().len(),
        ensures
            *r == self.snippet_list()[index as int],
    {
        &self.snippets[index]
    }

    /// The positions of all snippets.
    pub fn snippets(&self) -> (r: std::ops::Range<usize>)
        ensures
            r.start == 0,
            r.end == self.snippet_list().len(),
    {
        0..self.snippets.len()
    }

    /// The tags of the snippets, each once, ordered by lower-cased name.
    pub fn tags(&self) -> (r: &Vec<Tag>)
        ensures
            r@ == self.tag_list(),
            is_tag_collection(self.snippet_list(), r@),
    {
        proof {
            use_type_invariant(self);
        }
        &self.tags
    }
}

/// Reordering the snippet files keeps every link resolvable.
proof fn lemma_links_still_resolve(original: Seq<raw::Snippet>, sorted: Seq<raw::Snippet>)
    requires
        links_resolve(original),
        sorted.to_multiset() == original.to_multiset(),
    ensures
        links_resolve(sorted),
{
    lemma_same_entries(original, sorted);
    assert forall|i: int, k: int| 0 <= i < sorted.len() && 0 <= k < sorted[i].links@.len() implies last_with_id(identifier_column(sorted), (#[trigger] sorted[i].links@[k])@) >= 0 by {
        assert(original.contains(sorted[i]));
        let a = choose|a: int| 0 <= a < original.len() && original[a] == sorted[i];
        let link = sorted[i].links@[k]@;
        assert(original[a].links@[k] == sorted[i].links@[k]);
        let ids = identifier_column(original);
        lemma_last_with_id_range(ids, link);
        let b = last_with_id(ids, link);
        assert(carries_id(original[b].identifier, link));
        assert(sorted.contains(original[b]));
        let c = choose|c: int| 0 <= c < sorted.len() && sorted[c] == original[b];
        assert(identifier_column(sorted)[c] == sorted[c].identifier);
        lemma_last_with_id_found(identifier_column(sorted), link, c);
    }
}

/// Some list among the first `c` of `ps` holds `x`.
pub open spec fn seen_in(ps: Seq<Seq<usize>>, c: int, x: usize) -> bool {
    exists|t: int| 0 <= t < c && ps[t].contains(x)
}

proof fn lemma_seen_step(ps: Seq<Seq<usize>>, c: int, x: usize)
    requires
        0 <= c < ps.len(),
    ensures
        seen_in(ps, c + 1, x) == (seen_in(ps, c, x) || ps[c].contains(x)),
{
    if seen_in(ps, c + 1, x) && !ps[c].contains(x) {
        let t = choose|t: int| 0 <= t < c + 1 && ps[t].contains(x);
        assert(t < c);
    }
}

/// Checking one more keyword narrows the search by exactly that keyword.
proof fn lemma_selected_step(s: Snippet, keywords: Seq<String>, tags: Seq<String>, q: int)
    requires
        0 <= q < keywords.len(),
    ensures
        selected(s, keywords.take(q + 1), tags) == (selected(s, keywords.take(q), tags) && (
        keywords[q]@.len() > 0 ==> keyword_matches(s, keywords[q]@))),
{
    let a = keywords.take(q);
    let b = keywords.take(q + 1);
    assert(b[q] == keywords[q]);
    if selected(s, b, tags) {
        assert forall|p: int| 0 <= p < a.len() && a[p]@.len() > 0 implies keyword_matches(s, #[trigger] a[p]@) by {
            assert(a[p] == b[p]);
        }
    }
    if selected(s, a, tags) && (keywords[q]@.len() > 0 ==> keyword_matches(s, keywords[q]@)) {
        assert forall|p: int| 0 <= p < b.len() && b[p]@.len() > 0 implies keyword_matches(s, #[trigger] b[p]@) by {
            if p < q {
                assert(a[p] == b[p]);
            }
        }
    }
}

/// Each tag of the snippets, once, ordered by lower-cased name.
fn collect_tags(snippets: &Vec<Snippet>) -> (r: Vec<Tag>)
    ensures
        is_tag_collection(snippets@, r@),
{
    let mut distinct: Vec<Tag> = Vec::new();
    let mut i: usize = 0;
    while i < snippets.len()
        invariant
            i <= snippets@.len(),
            forall|a: int, b: int| 0 <= a < i && 0 <= b < snippets@[a].tags@.len() ==> tag_listed(distinct@, #[trigger] snippets@[a].tags@[b]),
            forall|k: int| 0 <= k < distinct@.len() ==> tag_used(snippets@, #[trigger] distinct@[k]),
            forall|a: int, b: int| 0 <= a < b < distinct@.len() ==> !same_tag(#[trigger] distinct@[a], #[trigger] distinct@[b]),
        decreases snippets@.len() - i,
    {
        let tags = &snippets[i].tags;
        let mut j: usize = 0;
        while j < tags.len()
            invariant
                i < snippets@.len(),
                *tags == snippets@[i as int].tags,
                j <= tags@.len(),
                forall|a: int, b: int| 0 <= a < i && 0 <= b < snippets@[a].tags@.len() ==> tag_listed(distinct@, #[trigger] snippets@[a].tags@[b]),
                forall|b: int| 0 <= b < j ==> tag_listed(distinct@, #[trigger] tags@[b]),
                forall|k: int| 0 <= k < distinct@.len() ==> tag_used(snippets@, #[trigger] distinct@[k]),
                forall|a: int, b: int| 0 <= a < b < distinct@.len() ==> !same_tag(#[trigger] distinct@[a], #[trigger] distinct@[b]),
            decreases tags@.len() - j,
        {
            let tag = &tags[j];
            let mut seen = false;
            let mut k: usize = 0;
            while k < distinct.len()
                invariant
                    k <= distinct@.len(),
                    seen <==> exists|c: int| 0 <= c < k && same_tag(#[trigger] distinct@[c], *tag),
                decreases distinct@.len() - k,
            {
                if distinct[k].category == tag.category && distinct[k].name == tag.name {
                    seen = true;
                }
                k += 1;
            }
            let ghost before = distinct@;
            if !seen {
                distinct.push(tag.copied());
                proof {
                    assert(same_tag(distinct@[before.len() as int], *tag));
                    assert(tag_listed(snippets@[i as int].tags@, *tag)) by {
                        assert(same_tag(snippets@[i as int].tags@[j as int], *tag));
                    }
                    assert(tag_used(snippets@, *tag));
                    assert forall|a: int, b: int| 0 <= a < i && 0 <= b < snippets@[a].tags@.len() implies tag_listed(distinct@, #[trigger] snippets@[a].tags@[b]) by {
                        let c = choose|c: int| 0 <= c < before.len() && same_tag(#[trigger] before[c], snippets@[a].tags@[b]);
                        assert(distinct@[c] == before[c]);
                    }
                    assert forall|b: int| 0 <= b < j implies tag_listed(distinct@, #[trigger] tags@[b]) by {
                        let c = choose|c: int| 0 <= c < before.len() && same_tag(#[trigger] before[c], tags@[b]);
                        assert(distinct@[c] == before[c]);
                    }
                    assert(tag_listed(distinct@, tags@[j as int])) by {
                        assert(same_tag(distinct@[before.len() as int], tags@[j as int]));
                    }
                }
            }
            j += 1;
        }
        i += 1;
    }
    let result = sort_tags(distinct);
    proof {
        assert forall|a: int, b: int| 0 <= a < snippets@.len() && 0 <= b < snippets@[a].tags@.len() implies tag_listed(result@, #[trigger] snippets@[a].tags@[b]) by {
            let t = snippets@[a].tags@[b];
            let c = choose|c: int| 0 <= c < distinct@.len() && same_tag(#[trigger] distinct@[c], t);
            assert(tag_listed(result@, distinct@[c]));
            let k = choose|k: int| 0 <= k < result@.len() && same_tag(#[trigger] result@[k], distinct@[c]);
            assert(same_tag(result@[k], t));
        }
        assert forall|k: int| 0 <= k < result@.len() implies tag_used(snippets@, #[trigger] result@[k]) by {
            assert(tag_listed(distinct@, result@[k]));
            let c = choose|c: int| 0 <= c < distinct@.len() && same_tag(#[trigger] distinct@[c], result@[k]);
            assert(tag_used(snippets@, distinct@[c]));
            let i = choose|i: int| 0 <= i < snippets@.len() && tag_listed(#[trigger] snippets@[i].tags@, distinct@[c]);
            let j = choose|j: int| 0 <= j < snippets@[i].tags@.len() && same_tag(#[trigger] snippets@[i].tags@[j], distinct@[c]);
            assert(same_tag(snippets@[i].tags@[j], result@[k]));
            assert(tag_listed(snippets@[i].tags@, result@[k]));
        }
    }
    result
}

/// The tags of `distinct`, ordered by lower-cased name.
pub fn sort_tags(distinct: Vec<Tag>) -> (r: Vec<Tag>)
    requires
        forall|a: int, b: int| 0 <= a < b < distinct@.len() ==> !same_tag(#[trigger] distinct@[a], #[trigger] distinct@[b]),
    ensures
        r@.len() == distinct@.len(),
        forall|k: int| 0 <= k < r@.len() ==> tag_listed(distinct@, #[trigger] r@[k]),
        forall|c: int| 0 <= c < distinct@.len() ==> tag_listed(r@, #[trigger] distinct@[c]),
        forall|a: int, b: int| 0 <= a < b < r@.len() ==> !same_tag(#[trigger] r@[a], #[trigger] r@[b]),
        forall|a: int, b: int| 0 <= a < b < r@.len() ==> !lex_lt(tag_key(#[trigger] r@[b]), tag_key(#[trigger] r@[a])),
{
    let mut keyed: Vec<(Vec<u8>, Tag)> = Vec::new();
    let mut d: usize = 0;
    while d < distinct.len()
        invariant
            d <= distinct@.len(),
            keyed@.len() == d,
            forall|k: int| 0 <= k < d ==> (#[trigger] keyed@[k]).1 == distinct@[k] && keyed@[k].0@ == tag_key(distinct@[k]),
        decreases distinct@.len() - d,
    {
        let lowered = to_lowercase(distinct[d].name.as_str());
        let key = vstd::slice::slice_to_vec(lowered.as_str().as_bytes());
        keyed.push((key, distinct[d].copied()));
        d += 1;
    }
    let sorted = sort_by_key_bytes(keyed);
    let mut result: Vec<Tag> = Vec::new();
    let mut e: usize = 0;
    while e < sorted.len()
        invariant
            e <= sorted@.len(),
            result@.len() == e,
            forall|k: int| 0 <= k < e ==> #[trigger] result@[k] == sorted@[k].1,
        decreases sorted@.len() - e,
    {
        result.push(sorted[e].1.copied());
        e += 1;
    }
    proof {
        lemma_sorted_tags(distinct@, keyed@, sorted@, result@);
    }
    result
}

/// Two sequences with the same multiset hold the same entries, and the one has duplicates
/// exactly when the other has.
proof fn lemma_same_entries<A>(keyed: Seq<A>, sorted: Seq<A>)
    requires
        sorted.to_multiset() == keyed.to_multiset(),
    ensures
        forall|k: int| 0 <= k < sorted.len() ==> keyed.contains(#[trigger] sorted[k]),
        forall|c: int| 0 <= c < keyed.len() ==> sorted.contains(#[trigger] keyed[c]),
        keyed.no_duplicates() ==> sorted.no_duplicates(),
{
    assert forall|k: int| 0 <= k < sorted.len() implies keyed.contains(#[trigger] sorted[k]) by {
        to_multiset_contains(sorted, sorted[k]);
        to_multiset_contains(keyed, sorted[k]);
    }
    assert forall|c: int| 0 <= c < keyed.len() implies sorted.contains(#[trigger] keyed[c]) by {
        to_multiset_contains(keyed, keyed[c]);
        to_multiset_contains(sorted, keyed[c]);
    }
    if keyed.no_duplicates() {
        keyed.lemma_multiset_has_no_duplicates();
        sorted.lemma_multiset_has_no_duplicates_conv();
    }
}

/// Sorting keyed tags keeps the same tags.
proof fn lemma_sorted_tags(
    distinct: Seq<Tag>,
    keyed: Seq<(Vec<u8>, Tag)>,
    sorted: Seq<(Vec<u8>, Tag)>,
    result: Seq<Tag>,
)
    requires
        forall|a: int, b: int| 0 <= a < b < distinct.len() ==> !same_tag(#[trigger] distinct[a], #[trigger] distinct[b]),
        keyed.len() == distinct.len(),
        forall|k: int| 0 <= k < keyed.len() ==> (#[trigger] keyed[k]).1 == distinct[k] && keyed[k].0@ == tag_key(distinct[k]),
        keys_sorted(sorted),
        sorted.to_multiset() == keyed.to_multiset(),
        result.len() == sorted.len(),
        forall|k: int| 0 <= k < result.len() ==> #[trigger] result[k] == sorted[k].1,
    ensures
        result.len() == distinct.len(),
        forall|k: int| 0 <= k < result.len() ==> tag_listed(distinct, #[trigger] result[k]),
        forall|c: int| 0 <= c < distinct.len() ==> tag_listed(result, #[trigger] distinct[c]),
        forall|a: int, b: int| 0 <= a < b < result.len() ==> !same_tag(#[trigger] result[a], #[trigger] result[b]),
        forall|a: int, b: int| 0 <= a < b < result.len() ==> !lex_lt(tag_key(#[trigger] result[b]), tag_key(#[trigger] result[a])),
{
    lemma_same_entries(keyed, sorted);
    assert(keyed.no_duplicates()) by {
        assert forall|a: int, b: int| 0 <= a < keyed.len() && 0 <= b < keyed.len() && a != b implies keyed[a] != keyed[b] by {
            assert(keyed[a].1 == distinct[a]);
            assert(keyed[b].1 == distinct[b]);
            if a < b {
                assert(!same_tag(distinct[a], distinct[b]));
            } else {
                assert(!same_tag(distinct[b], distinct[a]));
            }
        }
    }
    assert(sorted.to_multiset().len() == keyed.to_multiset().len());
    vstd::seq_lib::to_multiset_len(sorted);
    vstd::seq_lib::to_multiset_len(keyed);
    assert forall|k: int| 0 <= k < result.len() implies tag_listed(distinct, #[trigger] result[k]) by {
        assert(keyed.contains(sorted[k]));
        let c = choose|c: int| 0 <= c < keyed.len() && keyed[c] == sorted[k];
        assert(keyed[c].1 == distinct[c]);
        assert(same_tag(distinct[c], result[k]));
    }
    assert forall|c: int| 0 <= c < distinct.len() implies tag_listed(result, #[trigger] distinct[c]) by {
        assert(keyed[c].1 == distinct[c]);
        assert(sorted.contains(keyed[c]));
        let k = choose|k: int| 0 <= k < sorted.len() && sorted[k] == keyed[c];
        assert(same_tag(result[k], distinct[c]));
    }
    assert(sorted.no_duplicates());
    assert forall|a: int, b: int| 0 <= a < b < result.len() implies !same_tag(#[trigger] result[a], #[trigger] result[b]) by {
        assert(keyed.contains(sorted[a]));
        let ca = choose|c: int| 0 <= c < keyed.len() && keyed[c] == sorted[a];
        assert(keyed.contains(sorted[b]));
        let cb = choose|c: int| 0 <= c < keyed.len() && keyed[c] == sorted[b];
        assert(sorted[a] != sorted[b]);
        assert(ca != cb);
        assert(keyed[ca].1 == distinct[ca]);
        assert(keyed[cb].1 == distinct[cb]);
        if ca < cb {
            assert(!same_tag(distinct[ca], distinct[cb]));
        } else {
            assert(!same_tag(distinct[cb], distinct[ca]));
        }
    }
    assert forall|a: int, b: int| 0 <= a < b < result.len() implies !lex_lt(tag_key(#[trigger] result[b]), tag_key(#[trigger] result[a])) by {
        assert(keyed.contains(sorted[a]));
        let ca = choose|c: int| 0 <= c < keyed.len() && keyed[c] == sorted[a];
        assert(keyed.contains(sorted[b]));
        let cb = choose|c: int| 0 <= c < keyed.len() && keyed[c] == sorted[b];
        assert(keyed[ca].0@ == tag_key(distinct[ca]));
        assert(keyed[cb].0@ == tag_key(distinct[cb]));
        assert(!lex_lt(sorted[b].byte_key(), sorted[a].byte_key()));
    }
}

} // verus!
