//! The archive: all snippet files of a collection, checked for consistency.
use vstd::prelude::*;
use vstd::seq_lib::lemma_seq_contains_after_push;
use crate::snippets::snippets::raw;
use crate::snippets::snippets::{carries_id, last_with_id, lemma_last_with_id_found};

verus! {

/// Why a collection of snippet files is rejected.
#[derive(Debug, Clone, PartialEq, Eq)]
pub enum ArchiveError {
    /// Two snippets give one tag name different categories.
    InconsistentTagCategory { tag: String, category: String, path: String, other_category: String, other_path: String },
    /// Two snippets have the same identifier.
    DuplicateIdentifier { identifier: String, path: String, other_path: String },
    /// A snippet links to an identifier that no snippet has.
    InvalidLink { path: String, link: String },
}

/// A tag occurrence: the path of the snippet, the category and the name.
pub type Occurrence = (Seq<char>, Seq<char>, Seq<char>);

/// The tag occurrences of one snippet, in order.
pub open spec fn occurrences_of(s: raw::Snippet) -> Seq<Occurrence> {
    s.tags@.map_values(|t: raw::Tag| (s.path@, t.category@, t.name@))
}

/// The tag occurrences of all snippets, in order.
pub open spec fn occurrences(snippets: Seq<raw::Snippet>) -> Seq<Occurrence>
    decreases snippets.len(),
{
    if snippets.len() == 0 {
        Seq::empty()
    } else {
        occurrences(snippets.drop_last()) + occurrences_of(snippets.last())
    }
}

/// `r` is `s` with the tags of the directories `dirs` appended.
pub open spec fn tagged(r: raw::Snippet, s: raw::Snippet, dirs: Seq<Vec<raw::Tag>>) -> bool {
    &&& r.identifier == s.identifier
    &&& r.links == s.links
    &&& r.description == s.description
    &&& r.parts == s.parts
    &&& r.keywords == s.keywords
    &&& r.path == s.path
    &&& r.tags@ == s.tags@ + flatten_tags(dirs)
}

/// Each snippet of `s` is the found one with its directories' tags.
pub open spec fn tagged_all(s: Seq<raw::Snippet>, found: Seq<(raw::Snippet, Vec<Vec<raw::Tag>>)>) -> bool {
    &&& s.len() == found.len()
    &&& forall|i: int| 0 <= i < s.len() ==> tagged(#[trigger] s[i], found[i].0, found[i].1@)
}

/// The checks of [`Archive::verify`] pass.
pub open spec fn checks_pass(s: Seq<raw::Snippet>) -> bool {
    categories_consistent(occurrences(s)) && identifiers_unique(s) && links_valid(identifiers(s), s)
}

/// Every tag name comes with a single category.
pub open spec fn categories_consistent(o: Seq<Occurrence>) -> bool {
    forall|p: int, q: int| 0 <= p < o.len() && 0 <= q < o.len() && o[p].2 == o[q].2 ==> #[trigger] o[p].1 == #[trigger] o[q].1
}

/// `x` stands in `o` at some position before which its tag name does not occur.
pub open spec fn first_of_name(o: Seq<Occurrence>, x: Occurrence) -> bool {
    exists|p: int| 0 <= p < o.len() && o[p] == x && forall|r: int| 0 <= r < p ==> #[trigger] o[r].2 != x.2
}

/// The first occurrence that contradicts an earlier one is `(other_path, other_category, tag)`,
/// and the first occurrence of `tag` is `(path, category, tag)`.
pub open spec fn first_conflict(
    o: Seq<Occurrence>,
    tag: Seq<char>,
    category: Seq<char>,
    path: Seq<char>,
    other_category: Seq<char>,
    other_path: Seq<char>,
) -> bool {
    &&& category != other_category
    &&& exists|q: int|
        0 <= q < o.len() && #[trigger] o[q] == (other_path, other_category, tag) && categories_consistent(o.take(q))
            && first_of_name(o.take(q), (path, category, tag))
}

/// No two snippets have the same identifier.
pub open spec fn identifiers_unique(snippets: Seq<raw::Snippet>) -> bool {
    forall|a: int, b: int| 0 <= a < b < snippets.len() && snippets[a].identifier is Some ==> !carries_id(#[trigger] snippets[b].identifier, (#[trigger] snippets[a].identifier)->0@)
}

/// The snippet at `b` is the first to repeat an identifier, `identifier`, which the snippet at
/// some `a < b` has: their paths are `path` and `other_path`.
pub open spec fn first_duplicate(snippets: Seq<raw::Snippet>, identifier: Seq<char>, path: Seq<char>, other_path: Seq<char>) -> bool {
    exists|a: int, b: int|
        0 <= a < b < snippets.len() && carries_id(#[trigger] snippets[a].identifier, identifier) && carries_id(
            #[trigger] snippets[b].identifier,
            identifier,
        ) && snippets[a].path@ == path && snippets[b].path@ == other_path && identifiers_unique(snippets.take(b))
}

/// `link`, a link of the snippet with path `path`, is the first link, in snippet order and then
/// link order, that is not among `valid`.
pub open spec fn first_invalid_link(valid: Seq<Seq<char>>, snippets: Seq<raw::Snippet>, path: Seq<char>, link: Seq<char>) -> bool {
    exists|i: int, k: int|
        0 <= i < snippets.len() && 0 <= k < snippets[i].links@.len() && #[trigger] snippets[i].links@[k]@ == link
            && snippets[i].path@ == path && !valid.contains(link) && (forall|a: int, c: int|
            0 <= a < i && 0 <= c < snippets[a].links@.len() ==> valid.contains(#[trigger] snippets[a].links@[c]@))
            && (forall|c: int| 0 <= c < k ==> valid.contains(#[trigger] snippets[i].links@[c]@))
}

/// The identifiers of the snippets that have one, in order.
pub open spec fn identifiers(snippets: Seq<raw::Snippet>) -> Seq<Seq<char>>
    decreases snippets.len(),
{
    if snippets.len() == 0 {
        Seq::empty()
    } else {
        let before = identifiers(snippets.drop_last());
        match snippets.last().identifier {
            Some(id) => before.push(id@),
            None => before,
        }
    }
}

/// Every link of every snippet is among `valid`.
pub open spec fn links_valid(valid: Seq<Seq<char>>, snippets: Seq<raw::Snippet>) -> bool {
    forall|i: int, k: int| 0 <= i < snippets.len() && 0 <= k < snippets[i].links@.len() ==> valid.contains(#[trigger] snippets[i].links@[k]@)
}

/// The identifiers of the snippets, one per snippet, `None` where it has none.
pub open spec fn identifier_column(snippets: Seq<raw::Snippet>) -> Seq<Option<String>> {
    snippets.map_values(|s: raw::Snippet| s.identifier)
}

/// Every link of every snippet names the identifier of some snippet.
pub open spec fn links_resolve(snippets: Seq<raw::Snippet>) -> bool {
    forall|i: int, k: int| 0 <= i < snippets.len() && 0 <= k < snippets[i].links@.len() ==> last_with_id(identifier_column(snippets), (#[trigger] snippets[i].links@[k])@) >= 0
}

/// Whether some snippet of `identifiers` carries `id`.
fn finds_identifier(id: &String, identifiers: &Vec<Option<String>>) -> (r: bool)
    ensures
        r == (last_with_id(identifiers@, id@) >= 0),
{
    proof {
        assert(identifiers@.take(identifiers@.len() as int) =~= identifiers@);
    }
    let mut i: usize = identifiers.len();
    while i > 0
        invariant
            i <= identifiers@.len(),
            last_with_id(identifiers@, id@) == last_with_id(identifiers@.take(i as int), id@),
        decreases i,
    {
        proof {
            assert(identifiers@.take(i as int).drop_last() =~= identifiers@.take(i - 1));
        }
        match &identifiers[i - 1] {
            Some(s) => {
                if *s == *id {
                    proof {
                        lemma_last_with_id_found(identifiers@, id@, i - 1);
                    }
                    return true;
                }
            },
            None => {},
        }
        i -= 1;
    }
    false
}

/// Whether every link of every snippet names the identifier of some snippet.
pub fn all_links_resolve(snippets: &Vec<raw::Snippet>) -> (r: bool)
    ensures
        r == links_resolve(snippets@),
{
    let mut identifiers: Vec<Option<String>> = Vec::new();
    let mut i: usize = 0;
    while i < snippets.len()
        invariant
            i <= snippets@.len(),
            identifiers@ == identifier_column(snippets@).take(i as int),
        decreases snippets@.len() - i,
    {
        let id = match &snippets[i].identifier {
            Some(s) => Some(s.clone()),
            None => None,
        };
        identifiers.push(id);
        proof {
            assert(identifiers@ =~= identifier_column(snippets@).take(i + 1));
        }
        i += 1;
    }
    proof {
        assert(identifiers@ =~= identifier_column(snippets@));
    }
    let mut i: usize = 0;
    while i < snippets.len()
        invariant
            i <= snippets@.len(),
            identifiers@ == identifier_column(snippets@),
            forall|a: int, k: int| 0 <= a < i && 0 <= k < snippets@[a].links@.len() ==> last_with_id(
                identifiers@,
                (#[trigger] snippets@[a].links@[k])@,
            ) >= 0,
        decreases snippets@.len() - i,
    {
        let links = &snippets[i].links;
        let mut k: usize = 0;
        while k < links.len()
            invariant
                i < snippets@.len(),
                links == &snippets@[i as int].links,
                identifiers@ == identifier_column(snippets@),
                k <= links@.len(),
                forall|a: int, q: int| 0 <= a < i && 0 <= q < snippets@[a].links@.len() ==> last_with_id(
                    identifiers@,
                    (#[trigger] snippets@[a].links@[q])@,
                ) >= 0,
                forall|q: int| 0 <= q < k ==> last_with_id(identifiers@, (#[trigger] links@[q])@) >= 0,
            decreases links@.len() - k,
        {
            if !finds_identifier(&links[k], &identifiers) {
                return false;
            }
            k += 1;
        }
        i += 1;
    }
    true
}

/// The snippet files of a collection.
#[derive(Debug)]
pub struct Archive {
    pub raw_snippets: Vec<raw::Snippet>,
}

proof fn lemma_occurrences_step(snippets: Seq<raw::Snippet>, i: int, j: int)
    requires
        0 <= i < snippets.len(),
        0 <= j < snippets[i].tags@.len(),
    ensures
        occurrences(snippets.take(i)) + occurrences_of(snippets[i]).take(j + 1) == (occurrences(snippets.take(i)) + occurrences_of(snippets[i]).take(j)).push(
            (snippets[i].path@, snippets[i].tags@[j].category@, snippets[i].tags@[j].name@),
        ),
{
    let o = occurrences_of(snippets[i]);
    assert(o.take(j + 1) =~= o.take(j).push(o[j]));
    assert(occurrences(snippets.take(i)) + o.take(j + 1) =~= (occurrences(snippets.take(i)) + o.take(j)).push(o[j]));
}

proof fn lemma_occurrences_next(snippets: Seq<raw::Snippet>, i: int)
    requires
        0 <= i < snippets.len(),
    ensures
        occurrences(snippets.take(i + 1)) == occurrences(snippets.take(i)) + occurrences_of(snippets[i]).take(
            snippets[i].tags@.len() as int,
        ),
{
    assert(snippets.take(i + 1).drop_last() =~= snippets.take(i));
    assert(occurrences_of(snippets[i]).take(snippets[i].tags@.len() as int) =~= occurrences_of(snippets[i]));
}

/// Two tagged versions of the same snippet files pass and fail the checks alike.
proof fn lemma_tagged_alike(s1: Seq<raw::Snippet>, s2: Seq<raw::Snippet>, found: Seq<(raw::Snippet, Vec<Vec<raw::Tag>>)>)
    requires
        tagged_all(s1, found),
        tagged_all(s2, found),
    ensures
        occurrences(s1) == occurrences(s2),
        identifiers(s1) == identifiers(s2),
        identifiers_unique(s1) == identifiers_unique(s2),
        links_valid(identifiers(s1), s1) == links_valid(identifiers(s2), s2),
        checks_pass(s1) == checks_pass(s2),
    decreases s1.len(),
{
    if s1.len() > 0 {
        let n = s1.len() - 1;
        assert(tagged_all(s1.drop_last(), found.drop_last())) by {
            assert forall|i: int| 0 <= i < s1.drop_last().len() implies tagged(#[trigger] s1.drop_last()[i], found.drop_last()[i].0, found.drop_last()[i].1@) by {
                assert(tagged(s1[i], found[i].0, found[i].1@));
            }
        }
        assert(tagged_all(s2.drop_last(), found.drop_last())) by {
            assert forall|i: int| 0 <= i < s2.drop_last().len() implies tagged(#[trigger] s2.drop_last()[i], found.drop_last()[i].0, found.drop_last()[i].1@) by {
                assert(tagged(s2[i], found[i].0, found[i].1@));
            }
        }
        lemma_tagged_alike(s1.drop_last(), s2.drop_last(), found.drop_last());
        assert(tagged(s1[n], found[n].0, found[n].1@));
        assert(tagged(s2[n], found[n].0, found[n].1@));
        assert(occurrences_of(s1.last()) =~= occurrences_of(s2.last()));
    }
    assert forall|i: int| 0 <= i < s1.len() implies (#[trigger] s1[i]).identifier == s2[i].identifier && s1[i].links == s2[i].links by {
        assert(tagged(s1[i], found[i].0, found[i].1@));
        assert(tagged(s2[i], found[i].0, found[i].1@));
    }
    if identifiers_unique(s1) {
        lemma_unique_alike(s1, s2);
    }
    if identifiers_unique(s2) {
        lemma_unique_alike(s2, s1);
    }
    if links_valid(identifiers(s1), s1) {
        lemma_links_alike(s1, s2, identifiers(s1));
    }
    if links_valid(identifiers(s2), s2) {
        lemma_links_alike(s2, s1, identifiers(s2));
    }
}

/// Snippets with the same identifiers are alike in having no identifier twice.
proof fn lemma_unique_alike(s1: Seq<raw::Snippet>, s2: Seq<raw::Snippet>)
    requires
        s1.len() == s2.len(),
        forall|i: int| 0 <= i < s1.len() ==> (#[trigger] s1[i]).identifier == s2[i].identifier,
        identifiers_unique(s1),
    ensures
        identifiers_unique(s2),
{
    assert forall|a: int, b: int| 0 <= a < b < s2.len() && s2[a].identifier is Some implies !carries_id(
        #[trigger] s2[b].identifier,
        (#[trigger] s2[a].identifier)->0@,
    ) by {
        assert(s1[a].identifier == s2[a].identifier);
        assert(s1[b].identifier == s2[b].identifier);
    }
}

/// Snippets with the same links are alike in linking only to `valid` identifiers.
proof fn lemma_links_alike(s1: Seq<raw::Snippet>, s2: Seq<raw::Snippet>, valid: Seq<Seq<char>>)
    requires
        s1.len() == s2.len(),
        forall|i: int| 0 <= i < s1.len() ==> (#[trigger] s1[i]).links == s2[i].links,
        links_valid(valid, s1),
    ensures
        links_valid(valid, s2),
{
    assert forall|i: int, k: int| 0 <= i < s2.len() && 0 <= k < s2[i].links@.len() implies valid.contains(
        #[trigger] s2[i].links@[k]@,
    ) by {
        assert(s1[i].links == s2[i].links);
        assert(s1[i].links@[k] == s2[i].links@[k]);
    }
}

impl Archive {
    /// The archive of the given snippet files.
    pub fn new(raw_snippets: Vec<raw::Snippet>) -> (r: Archive)
        ensures
            r.raw_snippets == raw_snippets,
    {
        Archive { raw_snippets }
    }

    /// Adds to each snippet the tags of the directories that hold it, innermost first, and
    /// checks the result (see [`Archive::verify`]).
    pub fn load_snippet_files(found: Vec<(raw::Snippet, Vec<Vec<raw::Tag>>)>) -> (r: Result<Archive, ArchiveError>)
        ensures
            match r {
                Ok(a) => tagged_all(a.raw_snippets@, found@) && checks_pass(a.raw_snippets@),
                Err(_) => exists|s: Seq<raw::Snippet>| #[trigger] tagged_all(s, found@) && !checks_pass(s),
            },
            forall|s: Seq<raw::Snippet>|
                #[trigger] tagged_all(s, found@) ==> {
                    &&& (r is Ok <==> checks_pass(s))
                    &&& (r matches Err(ArchiveError::InconsistentTagCategory { .. }) <==> !categories_consistent(
                        occurrences(s),
                    ))
                    &&& (r matches Err(ArchiveError::DuplicateIdentifier { .. }) <==> (categories_consistent(
                        occurrences(s),
                    ) && !identifiers_unique(s)))
                },
    {
        let ghost all = found@;
        let mut rest = found;
        let mut done: Vec<raw::Snippet> = Vec::new();
        while rest.len() > 0
            invariant
                rest@.len() + done@.len() == all.len(),
                rest@ == all.take(rest@.len() as int),
                forall|k: int| 0 <= k < done@.len() ==> tagged(#[trigger] done@[k], all[rest@.len() + k].0, all[rest@.len() + k].1@),
            decreases rest@.len(),
        {
            let ghost before = rest@;
            let (snippet, directories) = rest.pop().unwrap();
            proof {
                assert(before[before.len() - 1] == (snippet, directories));
                assert(rest@ =~= all.take(rest@.len() as int));
            }
            let ghost old_done = done@;
            let marked = add_directory_tags(snippet, &directories);
            done.insert(0, marked);
            proof {
                assert forall|k: int| 0 <= k < done@.len() implies tagged(#[trigger] done@[k], all[rest@.len() + k].0, all[rest@.len() + k].1@) by {
                    if k > 0 {
                        assert(done@[k] == old_done[k - 1]);
                    }
                }
            }
        }
        proof {
            assert(tagged_all(done@, all));
        }
        let ghost tagged_files = done@;
        let checked = Archive::verify(&done);
        proof {
            assert forall|s: Seq<raw::Snippet>| #[trigger] tagged_all(s, all) implies checks_pass(s) == checks_pass(tagged_files)
                && occurrences(s) == occurrences(tagged_files) && identifiers_unique(s) == identifiers_unique(tagged_files) by {
                lemma_tagged_alike(s, tagged_files, all);
            }
        }
        match checked {
            Ok(()) => Ok(Archive { raw_snippets: done }),
            Err(e) => Err(e),
        }
    }

    /// Checks the snippets: each tag name has one category, no identifier occurs twice, and
    /// every link names an identifier. The first failing check gives the error.
    pub fn verify(raw_snippets: &Vec<raw::Snippet>) -> (r: Result<(), ArchiveError>)
        ensures
            r is Ok <==> (categories_consistent(occurrences(raw_snippets@)) && identifiers_unique(raw_snippets@) && links_valid(
                identifiers(raw_snippets@),
                raw_snippets@,
            )),
            r matches Err(ArchiveError::InconsistentTagCategory { .. }) <==> !categories_consistent(occurrences(raw_snippets@)),
            r matches Err(ArchiveError::DuplicateIdentifier { .. }) <==> (categories_consistent(occurrences(raw_snippets@))
                && !identifiers_unique(raw_snippets@)),
            r matches Err(ArchiveError::InconsistentTagCategory { tag, category, path, other_category, other_path })
                ==> first_conflict(occurrences(raw_snippets@), tag@, category@, path@, other_category@, other_path@),
            r matches Err(ArchiveError::DuplicateIdentifier { identifier, path, other_path }) ==> first_duplicate(
                raw_snippets@,
                identifier@,
                path@,
                other_path@,
            ),
            r matches Err(ArchiveError::InvalidLink { path, link }) ==> first_invalid_link(
                identifiers(raw_snippets@),
                raw_snippets@,
                path@,
                link@,
            ),
    {
        match Archive::verify_tag_categorization(raw_snippets) {
            Ok(()) => {},
            Err(e) => {
                return Err(e);
            },
        }
        let identifiers = match Archive::collect_identifiers(raw_snippets) {
            Ok(ids) => ids,
            Err(e) => {
                return Err(e);
            },
        };
        Archive::verify_link_existence(&identifiers, raw_snippets)
    }

    /// Checks that no tag name is given two categories.
    pub fn verify_tag_categorization(snippets: &Vec<raw::Snippet>) -> (r: Result<(), ArchiveError>)
        ensures
            r is Ok <==> categories_consistent(occurrences(snippets@)),
            match r {
                Ok(()) => true,
                Err(ArchiveError::InconsistentTagCategory { tag, category, path, other_category, other_path }) => first_conflict(
                    occurrences(snippets@),
                    tag@,
                    category@,
                    path@,
                    other_category@,
                    other_path@,
                ),
                Err(_) => false,
            },
    {
        // the first occurrence of each tag name: (name, category, path)
        let mut table: Vec<(String, String, String)> = Vec::new();
        let ghost all = occurrences(snippets@);
        let mut i: usize = 0;
        proof {
            assert(snippets@.take(0) =~= Seq::<raw::Snippet>::empty());
            assert(occurrences(snippets@.take(0)) =~= Seq::<Occurrence>::empty());
        }
        while i < snippets.len()
            invariant
                i <= snippets@.len(),
                all == occurrences(snippets@),
                table_ok(table@, occurrences(snippets@.take(i as int))),
            decreases snippets@.len() - i,
        {
            let tags = &snippets[i].tags;
            let ghost prefix = occurrences(snippets@.take(i as int));
            let mut j: usize = 0;
            proof {
                assert(prefix + occurrences_of(snippets@[i as int]).take(0) =~= prefix);
            }
            while j < tags.len()
                invariant
                    i < snippets@.len(),
                    *tags == snippets@[i as int].tags,
                    j <= tags@.len(),
                    all == occurrences(snippets@),
                    prefix == occurrences(snippets@.take(i as int)),
                    table_ok(table@, prefix + occurrences_of(snippets@[i as int]).take(j as int)),
                decreases tags@.len() - j,
            {
                let ghost seen = prefix + occurrences_of(snippets@[i as int]).take(j as int);
                let ghost x = (snippets@[i as int].path@, tags@[j as int].category@, tags@[j as int].name@);
                proof {
                    lemma_occurrences_step(snippets@, i as int, j as int);
                }
                let mut k: usize = 0;
                let mut hit: Option<usize> = None;
                while k < table.len()
                    invariant
                        j < tags@.len(),
                        k <= table@.len(),
                        match hit {
                            Some(h) => h < table@.len() && table@[h as int].0@ == tags@[j as int].name@,
                            None => forall|c: int| 0 <= c < k ==> (#[trigger] table@[c]).0@ != tags@[j as int].name@,
                        },
                    decreases table@.len() - k,
                {
                    if hit.is_none() && table[k].0 == tags[j].name {
                        hit = Some(k);
                    }
                    k += 1;
                }
                match hit {
                    Some(h) => {
                        if table[h].1 != tags[j].category {
                            proof {
                                lemma_conflict(snippets@, i as int, j as int, table@, h as int);
                            }
                            return Err(ArchiveError::InconsistentTagCategory {
                                tag: tags[j].name.clone(),
                                category: table[h].1.clone(),
                                path: table[h].2.clone(),
                                other_category: tags[j].category.clone(),
                                other_path: snippets[i].path.clone(),
                            });
                        }
                        proof {
                            lemma_table_hit(seen, x, table@, h as int);
                        }
                    },
                    None => {
                        let ghost old_table = table@;
                        table.push((tags[j].name.clone(), tags[j].category.clone(), snippets[i].path.clone()));
                        proof {
                            lemma_table_miss(seen, x, old_table, table@);
                        }
                    },
                }
                j += 1;
            }
            proof {
                lemma_occurrences_next(snippets@, i as int);
            }
            i += 1;
        }
        proof {
            assert(snippets@.take(i as int) =~= snippets@);
        }
        Ok(())
    }

    /// The identifiers of the snippets, in order; an error if two snippets share one.
    pub fn collect_identifiers(snippets: &Vec<raw::Snippet>) -> (r: Result<Vec<String>, ArchiveError>)
        ensures
            r is Ok <==> identifiers_unique(snippets@),
            match r {
                Ok(ids) => ids@.map_values(|s: String| s@) == identifiers(snippets@),
                Err(ArchiveError::DuplicateIdentifier { identifier, path, other_path }) => first_duplicate(
                    snippets@,
                    identifier@,
                    path@,
                    other_path@,
                ),
                Err(_) => false,
            },
    {
        let mut ids: Vec<String> = Vec::new();
        let mut owners: Vec<usize> = Vec::new();
        let mut i: usize = 0;
        while i < snippets.len()
            invariant
                i <= snippets@.len(),
                identifiers_unique(snippets@.take(i as int)),
                ids@.map_values(|s: String| s@) == identifiers(snippets@.take(i as int)),
                owners@.len() == ids@.len(),
                forall|c: int| 0 <= c < owners@.len() ==> (#[trigger] owners@[c]) < i && carries_id(snippets@[owners@[c] as int].identifier, ids@[c]@),
                forall|a: int| 0 <= a < i && snippets@[a].identifier is Some ==> exists|c: int| 0 <= c < ids@.len() && #[trigger] ids@[c]@ == (#[trigger] snippets@[a].identifier)->0@,
            decreases snippets@.len() - i,
        {
            proof {
                assert(snippets@.take(i + 1).drop_last() =~= snippets@.take(i as int));
            }
            match &snippets[i].identifier {
                None => {
                    proof {
                        assert forall|a: int, b: int| 0 <= a < b < snippets@.take(i + 1).len() && snippets@.take(i + 1)[a].identifier is Some implies !carries_id(#[trigger] snippets@.take(i + 1)[b].identifier, (#[trigger] snippets@.take(i + 1)[a].identifier)->0@) by {
                            assert(snippets@.take(i + 1)[a] == snippets@.take(i as int)[a]);
                            if b < i {
                                assert(snippets@.take(i + 1)[b] == snippets@.take(i as int)[b]);
                            }
                        }
                    }
                },
                Some(id) => {
                    let mut c: usize = 0;
                    while c < ids.len()
                        invariant
                            i < snippets@.len(),
                            identifiers_unique(snippets@.take(i as int)),
                            carries_id(snippets@[i as int].identifier, id@),
                            owners@.len() == ids@.len(),
                            forall|d: int| 0 <= d < owners@.len() ==> (#[trigger] owners@[d]) < i && carries_id(snippets@[owners@[d] as int].identifier, ids@[d]@),
                            c <= ids@.len(),
                            forall|d: int| 0 <= d < c ==> (#[trigger] ids@[d])@ != id@,
                        decreases ids@.len() - c,
                    {
                        if ids[c] == *id {
                            let a = owners[c];
                            proof {
                                assert(owners@[c as int] < i);
                                assert(carries_id(snippets@[a as int].identifier, id@));
                                assert(snippets@[a as int].identifier is Some);
                                assert(!identifiers_unique(snippets@)) by {
                                    assert(carries_id(snippets@[i as int].identifier, (snippets@[a as int].identifier)->0@));
                                }
                                assert(identifiers_unique(snippets@.take(i as int)));
                                assert(carries_id(snippets@[a as int].identifier, id@) && carries_id(snippets@[i as int].identifier, id@)
                                    && identifiers_unique(snippets@.take(i as int)));
                            }
                            return Err(ArchiveError::DuplicateIdentifier {
                                identifier: id.clone(),
                                path: snippets[a].path.clone(),
                                other_path: snippets[i].path.clone(),
                            });
                        }
                        c += 1;
                    }
                    let ghost old_ids = ids@;
                    ids.push(id.clone());
                    owners.push(i);
                    proof {
                        assert(ids@.map_values(|s: String| s@) =~= old_ids.map_values(|s: String| s@).push(id@));
                        assert forall|a: int, b: int| 0 <= a < b < snippets@.take(i + 1).len() && snippets@.take(i + 1)[a].identifier is Some implies !carries_id(#[trigger] snippets@.take(i + 1)[b].identifier, (#[trigger] snippets@.take(i + 1)[a].identifier)->0@) by {
                            assert(snippets@.take(i + 1)[a] == snippets@[a]);
                            assert(snippets@.take(i + 1)[b] == snippets@[b]);
                            if b < i {
                                assert(snippets@.take(i as int)[a] == snippets@[a]);
                                assert(snippets@.take(i as int)[b] == snippets@[b]);
                            } else {
                                let d = choose|d: int| 0 <= d < old_ids.len() && #[trigger] old_ids[d]@ == (#[trigger] snippets@[a].identifier)->0@;
                            }
                        }
                        assert forall|a: int| 0 <= a < i + 1 && snippets@[a].identifier is Some implies exists|d: int| 0 <= d < ids@.len() && #[trigger] ids@[d]@ == (#[trigger] snippets@[a].identifier)->0@ by {
                            if a < i {
                                let d = choose|d: int| 0 <= d < old_ids.len() && #[trigger] old_ids[d]@ == (#[trigger] snippets@[a].identifier)->0@;
                                assert(ids@[d] == old_ids[d]);
                            } else {
                                assert(ids@[old_ids.len() as int]@ == id@);
                            }
                        }
                    }
                },
            }
            i += 1;
        }
        proof {
            assert(snippets@.take(i as int) =~= snippets@);
        }
        Ok(ids)
    }

    /// Checks that every link names one of `valid_identifiers`.
    pub fn verify_link_existence(valid_identifiers: &Vec<String>, snippets: &Vec<raw::Snippet>) -> (r: Result<(), ArchiveError>)
        ensures
            r is Ok <==> links_valid(valid_identifiers@.map_values(|s: String| s@), snippets@),
            match r {
                Ok(()) => true,
                Err(ArchiveError::InvalidLink { path, link }) => first_invalid_link(
                    valid_identifiers@.map_values(|s: String| s@),
                    snippets@,
                    path@,
                    link@,
                ),
                Err(_) => false,
            },
    {
        let ghost valid = valid_identifiers@.map_values(|s: String| s@);
        let mut i: usize = 0;
        while i < snippets.len()
            invariant
                i <= snippets@.len(),
                valid == valid_identifiers@.map_values(|s: String| s@),
                forall|a: int, k: int| 0 <= a < i && 0 <= k < snippets@[a].links@.len() ==> valid.contains(#[trigger] snippets@[a].links@[k]@),
            decreases snippets@.len() - i,
        {
            let links = &snippets[i].links;
            let mut k: usize = 0;
            while k < links.len()
                invariant
                    i < snippets@.len(),
                    *links == snippets@[i as int].links,
                    k <= links@.len(),
                    valid == valid_identifiers@.map_values(|s: String| s@),
                    forall|a: int, c: int| 0 <= a < i && 0 <= c < snippets@[a].links@.len() ==> valid.contains(#[trigger] snippets@[a].links@[c]@),
                    forall|c: int| 0 <= c < k ==> valid.contains(#[trigger] links@[c]@),
                decreases links@.len() - k,
            {
                let mut found = false;
                let mut v: usize = 0;
                proof {
                    assert(valid.take(0) =~= Seq::<Seq<char>>::empty());
                }
                while v < valid_identifiers.len()
                    invariant
                        v <= valid_identifiers@.len(),
                        valid == valid_identifiers@.map_values(|s: String| s@),
                        k < links@.len(),
                        found <==> valid.take(v as int).contains(links@[k as int]@),
                    decreases valid_identifiers@.len() - v,
                {
                    proof {
                        assert(valid.take(v + 1) =~= valid.take(v as int).push(valid[v as int]));
                        lemma_seq_contains_after_push(valid.take(v as int), valid[v as int], links@[k as int]@);
                    }
                    if valid_identifiers[v] == links[k] {
                        found = true;
                    }
                    v += 1;
                }
                proof {
                    assert(valid.take(v as int) =~= valid);
                }
                if !found {
                    proof {
                        assert(snippets@[i as int].links@[k as int]@ == links@[k as int]@);
                        assert(forall|c: int| 0 <= c < k ==> valid.contains(#[trigger] snippets@[i as int].links@[c]@));
                    }
                    return Err(ArchiveError::InvalidLink { path: snippets[i].path.clone(), link: links[k].clone() });
                }
                k += 1;
            }
            i += 1;
        }
        Ok(())
    }
}

/// The occurrence recorded for a table entry (name, category, path).
pub open spec fn entry_occurrence(t: (String, String, String)) -> Occurrence {
    (t.2@, t.1@, t.0@)
}

/// Some entry of the table has the name `name`.
pub open spec fn name_known(table: Seq<(String, String, String)>, name: Seq<char>) -> bool {
    exists|k: int| 0 <= k < table.len() && table[k].0@ == name
}

/// The table holds the first occurrence of each name among `seen`, which is consistent.
pub open spec fn table_ok(table: Seq<(String, String, String)>, seen: Seq<Occurrence>) -> bool {
    &&& categories_consistent(seen)
    &&& forall|k: int| 0 <= k < table.len() ==> first_of_name(seen, entry_occurrence(#[trigger] table[k]))
    &&& forall|p: int| 0 <= p < seen.len() ==> name_known(table, (#[trigger] seen[p]).2)
}

proof fn lemma_table_hit(seen: Seq<Occurrence>, x: Occurrence, table: Seq<(String, String, String)>, h: int)
    requires
        table_ok(table, seen),
        0 <= h < table.len(),
        table[h].0@ == x.2,
        table[h].1@ == x.1,
    ensures
        table_ok(table, seen.push(x)),
{
    let s2 = seen.push(x);
    assert(first_of_name(seen, entry_occurrence(table[h])));
    let q = choose|q: int| 0 <= q < seen.len() && seen[q] == entry_occurrence(table[h]) && forall|r: int| 0 <= r < q ==> #[trigger] seen[r].2 != entry_occurrence(table[h]).2;
    assert forall|p: int, r: int| 0 <= p < s2.len() && 0 <= r < s2.len() && s2[p].2 == s2[r].2 implies #[trigger] s2[p].1 == #[trigger] s2[r].1 by {
        if p < seen.len() {
            assert(seen[p] == s2[p]);
        }
        if r < seen.len() {
            assert(seen[r] == s2[r]);
        }
        if p < seen.len() && r >= seen.len() {
            assert(seen[q].1 == seen[p].1);
        }
        if r < seen.len() && p >= seen.len() {
            assert(seen[q].1 == seen[r].1);
        }
    }
    assert forall|k: int| 0 <= k < table.len() implies first_of_name(s2, entry_occurrence(#[trigger] table[k])) by {
        lemma_first_of_name_push(seen, x, entry_occurrence(table[k]));
    }
    assert forall|p: int| 0 <= p < s2.len() implies name_known(table, (#[trigger] s2[p]).2) by {
        if p < seen.len() {
            assert(seen[p] == s2[p]);
        } else {
            assert(table[h].0@ == s2[p].2);
        }
    }
}

proof fn lemma_table_miss(
    seen: Seq<Occurrence>,
    x: Occurrence,
    old_table: Seq<(String, String, String)>,
    table: Seq<(String, String, String)>,
)
    requires
        table_ok(old_table, seen),
        forall|c: int| 0 <= c < old_table.len() ==> (#[trigger] old_table[c]).0@ != x.2,
        table.len() == old_table.len() + 1,
        forall|c: int| 0 <= c < old_table.len() ==> table[c] == old_table[c],
        entry_occurrence(table[old_table.len() as int]) == x,
    ensures
        table_ok(table, seen.push(x)),
{
    let s2 = seen.push(x);
    assert forall|p: int, r: int| 0 <= p < s2.len() && 0 <= r < s2.len() && s2[p].2 == s2[r].2 implies #[trigger] s2[p].1 == #[trigger] s2[r].1 by {
        if p < seen.len() {
            assert(seen[p] == s2[p]);
        }
        if r < seen.len() {
            assert(seen[r] == s2[r]);
        }
        if p < seen.len() && r >= seen.len() {
            assert(name_known(old_table, seen[p].2));
        }
        if r < seen.len() && p >= seen.len() {
            assert(name_known(old_table, seen[r].2));
        }
    }
    assert forall|k: int| 0 <= k < table.len() implies first_of_name(s2, entry_occurrence(#[trigger] table[k])) by {
        if k < old_table.len() {
            assert(table[k] == old_table[k]);
            lemma_first_of_name_push(seen, x, entry_occurrence(old_table[k]));
        } else {
            let p = seen.len() as int;
            assert(s2[p] == x);
            assert forall|r: int| 0 <= r < p implies #[trigger] s2[r].2 != x.2 by {
                assert(s2[r] == seen[r]);
                assert(name_known(old_table, seen[r].2));
            }
        }
    }
    assert forall|p: int| 0 <= p < s2.len() implies name_known(table, (#[trigger] s2[p]).2) by {
        if p < seen.len() {
            assert(seen[p] == s2[p]);
            assert(name_known(old_table, seen[p].2));
            let c = choose|c: int| 0 <= c < old_table.len() && old_table[c].0@ == seen[p].2;
            assert(table[c] == old_table[c]);
        } else {
            assert(table[old_table.len() as int].0@ == s2[p].2);
        }
    }
}

/// A table entry whose category differs from the current tag's shows that the categories of
/// all occurrences are inconsistent.
proof fn lemma_conflict(snippets: Seq<raw::Snippet>, i: int, j: int, table: Seq<(String, String, String)>, h: int)
    requires
        0 <= i < snippets.len(),
        0 <= j < snippets[i].tags@.len(),
        table_ok(table, occurrences(snippets.take(i)) + occurrences_of(snippets[i]).take(j)),
        0 <= h < table.len(),
        table[h].0@ == snippets[i].tags@[j].name@,
        table[h].1@ != snippets[i].tags@[j].category@,
    ensures
        !categories_consistent(occurrences(snippets)),
        first_conflict(
            occurrences(snippets),
            table[h].0@,
            table[h].1@,
            table[h].2@,
            snippets[i].tags@[j].category@,
            snippets[i].path@,
        ),
{
    let seen = occurrences(snippets.take(i)) + occurrences_of(snippets[i]).take(j);
    let x = (snippets[i].path@, snippets[i].tags@[j].category@, snippets[i].tags@[j].name@);
    let all = occurrences(snippets);
    lemma_occurrences_step(snippets, i, j);
    lemma_occurrences_prefix_of_all(snippets, i, j + 1);
    let s2 = seen.push(x);
    let n = seen.len() as int;
    assert(s2[n] == x);
    assert(all[n] == x);
    assert(all.take(n) =~= seen) by {
        assert forall|p: int| 0 <= p < n implies #[trigger] all.take(n)[p] == seen[p] by {
            assert(all[p] == s2[p]);
            assert(s2[p] == seen[p]);
        }
    }
    assert(first_of_name(seen, entry_occurrence(table[h])));
    let q = choose|q: int| 0 <= q < seen.len() && seen[q] == entry_occurrence(table[h]) && forall|r: int| 0 <= r < q ==> #[trigger] seen[r].2 != entry_occurrence(table[h]).2;
    assert(s2[q] == seen[q]);
    assert(all[q] == s2[q]);
    assert(all[q].2 == all[n].2);
    assert(all[q].1 != all[n].1);
}

/// Appending an occurrence keeps every first occurrence of a name where it was.
proof fn lemma_first_of_name_push(seen: Seq<Occurrence>, x: Occurrence, e: Occurrence)
    requires
        first_of_name(seen, e),
    ensures
        first_of_name(seen.push(x), e),
{
    let s2 = seen.push(x);
    let p = choose|p: int| 0 <= p < seen.len() && seen[p] == e && forall|r: int| 0 <= r < p ==> #[trigger] seen[r].2 != e.2;
    assert(s2[p] == seen[p]);
    assert forall|r: int| 0 <= r < p implies #[trigger] s2[r].2 != e.2 by {
        assert(s2[r] == seen[r]);
    }
}

/// The occurrences read so far are the start of all occurrences.
proof fn lemma_occurrences_prefix_of_all(snippets: Seq<raw::Snippet>, i: int, j: int)
    requires
        0 <= i < snippets.len(),
        0 <= j <= snippets[i].tags@.len(),
    ensures
        forall|p: int| 0 <= p < (occurrences(snippets.take(i)) + occurrences_of(snippets[i]).take(j)).len() ==> #[trigger] occurrences(snippets)[p] == (occurrences(snippets.take(i)) + occurrences_of(snippets[i]).take(j))[p],
        (occurrences(snippets.take(i)) + occurrences_of(snippets[i]).take(j)).len() <= occurrences(snippets).len(),
{
    lemma_occurrences_next(snippets, i);
    lemma_occurrences_prefix(snippets, i + 1);
    let a = occurrences(snippets.take(i)) + occurrences_of(snippets[i]).take(j);
    let b = occurrences(snippets.take(i + 1));
    assert forall|p: int| 0 <= p < a.len() implies b[p] == a[p] by {
        if p >= occurrences(snippets.take(i)).len() {
            let o = occurrences_of(snippets[i]);
            assert(o.take(j)[p - occurrences(snippets.take(i)).len()] == o.take(o.len() as int)[p - occurrences(snippets.take(i)).len()]);
        }
    }
}

/// The occurrences of the first `n` snippets are the start of all occurrences.
proof fn lemma_occurrences_prefix(snippets: Seq<raw::Snippet>, n: int)
    requires
        0 <= n <= snippets.len(),
    ensures
        occurrences(snippets.take(n)).len() <= occurrences(snippets).len(),
        forall|p: int| 0 <= p < occurrences(snippets.take(n)).len() ==> #[trigger] occurrences(snippets)[p] == occurrences(snippets.take(n))[p],
    decreases snippets.len() - n,
{
    if n < snippets.len() {
        lemma_occurrences_prefix(snippets, n + 1);
        assert(snippets.take(n + 1).drop_last() =~= snippets.take(n));
    } else {
        assert(snippets.take(n) =~= snippets);
    }
}

/// The tag lists one after the other.
pub open spec fn flatten_tags(lists: Seq<Vec<raw::Tag>>) -> Seq<raw::Tag>
    decreases lists.len(),
{
    if lists.len() == 0 {
        Seq::empty()
    } else {
        flatten_tags(lists.drop_last()) + lists.last()@
    }
}

/// Appends to a snippet's tags the tags of the directories that hold it, innermost first.
pub fn add_directory_tags(snippet: raw::Snippet, directories: &Vec<Vec<raw::Tag>>) -> (r: raw::Snippet)
    ensures
        tagged(r, snippet, directories@),
{
    let ghost original = snippet;
    let mut snippet = snippet;
    let mut d: usize = 0;
    while d < directories.len()
        invariant
            d <= directories@.len(),
            tagged(snippet, original, directories@.take(d as int)),
        decreases directories@.len() - d,
    {
        let list = &directories[d];
        let mut t: usize = 0;
        let ghost base = snippet.tags@;
        while t < list.len()
            invariant
                t <= list@.len(),
                *list == directories@[d as int],
                d < directories@.len(),
                tagged(snippet, original, directories@.take(d as int)) || t > 0,
                snippet.identifier == original.identifier,
                snippet.links == original.links,
                snippet.description == original.description,
                snippet.parts == original.parts,
                snippet.keywords == original.keywords,
                snippet.path == original.path,
                base == original.tags@ + flatten_tags(directories@.take(d as int)),
                snippet.tags@ == base + list@.take(t as int),
            decreases list@.len() - t,
        {
            snippet.tags.push(raw::Tag { category: list[t].category.clone(), name: list[t].name.clone() });
            proof {
                assert(snippet.tags@ =~= base + list@.take(t + 1));
            }
            t += 1;
        }
        proof {
            assert(directories@.take(d + 1).drop_last() =~= directories@.take(d as int));
            assert(list@.take(t as int) =~= list@);
            assert(snippet.tags@ =~= original.tags@ + flatten_tags(directories@.take(d + 1)));
        }
        d += 1;
    }
    proof {
        assert(directories@.take(d as int) =~= directories@);
    }
    snippet
}

/// The tags given by category, as (category, name) pairs in order.
pub open spec fn category_tags(entries: Seq<(String, Vec<String>)>) -> Seq<(Seq<char>, Seq<char>)>
    decreases entries.len(),
{
    if entries.len() == 0 {
        Seq::empty()
    } else {
        let last = entries.last();
        category_tags(entries.drop_last()) + last.1@.map_values(|n: String| (last.0@, n@))
    }
}

/// The tags of a tag list, as (category, name) pairs.
pub open spec fn tag_pairs(tags: Seq<raw::Tag>) -> Seq<(Seq<char>, Seq<char>)> {
    tags.map_values(|t: raw::Tag| (t.category@, t.name@))
}

/// The tags of a directory, given by category: one tag per name, in order.
pub fn directory_tags(tags: &Option<Vec<(String, Vec<String>)>>) -> (r: Vec<raw::Tag>)
    ensures
        tag_pairs(r@) == match tags {
            None => Seq::empty(),
            Some(entries) => category_tags(entries@),
        },
{
    let mut result: Vec<raw::Tag> = Vec::new();
    match tags {
        None => {
            proof {
                assert(tag_pairs(result@) =~= Seq::<(Seq<char>, Seq<char>)>::empty());
            }
        },
        Some(entries) => {
            let mut e: usize = 0;
            proof {
                assert(tag_pairs(result@) =~= category_tags(entries@.take(0)));
            }
            while e < entries.len()
                invariant
                    e <= entries@.len(),
                    tag_pairs(result@) == category_tags(entries@.take(e as int)),
                decreases entries@.len() - e,
            {
                let names = &entries[e].1;
                let ghost base = tag_pairs(result@);
                let mut n: usize = 0;
                while n < names.len()
                    invariant
                        e < entries@.len(),
                        *names == entries@[e as int].1,
                        n <= names@.len(),
                        tag_pairs(result@) == base + names@.take(n as int).map_values(|x: String| (entries@[e as int].0@, x@)),
                    decreases names@.len() - n,
                {
                    let ghost old = result@;
                    result.push(raw::Tag { category: entries[e].0.clone(), name: names[n].clone() });
                    proof {
                        let f = |x: String| (entries@[e as int].0@, x@);
                        assert(tag_pairs(result@) =~= tag_pairs(old).push((entries@[e as int].0@, names@[n as int]@)));
                        assert(names@.take(n + 1).map_values(f) =~= names@.take(n as int).map_values(f).push(f(names@[n as int])));
                        assert(tag_pairs(result@) =~= base + names@.take(n + 1).map_values(f));
                    }
                    n += 1;
                }
                proof {
                    assert(entries@.take(e + 1).drop_last() =~= entries@.take(e as int));
                    assert(names@.take(n as int) =~= names@);
                }
                e += 1;
            }
            proof {
                assert(entries@.take(e as int) =~= entries@);
            }
        },
    }
    result
}

} // verus!
