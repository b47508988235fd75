//! Snippets arranged in folders, as the directories of a collection hold them.
use vstd::prelude::*;

verus! {

/// A tree of folders, each holding snippets.
#[derive(Debug)]
pub struct Hierarchy {
    root_folder: Folder,
}

/// A folder: named subfolders, in the order they were made, and snippets.
#[derive(Debug)]
pub struct Folder {
    subfolders: Vec<(String, Folder)>,
    snippets: Vec<usize>,
}

/// The position of the first subfolder named `name`, or -1 if there is none.
pub open spec fn child_index(subs: Seq<(String, Folder)>, name: Seq<char>) -> int
    decreases subs.len(),
{
    if subs.len() == 0 {
        -1
    } else {
        let i = child_index(subs.drop_last(), name);
        if i >= 0 {
            i
        } else if subs.last().0@ == name {
            subs.len() - 1
        } else {
            -1
        }
    }
}

proof fn lemma_child_index(subs: Seq<(String, Folder)>, name: Seq<char>)
    ensures
        -1 <= child_index(subs, name) < subs.len(),
        child_index(subs, name) >= 0 ==> subs[child_index(subs, name)].0@ == name,
        forall|j: int| 0 <= j < subs.len() && subs[j].0@ == name ==> 0 <= child_index(subs, name) <= j,
    decreases subs.len(),
{
    if subs.len() > 0 {
        lemma_child_index(subs.drop_last(), name);
        assert forall|j: int| 0 <= j < subs.len() && subs[j].0@ == name implies 0 <= child_index(subs, name) <= j by {
            if j < subs.len() - 1 {
                assert(subs.drop_last()[j] == subs[j]);
            }
        }
        if child_index(subs.drop_last(), name) >= 0 {
            assert(subs.drop_last()[child_index(subs.drop_last(), name)] == subs[child_index(subs.drop_last(), name)]);
        }
    }
}

/// Changing the folder at position `i` but not the names keeps every lookup by name.
proof fn lemma_child_index_update(subs: Seq<(String, Folder)>, i: int, entry: (String, Folder), name: Seq<char>)
    requires
        0 <= i < subs.len(),
        entry.0@ == subs[i].0@,
    ensures
        child_index(subs.update(i, entry), name) == child_index(subs, name),
{
    let s2 = subs.update(i, entry);
    lemma_child_index(subs, name);
    lemma_child_index(s2, name);
    let a = child_index(subs, name);
    let b = child_index(s2, name);
    if a >= 0 {
        assert(s2[a].0@ == name);
    }
    if b >= 0 {
        assert(subs[b].0@ == name);
    }
}

/// Appending a folder under a new name keeps every other lookup and finds the new one last.
proof fn lemma_child_index_push(subs: Seq<(String, Folder)>, entry: (String, Folder), name: Seq<char>)
    requires
        child_index(subs, entry.0@) == -1,
    ensures
        child_index(subs.push(entry), name) == if name == entry.0@ {
            subs.len() as int
        } else {
            child_index(subs, name)
        },
{
    assert(subs.push(entry).drop_last() =~= subs);
    lemma_child_index(subs, name);
}

/// `p` comes first in `q`, and is shorter.
pub open spec fn strict_prefix(p: Seq<Seq<char>>, q: Seq<Seq<char>>) -> bool {
    p.len() < q.len() && q.take(p.len() as int) == p
}

impl Folder {
    /// The subfolders, with their names, in order.
    pub closed spec fn subfolder_list(self) -> Seq<(String, Folder)> {
        self.subfolders@
    }

    /// The snippets of the folder itself.
    pub closed spec fn snippet_list(self) -> Seq<usize> {
        self.snippets@
    }

    /// The snippets of the folder reached from this one by the names of `path`, if it exists;
    /// where several subfolders share a name, the first counts.
    pub closed spec fn at(self, path: Seq<Seq<char>>) -> Option<Seq<usize>>
        decreases path.len(),
    {
        if path.len() == 0 {
            Some(self.snippets@)
        } else {
            let i = child_index(self.subfolders@, path[0]);
            if i >= 0 {
                self.subfolders@[i].1.at(path.drop_first())
            } else {
                None
            }
        }
    }

    /// Following a path: the empty path gives the folder's own snippets; a longer one goes on
    /// in the first subfolder named by its first name, and reaches nothing where there is none.
    pub proof fn lemma_at(self, path: Seq<Seq<char>>)
        ensures
            self.at(path) == if path.len() == 0 {
                Some(self.snippet_list())
            } else {
                let i = child_index(self.subfolder_list(), path[0]);
                if i >= 0 {
                    self.subfolder_list()[i].1.at(path.drop_first())
                } else {
                    None::<Seq<usize>>
                }
            },
    {
    }

    /// An empty folder.
    pub fn new() -> (r: Folder)
        ensures
            r.subfolder_list() == Seq::<(String, Folder)>::empty(),
            r.snippet_list() == Seq::<usize>::empty(),
    {
        Folder { subfolders: Vec::new(), snippets: Vec::new() }
    }

    /// The subfolder named `name`, made empty first if there is none.
    pub fn descend(&mut self, name: &str) -> (r: &mut Folder)
        ensures
            final(self).snippet_list() == old(self).snippet_list(),
            ({
                let i = child_index(old(self).subfolder_list(), name@);
                if i >= 0 {
                    &&& *r == old(self).subfolder_list()[i].1
                    &&& final(self).subfolder_list() == old(self).subfolder_list().update(
                        i,
                        (old(self).subfolder_list()[i].0, *final(r)),
                    )
                } else {
                    &&& r.subfolder_list() == Seq::<(String, Folder)>::empty()
                    &&& r.snippet_list() == Seq::<usize>::empty()
                    &&& final(self).subfolder_list().len() == old(self).subfolder_list().len() + 1
                    &&& final(self).subfolder_list().drop_last() == old(self).subfolder_list()
                    &&& final(self).subfolder_list().last().0@ == name@
                    &&& final(self).subfolder_list().last().1 == *final(r)
                }
            }),
    {
        proof {
            lemma_child_index(self.subfolders@, name@);
        }
        let wanted = name.to_owned();
        let mut i: usize = 0;
        while i < self.subfolders.len()
            invariant
                i <= self.subfolders@.len(),
                self.subfolders@ == old(self).subfolders@,
                -1 <= child_index(self.subfolders@, name@) < self.subfolders@.len(),
                child_index(self.subfolders@, name@) >= 0 ==> self.subfolders@[child_index(self.subfolders@, name@)].0@ == name@,
                forall|j: int| 0 <= j < self.subfolders@.len() && self.subfolders@[j].0@ == name@ ==> 0 <= child_index(self.subfolders@, name@) <= j,
                forall|j: int| 0 <= j < i ==> self.subfolders@[j].0@ != name@,
                wanted@ == name@,
            ensures
                i <= self.subfolders@.len(),
                i < self.subfolders@.len() ==> self.subfolders@[i as int].0@ == name@,
                forall|j: int| 0 <= j < i ==> self.subfolders@[j].0@ != name@,
                wanted@ == name@,
                self.subfolders@ == old(self).subfolders@,
            decreases self.subfolders@.len() - i,
        {
            if self.subfolders[i].0 == wanted {
                break;
            }
            i += 1;
        }
        if i == self.subfolders.len() {
            proof {
                lemma_child_index(old(self).subfolders@, name@);
            }
            self.subfolders.push((wanted, Folder::new()));
        }
        &mut self.subfolders[i].1
    }

    /// Adds a snippet to the folder itself.
    pub fn add_snippet(&mut self, snippet: usize)
        ensures
            final(self).snippet_list() == old(self).snippet_list().push(snippet),
            final(self).subfolder_list() == old(self).subfolder_list(),
    {
        self.snippets.push(snippet);
    }

    /// The subfolders, with their names, in order.
    pub fn subfolders(&self) -> (r: &Vec<(String, Folder)>)
        ensures
            r@ == self.subfolder_list(),
    {
        &self.subfolders
    }

    /// The greatest height among the subfolders from position `i` on (0 if there is none).
    pub closed spec fn height_from(self, i: int) -> nat
        decreases self, self.subfolder_list().len() - i,
    {
        if 0 <= i < self.subfolders@.len() {
            let here = self.subfolders@[i].1.height();
            let rest = self.height_from(i + 1);
            if here > rest { here } else { rest }
        } else {
            0
        }
    }

    /// The number of levels of folders from this one down: 1 for a folder without subfolders.
    pub closed spec fn height(self) -> nat
        decreases self, self.subfolder_list().len() + 1,
    {
        1 + self.height_from(0)
    }

    /// Every subfolder is lower than its folder.
    pub proof fn lemma_subfolder_lower(self, i: int)
        requires
            0 <= i < self.subfolder_list().len(),
        ensures
            self.subfolder_list()[i].1.height() < self.height(),
    {
        self.lemma_height_from(0, i);
    }

    proof fn lemma_height_from(self, from: int, i: int)
        requires
            0 <= from <= i < self.subfolders@.len(),
        ensures
            self.subfolders@[i].1.height() <= self.height_from(from),
        decreases i - from,
    {
        if from < i {
            self.lemma_height_from(from + 1, i);
        }
    }

    /// The snippets of the folder itself.
    pub fn snippets(&self) -> (r: &Vec<usize>)
        ensures
            r@ == self.snippet_list(),
    {
        &self.snippets
    }
}

/// The snippet list, empty where the folder does not exist.
pub open spec fn or_empty(o: Option<Seq<usize>>) -> Seq<usize> {
    match o {
        Some(s) => s,
        None => Seq::empty(),
    }
}

/// `after` is `before` with `snippet` added to the folder at `path`, the folders on the way
/// made where missing.
pub open spec fn added(before: Folder, after: Folder, path: Seq<Seq<char>>, snippet: usize) -> bool {
    &&& after.at(path) == Some(or_empty(before.at(path)).push(snippet))
    &&& forall|q: Seq<Seq<char>>| #[trigger] strict_prefix(q, path) ==> after.at(q) == Some(or_empty(before.at(q)))
    &&& forall|q: Seq<Seq<char>>| !strict_prefix(q, path) && q != path ==> #[trigger] after.at(q) == before.at(q)
}

/// The names of a path.
pub open spec fn path_view(path: Seq<String>) -> Seq<Seq<char>> {
    path.map_values(|c: String| c@)
}

/// In an empty folder, only the folder itself exists.
proof fn lemma_empty_at(f: Folder, q: Seq<Seq<char>>)
    requires
        f.subfolder_list() == Seq::<(String, Folder)>::empty(),
        f.snippet_list() == Seq::<usize>::empty(),
    ensures
        f.at(q) == if q.len() == 0 {
            Some(Seq::<usize>::empty())
        } else {
            None
        },
{
}

/// Adding at `p` in a child named `name` adds at `name` followed by `p` in the parent.
proof fn lemma_lift(
    old_f: Folder,
    new_f: Folder,
    old_child: Folder,
    new_child: Folder,
    name: Seq<char>,
    p: Seq<Seq<char>>,
    snippet: usize,
)
    requires
        new_f.snippet_list() == old_f.snippet_list(),
        added(old_child, new_child, p, snippet),
        ({
            let i = child_index(old_f.subfolder_list(), name);
            if i >= 0 {
                &&& old_child == old_f.subfolder_list()[i].1
                &&& new_f.subfolder_list() == old_f.subfolder_list().update(i, (old_f.subfolder_list()[i].0, new_child))
            } else {
                &&& old_child.subfolder_list() == Seq::<(String, Folder)>::empty()
                &&& old_child.snippet_list() == Seq::<usize>::empty()
                &&& new_f.subfolder_list().len() == old_f.subfolder_list().len() + 1
                &&& new_f.subfolder_list().drop_last() == old_f.subfolder_list()
                &&& new_f.subfolder_list().last().0@ == name
                &&& new_f.subfolder_list().last().1 == new_child
            }
        }),
    ensures
        added(old_f, new_f, seq![name] + p, snippet),
{
    let full = seq![name] + p;
    let olds = old_f.subfolder_list();
    let news = new_f.subfolder_list();
    let i = child_index(olds, name);
    lemma_child_index(olds, name);
    assert forall|n: Seq<char>| n != name implies child_index(news, n) == child_index(olds, n)
        && (child_index(olds, n) >= 0 ==> news[child_index(olds, n)] == olds[child_index(olds, n)]) by {
        lemma_child_index(olds, n);
        if i >= 0 {
            lemma_child_index_update(olds, i, (olds[i].0, new_child), n);
        } else {
            assert(news =~= olds.push(news.last()));
            lemma_child_index_push(olds, news.last(), n);
        }
    }
    let j = if i >= 0 {
        i
    } else {
        olds.len() as int
    };
    assert(child_index(news, name) == j && news[j].1 == new_child) by {
        if i >= 0 {
            lemma_child_index_update(olds, i, (olds[i].0, new_child), name);
        } else {
            assert(news =~= olds.push(news.last()));
            lemma_child_index_push(olds, news.last(), name);
        }
    }
    // what the parent holds under `name`, expressed through the child
    assert forall|q: Seq<Seq<char>>| q.len() > 0 && q[0] == name implies new_f.at(q) == new_child.at(q.drop_first())
        && old_f.at(q) == (if i >= 0 || q.len() > 1 { old_child.at(q.drop_first()) } else { None }) by {
        if i < 0 && q.len() > 1 {
            lemma_empty_at(old_child, q.drop_first());
        }
    }
    assert(full.drop_first() =~= p);
    assert(full[0] == name);
    // the path itself
    if i < 0 && p.len() == 0 {
        lemma_empty_at(old_child, p);
    }
    assert forall|q: Seq<Seq<char>>| #[trigger] strict_prefix(q, full) implies new_f.at(q) == Some(or_empty(old_f.at(q))) by {
        if q.len() > 0 {
            assert(q[0] == full.take(q.len() as int)[0]);
            assert(strict_prefix(q.drop_first(), p)) by {
                assert(p.take(q.drop_first().len() as int) =~= q.drop_first());
            }
            if i < 0 && q.len() == 1 {
                lemma_empty_at(old_child, q.drop_first());
            }
        }
    }
    assert forall|q: Seq<Seq<char>>| !strict_prefix(q, full) && q != full implies #[trigger] new_f.at(q) == old_f.at(q) by {
        if q.len() > 0 && q[0] == name {
            let r = q.drop_first();
            assert(q =~= seq![name] + r);
            if strict_prefix(r, p) {
                assert(full.take(q.len() as int) =~= q);
            }
            assert(!strict_prefix(r, p) && r != p);
            if i < 0 {
                if r.len() == 0 {
                    assert(strict_prefix(r, p) || r == p) by {
                        if p.len() > 0 {
                            assert(p.take(0) =~= r);
                        } else {
                            assert(p =~= r);
                        }
                    }
                }
                lemma_empty_at(old_child, r);
            }
        } else if q.len() > 0 {
            lemma_child_index(olds, q[0]);
        }
    }
}

impl Hierarchy {
    /// The folders, as seen from the root.
    pub closed spec fn root_view(self) -> Folder {
        self.root_folder
    }

    /// A hierarchy with only an empty root folder.
    pub fn new() -> (r: Hierarchy)
        ensures
            r.root_view().subfolder_list() == Seq::<(String, Folder)>::empty(),
            r.root_view().snippet_list() == Seq::<usize>::empty(),
    {
        Hierarchy { root_folder: Folder::new() }
    }

    /// Adds a snippet to the folder reached by `path`, making the missing folders on the way.
    pub fn add_snippet(&mut self, snippet: usize, path: &Vec<String>)
        ensures
            added(old(self).root_view(), final(self).root_view(), path_view(path@), snippet),
    {
        add_at(&mut self.root_folder, path, 0, snippet);
        proof {
            assert(path_view(path@).skip(0) =~= path_view(path@));
        }
    }

    /// The root folder.
    pub fn root(&self) -> (r: &Folder)
        ensures
            *r == self.root_view(),
    {
        &self.root_folder
    }
}

fn add_at(folder: &mut Folder, path: &Vec<String>, depth: usize, snippet: usize)
    requires
        depth <= path@.len(),
    ensures
        added(*old(folder), *final(folder), path_view(path@).skip(depth as int), snippet),
    decreases path@.len() - depth,
{
    let ghost p = path_view(path@).skip(depth as int);
    if depth == path.len() {
        let ghost before = *folder;
        folder.add_snippet(snippet);
        proof {
            assert(p =~= Seq::<Seq<char>>::empty());
            assert forall|q: Seq<Seq<char>>| !strict_prefix(q, p) && q != p implies #[trigger] folder.at(q) == before.at(q) by {
                if q.len() == 0 {
                    assert(q =~= p);
                }
                assert(folder.subfolder_list() == before.subfolder_list());
            }
        }
    } else {
        let ghost before = *folder;
        let name = path[depth].as_str();
        let child = folder.descend(name);
        let ghost old_child = *child;
        add_at(child, path, depth + 1, snippet);
        proof {
            assert(p =~= seq![path@[depth as int]@] + path_view(path@).skip(depth + 1));
            lemma_lift(before, *folder, old_child, *child, name@, path_view(path@).skip(depth + 1), snippet);
        }
    }
}

} // verus!
