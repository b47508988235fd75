//! Euler tours of trees.
use vstd::prelude::*;

verus! {

/// A tree, given by its root and the children of each node.
///
/// Every child must have a smaller rank than its parent; this is what makes the tree finite.
pub trait Tree {
    type Node;

    /// The root, if the tree is not empty.
    spec fn root_spec(&self) -> Option<Self::Node>;

    /// The children of a node, in order.
    spec fn children_spec(&self, node: Self::Node) -> Seq<Self::Node>;

    /// A measure that decreases from a node to each of its children.
    spec fn rank(&self, node: Self::Node) -> nat;

    fn root(&self) -> (r: Option<&Self::Node>)
        ensures
            match r {
                Some(n) => self.root_spec() == Some(*n),
                None => self.root_spec() is None,
            },
    ;

    fn children<'a>(&'a self, node: &'a Self::Node) -> (r: Vec<&'a Self::Node>)
        ensures
            r@.map_values(|c: &Self::Node| *c) == self.children_spec(*node),
            forall|i: int| 0 <= i < r@.len() ==> self.rank(*r@[i]) < self.rank(*node),
    ;
}

/// The Euler tour from `node`: the node, then for each child the child's tour followed by the
/// node again.
pub open spec fn tour<T: Tree>(tree: &T, node: T::Node) -> Seq<T::Node>
    decreases tree.rank(node), 1nat, 0nat,
{
    seq![node] + tour_rest(tree, node, tree.children_spec(node))
}

/// The part of the tour of `node` that visits the children `cs`.
pub open spec fn tour_rest<T: Tree>(tree: &T, node: T::Node, cs: Seq<T::Node>) -> Seq<T::Node>
    decreases tree.rank(node), 0nat, cs.len(),
{
    if cs.len() == 0 {
        Seq::empty()
    } else if tree.rank(cs.last()) < tree.rank(node) {
        tour_rest(tree, node, cs.drop_last()) + tour(tree, cs.last()) + seq![node]
    } else {
        tour_rest(tree, node, cs.drop_last()) + seq![node]
    }
}

/// A tree of integer nodes given by a table from each parent to its children.
///
/// Parents are linked before their children, which keeps the table free of cycles.
#[derive(Debug)]
pub struct LinkedTree {
    root: i32,
    links: Vec<(i32, Vec<i32>)>,
}

/// The position of `node`'s entry in the table, or -1 if it has none.
pub open spec fn entry_of(links: Seq<(i32, Vec<i32>)>, node: i32) -> int
    decreases links.len(),
{
    if links.len() == 0 {
        -1
    } else if links.last().0 == node {
        links.len() - 1
    } else {
        entry_of(links.drop_last(), node)
    }
}

proof fn lemma_entry_of(links: Seq<(i32, Vec<i32>)>, node: i32)
    ensures
        -1 <= entry_of(links, node) < links.len(),
        entry_of(links, node) >= 0 ==> links[entry_of(links, node)].0 == node,
        forall|i: int| 0 <= i < links.len() && links[i].0 == node ==> i <= entry_of(links, node),
    decreases links.len(),
{
    if links.len() > 0 {
        lemma_entry_of(links.drop_last(), node);
        assert forall|i: int| 0 <= i < links.len() && links[i].0 == node implies i <= entry_of(links, node) by {
            if i < links.len() - 1 {
                assert(links.drop_last()[i] == links[i]);
            }
        }
    }
}

/// The position of the last entry for `node` in a table of parents and children, or -1 if
/// there is none.
pub open spec fn entry_in(table: Seq<(i32, Seq<i32>)>, node: i32) -> int
    decreases table.len(),
{
    if table.len() == 0 {
        -1
    } else if table.last().0 == node {
        table.len() - 1
    } else {
        entry_in(table.drop_last(), node)
    }
}

/// The children that a table gives `node`: those of its entry, none if it has no entry.
pub open spec fn table_children(table: Seq<(i32, Seq<i32>)>, node: i32) -> Seq<i32> {
    let e = entry_in(table, node);
    if e >= 0 {
        table[e].1
    } else {
        Seq::empty()
    }
}

proof fn lemma_entry_in(links: Seq<(i32, Vec<i32>)>, node: i32)
    ensures
        entry_in(links.map_values(|l: (i32, Vec<i32>)| (l.0, l.1@)), node) == entry_of(links, node),
    decreases links.len(),
{
    if links.len() > 0 {
        lemma_entry_in(links.drop_last(), node);
        assert(links.map_values(|l: (i32, Vec<i32>)| (l.0, l.1@)).drop_last() =~= links.drop_last().map_values(
            |l: (i32, Vec<i32>)| (l.0, l.1@),
        ));
    }
}

impl LinkedTree {
    /// Every child either has no entry or has one after its parent's.
    #[verifier::type_invariant]
    spec fn wf(&self) -> bool {
        forall|p: int, c: int| 0 <= p < self.links@.len() && 0 <= c < self.links@[p].1@.len() ==> {
            let e = entry_of(self.links@, #[trigger] self.links@[p].1@[c]);
            e == -1 || e > p
        }
    }

    /// The nodes that have an entry, with their children.
    pub closed spec fn table(&self) -> Seq<(i32, Seq<i32>)> {
        self.links@.map_values(|l: (i32, Vec<i32>)| (l.0, l.1@))
    }

    /// The node has been given children.
    pub closed spec fn is_linked(&self, node: i32) -> bool {
        entry_of(self.links@, node) >= 0
    }

    /// The root.
    pub closed spec fn root_node(&self) -> i32 {
        self.root
    }

    /// The tree as a [`Tree`]: its root is the root node, the children of a node are those its
    /// table gives it, and a node is linked where the table has an entry for it.
    pub proof fn lemma_shape(&self)
        ensures
            self.root_spec() == Some(self.root_node()),
            forall|node: i32| #[trigger] self.children_spec(node) == table_children(self.table(), node),
            forall|node: i32| #[trigger] self.is_linked(node) == (entry_in(self.table(), node) >= 0),
    {
        assert forall|node: i32| #[trigger] self.children_spec(node) == table_children(self.table(), node) by {
            lemma_entry_in(self.links@, node);
            lemma_entry_of(self.links@, node);
        }
        assert forall|node: i32| #[trigger] self.is_linked(node) == (entry_in(self.table(), node) >= 0) by {
            lemma_entry_in(self.links@, node);
        }
    }

    /// Every child has a lower rank than its parent, so that the tour descends into it.
    pub open spec fn ranked(&self) -> bool {
        forall|node: i32, i: int| 0 <= i < self.children_spec(node).len() ==> #[trigger] self.rank(self.children_spec(node)[i]) < self.rank(node)
    }

    proof fn lemma_ranked(&self)
        requires
            self.wf(),
        ensures
            self.ranked(),
    {
        assert forall|node: i32, i: int| 0 <= i < self.children_spec(node).len() implies #[trigger] self.rank(self.children_spec(node)[i]) < self.rank(node) by {
            lemma_entry_of(self.links@, node);
            let e = entry_of(self.links@, node);
            let c = self.links@[e].1@[i];
            lemma_entry_of(self.links@, c);
        }
    }

    /// A tree with only a root.
    pub fn new(root: i32) -> (r: LinkedTree)
        ensures
            r.root_node() == root,
            r.table() == Seq::<(i32, Seq<i32>)>::empty(),
            r.ranked(),
    {
        let r = LinkedTree { root, links: Vec::new() };
        proof {
            assert(r.table() =~= Seq::<(i32, Seq<i32>)>::empty());
        }
        r
    }

    /// Gives `parent`, which has no children yet, the children `children`, none of which has
    /// children yet.
    pub fn link(&mut self, parent: i32, children: Vec<i32>)
        requires
            !old(self).is_linked(parent),
            forall|c: int| 0 <= c < children@.len() ==> children@[c] != parent && !old(self).is_linked(#[trigger] children@[c]),
        ensures
            final(self).root_node() == old(self).root_node(),
            final(self).table() == old(self).table().push((parent, children@)),
            final(self).ranked(),
    {
        proof {
            use_type_invariant(&*self);
        }
        let ghost before = self.links@;
        let ghost kids = children@;
        proof {
            lemma_entry_of(before, parent);
        }
        let mut links: Vec<(i32, Vec<i32>)> = Vec::new();
        std::mem::swap(&mut links, &mut self.links);
        links.push((parent, children));
        proof {
            let after = links@;
            assert(after.drop_last() =~= before);
            assert forall|n: i32| n != parent implies entry_of(after, n) == entry_of(before, n) by {}
            assert forall|p: int, c: int| 0 <= p < after.len() && 0 <= c < after[p].1@.len() implies {
                let e = entry_of(after, #[trigger] after[p].1@[c]);
                e == -1 || e > p
            } by {
                let n = after[p].1@[c];
                lemma_entry_of(before, n);
                if p < before.len() {
                    assert(after[p] == before[p]);
                    assert(before[p].1@[c] == n);
                    if n == parent {
                        assert(entry_of(after, n) == before.len());
                    } else {
                        assert(entry_of(after, n) == entry_of(before, n));
                    }
                } else {
                    assert(after[p].1@ == kids);
                    assert(kids[c] == n);
                    assert(!old(self).is_linked(kids[c]) && kids[c] != parent);
                    assert(entry_of(after, n) == entry_of(before, n));
                }
            }
        }
        self.links = links;
        proof {
            assert(self.table() =~= old(self).table().push((parent, kids)));
            use_type_invariant(&*self);
            self.lemma_ranked();
        }
    }
}

impl Tree for LinkedTree {
    type Node = i32;

    closed spec fn root_spec(&self) -> Option<i32> {
        Some(self.root_node())
    }

    closed spec fn children_spec(&self, node: i32) -> Seq<i32> {
        let e = entry_of(self.links@, node);
        if e >= 0 {
            self.links@[e].1@
        } else {
            Seq::empty()
        }
    }

    closed spec fn rank(&self, node: i32) -> nat {
        let e = entry_of(self.links@, node);
        if e >= 0 {
            (self.links@.len() - e) as nat
        } else {
            0
        }
    }

    fn root(&self) -> (r: Option<&i32>) {
        Some(&self.root)
    }

    fn children<'a>(&'a self, node: &'a i32) -> (r: Vec<&'a i32>) {
        proof {
            use_type_invariant(self);
            lemma_entry_of(self.links@, *node);
        }
        let mut i: usize = self.links.len();
        let mut found: Option<usize> = None;
        while i > 0
            invariant
                i <= self.links@.len(),
                -1 <= entry_of(self.links@, *node) < self.links@.len(),
                entry_of(self.links@, *node) >= 0 ==> self.links@[entry_of(self.links@, *node)].0 == *node,
                forall|j: int| 0 <= j < self.links@.len() && self.links@[j].0 == *node ==> j <= entry_of(self.links@, *node),
                entry_of(self.links@, *node) < i || found is Some,
                match found {
                    Some(f) => f == entry_of(self.links@, *node),
                    None => forall|j: int| i <= j < self.links@.len() ==> self.links@[j].0 != *node,
                },
            decreases i,
        {
            if found.is_none() && self.links[i - 1].0 == *node {
                found = Some(i - 1);
                proof {
                    lemma_entry_of(self.links@, *node);
                }
            }
            i -= 1;
        }
        let mut r: Vec<&'a i32> = Vec::new();
        match found {
            None => {
                proof {
                    assert(r@.map_values(|c: &i32| *c) =~= Seq::<i32>::empty());
                }
            },
            Some(f) => {
                let list = &self.links[f].1;
                let mut k: usize = 0;
                while k < list.len()
                    invariant
                        f == entry_of(self.links@, *node),
                        0 <= f < self.links@.len(),
                        *list == self.links@[f as int].1,
                        k <= list@.len(),
                        r@.map_values(|c: &i32| *c) == list@.take(k as int),
                    decreases list@.len() - k,
                {
                    let item = &list[k];
                    assert(*item == list@[k as int]);
                    let ghost old_r = r@;
                    r.push(item);
                    proof {
                        assert(r@ == old_r.push(item));
                        assert(r@.map_values(|c: &i32| *c) =~= old_r.map_values(|c: &i32| *c).push(*item));
                        assert(r@.map_values(|c: &i32| *c) =~= list@.take(k + 1));
                    }
                    k += 1;
                }
                proof {
                    assert(list@.take(k as int) =~= list@);
                    assert forall|c: int| 0 <= c < r@.len() implies self.rank(*r@[c]) < self.rank(*node) by {
                        assert(r@.map_values(|x: &i32| *x)[c] == *r@[c]);
                        assert(self.links@[f as int].1@[c] == *r@[c]);
                        lemma_entry_of(self.links@, *r@[c]);
                    }
                }
            },
        }
        r
    }
}

/// The nodes of an Euler tour of the tree: empty for an empty tree.
pub fn euler_traversal<'a, T: Tree>(tree: &'a T) -> (r: Vec<&'a T::Node>)
    ensures
        r@.map_values(|n: &T::Node| *n) == match tree.root_spec() {
            Some(root) => tour(tree, root),
            None => Seq::empty(),
        },
{
    let mut out: Vec<&'a T::Node> = Vec::new();
    match tree.root() {
        Some(root) => {
            euler_traversal_helper(tree, root, &mut out);
            proof {
                assert(out@.map_values(|n: &T::Node| *n) =~= Seq::<T::Node>::empty() + tour(tree, *root));
            }
        },
        None => {
            proof {
                assert(out@.map_values(|n: &T::Node| *n) =~= Seq::<T::Node>::empty());
            }
        },
    }
    out
}

fn euler_traversal_helper<'a, T: Tree>(tree: &'a T, current: &'a T::Node, out: &mut Vec<&'a T::Node>)
    ensures
        final(out)@.map_values(|n: &T::Node| *n) == old(out)@.map_values(|n: &T::Node| *n) + tour(tree, *current),
    decreases tree.rank(*current),
{
    let ghost start = out@.map_values(|n: &T::Node| *n);
    out.push(current);
    let children = tree.children(current);
    let ghost cs = children@.map_values(|c: &T::Node| *c);
    proof {
        assert(out@.map_values(|n: &T::Node| *n) =~= start + seq![*current] + tour_rest(tree, *current, cs.take(0)));
    }
    let mut k: usize = 0;
    while k < children.len()
        invariant
            k <= children@.len(),
            cs == children@.map_values(|c: &T::Node| *c),
            cs == tree.children_spec(*current),
            forall|i: int| 0 <= i < children@.len() ==> tree.rank(*children@[i]) < tree.rank(*current),
            out@.map_values(|n: &T::Node| *n) == start + seq![*current] + tour_rest(tree, *current, cs.take(k as int)),
        decreases children@.len() - k,
    {
        let child = children[k];
        let ghost before = out@.map_values(|n: &T::Node| *n);
        euler_traversal_helper(tree, child, out);
        out.push(current);
        proof {
            assert(cs.take(k + 1).drop_last() =~= cs.take(k as int));
            assert(cs.take(k + 1).last() == *child);
            assert(out@.map_values(|n: &T::Node| *n) =~= before + tour(tree, *child) + seq![*current]);
        }
        k += 1;
    }
    proof {
        assert(cs.take(k as int) =~= cs);
    }
}

} // verus!
