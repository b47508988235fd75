use vstd::prelude::*;
use crate::util::lexicographic::{
    has_prefix, lcp, lemma_branch_lt, lemma_interval, lemma_lcp_at_least, lemma_lcp_min,
    lemma_lcp_props, lemma_lcp_unique, lemma_lt_asym, lemma_nothing_below_empty, lemma_prefix_lt,
    lemma_lt_trans, lemma_sorted_unique, lex_lt,
};
use vstd::string::StringSliceAdditionalSpecFns;

verus! {

/// Marks a child slot that holds no node.
pub const ABSENT: usize = usize::MAX;

struct TrieNode<T> {
    children: Vec<usize>,
    terminals: Vec<T>,
    depth: usize,
}

/// The node structure is a tree of byte strings: node 0 holds the empty string,
/// the child in slot `b` extends its parent's string by the byte `b`,
/// and each node's terminals are those added under its string.
spec fn tree_wf<T>(
    nodes: Seq<TrieNode<T>>,
    paths: Seq<Seq<u8>>,
    parents: Seq<int>,
    keys: Map<Seq<u8>, Seq<T>>,
) -> bool {
    &&& nodes.len() >= 1
    &&& nodes.len() <= usize::MAX
    &&& paths.len() == nodes.len()
    &&& parents.len() == nodes.len()
    &&& paths[0] == Seq::<u8>::empty()
    &&& forall|n: int|
        0 <= n < nodes.len() ==> {
            &&& (#[trigger] nodes[n]).depth == paths[n].len()
            &&& paths[n].len() <= n
            &&& nodes[n].children@.len() <= 256
            &&& nodes[n].terminals@ == if keys.contains_key(paths[n]) {
                keys[paths[n]]
            } else {
                Seq::<T>::empty()
            }
        }
    &&& forall|n: int, b: int|
        #![trigger nodes[n].children@[b]]
        0 <= n < nodes.len() && 0 <= b < nodes[n].children@.len() ==> {
            let c = nodes[n].children@[b];
            c == ABSENT || (n < c < nodes.len() && paths[c as int] == paths[n].push(b as u8))
        }
    &&& forall|n: int, m: int|
        0 <= n < nodes.len() && 0 <= m < nodes.len() && n != m ==> #[trigger] paths[n]
            != #[trigger] paths[m]
    &&& forall|c: int|
        0 < c < nodes.len() ==> {
            let p = #[trigger] parents[c];
            &&& 0 <= p < c
            &&& paths[c].len() > 0
            &&& paths[p] == paths[c].drop_last()
            &&& nodes[p].children@.len() > paths[c].last()
            &&& nodes[p].children@[paths[c].last() as int] == c
        }
    &&& forall|k: Seq<u8>|
        #[trigger] keys.contains_key(k) ==> keys[k].len() > 0 && paths.contains(k)
}

/// Collects terminals under byte-string keywords; `finalize` turns it into a [`Trie`].
pub struct Builder<T> {
    nodes: Vec<TrieNode<T>>,
    paths: Ghost<Seq<Seq<u8>>>,
    parents: Ghost<Seq<int>>,
    keys: Ghost<Map<Seq<u8>, Seq<T>>>,
}

impl<T> Builder<T> {
    /// The builder's internal structure is consistent.
    pub closed spec fn wf(&self) -> bool {
        tree_wf(self.nodes@, self.paths@, self.parents@, self.keys@)
    }

    /// The keywords added so far, each with the terminals added under it, in order.
    pub closed spec fn view(&self) -> Map<Seq<u8>, Seq<T>> {
        self.keys@
    }

    /// An empty builder.
    pub fn new() -> (r: Builder<T>)
        ensures
            r.wf(),
            r@ == Map::<Seq<u8>, Seq<T>>::empty(),
    {
        let root: TrieNode<T> = TrieNode {
            children: Vec::new(),
            terminals: Vec::new(),
            depth: 0,
        };
        let ghost paths = seq![Seq::<u8>::empty()];
        let ghost parents = seq![0int];
        Builder {
            nodes: vec![root],
            paths: Ghost(paths),
            parents: Ghost(parents),
            keys: Ghost(Map::empty()),
        }
    }

    /// Adds `terminal` under the bytes of `keyword`.
    pub fn add(&mut self, keyword: &str, terminal: T)
        requires
            old(self).wf(),
        ensures
            final(self).wf(),
            final(self)@ == old(self)@.insert(
                keyword.spec_bytes(),
                if old(self)@.contains_key(keyword.spec_bytes()) {
                    old(self)@[keyword.spec_bytes()]
                } else {
                    Seq::<T>::empty()
                }.push(terminal),
            ),
    {
        let bytes = keyword.as_bytes();
        let mut current: usize = 0;
        let mut i: usize = 0;
        while i < bytes.len()
            invariant
                tree_wf(self.nodes@, self.paths@, self.parents@, self.keys@),
                self.keys@ == old(self).keys@,
                bytes@ == keyword.spec_bytes(),
                i <= bytes@.len(),
                current < self.nodes@.len(),
                self.paths@[current as int] == bytes@.take(i as int),
            decreases bytes@.len() - i,
        {
            current = self.child(current, bytes[i] as usize);
            proof {
                assert(bytes@.take(i as int).push(bytes@[i as int]) =~= bytes@.take(i + 1));
            }
            i += 1;
        }
        proof {
            assert(bytes@.take(i as int) =~= bytes@);
        }
        let ghost k = bytes@;
        let ghost old_terms = self.nodes@[current as int].terminals@;
        let ghost new_keys = self.keys@.insert(k, old_terms.push(terminal));
        self.nodes[current].terminals.push(terminal);
        proof {
            self.keys@ = new_keys;
            let nodes = self.nodes@;
            let paths = self.paths@;
            assert forall|n: int| 0 <= n < nodes.len() implies {
                &&& (#[trigger] nodes[n]).depth == paths[n].len()
                &&& paths[n].len() <= n
                &&& nodes[n].children@.len() <= 256
                &&& nodes[n].terminals@ == if new_keys.contains_key(paths[n]) {
                    new_keys[paths[n]]
                } else {
                    Seq::<T>::empty()
                }
            } by {
                if n != current {
                    assert(paths[n] != paths[current as int]);
                }
            }
            assert forall|key: Seq<u8>| #[trigger] new_keys.contains_key(key) implies new_keys[key].len() > 0
                && paths.contains(key) by {
                if key == k {
                    assert(paths[current as int] == k);
                }
            }
        }
    }

    /// The child of `parent_index` in slot `child_index`, created if it is missing.
    fn child(&mut self, parent_index: usize, child_index: usize) -> (r: usize)
        requires
            tree_wf(old(self).nodes@, old(self).paths@, old(self).parents@, old(self).keys@),
            parent_index < old(self).nodes@.len(),
            child_index < 256,
        ensures
            tree_wf(final(self).nodes@, final(self).paths@, final(self).parents@, final(self).keys@),
            final(self).keys@ == old(self).keys@,
            r < final(self).nodes@.len(),
            final(self).paths@[r as int] == old(self).paths@[parent_index as int].push(
                child_index as u8,
            ),
            old(self).paths@ =~= final(self).paths@.take(old(self).paths@.len() as int),
    {
        self.grow_child_vector(parent_index, child_index);
        if self.nodes[parent_index].children[child_index] == ABSENT {
            let count = self.nodes.len();
            proof {
                let pn = self.nodes@[parent_index as int];
                assert(pn.depth == self.paths@[parent_index as int].len());
                assert(self.paths@[parent_index as int].len() <= parent_index);
            }
            let depth = self.nodes[parent_index].depth + 1;
            let ghost p = self.paths@[parent_index as int].push(child_index as u8);
            let ghost old_nodes = self.nodes@;
            let ghost old_paths = self.paths@;
            let ghost old_parents = self.parents@;
            let created = self.create_node(depth);
            proof {
                self.paths@ = old_paths.push(p);
                self.parents@ = old_parents.push(parent_index as int);
            }
            self.nodes[parent_index].children.set(child_index, created);
            proof {
                let nodes = self.nodes@;
                let paths = self.paths@;
                let parents = self.parents@;
                let keys = self.keys@;
                assert(paths[created as int].drop_last() =~= paths[parent_index as int]);
                // the new string is not the string of an existing node
                assert forall|y: int| 0 <= y < old_nodes.len() implies old_paths[y] != p by {
                    if old_paths[y] == p {
                        let q = old_parents[y];
                        assert(old_paths[y].drop_last() =~= old_paths[parent_index as int]);
                        assert(old_paths[q] == old_paths[parent_index as int]);
                        assert(q == parent_index);
                        assert(old_paths[y].last() == child_index as u8);
                        assert(old_nodes[parent_index as int].children@[child_index as int] == y);
                    }
                }
                assert forall|n: int, m: int|
                    0 <= n < nodes.len() && 0 <= m < nodes.len() && n != m implies #[trigger] paths[n]
                        != #[trigger] paths[m] by {
                    if n == created as int {
                        assert(old_paths[m] != p);
                    } else if m == created as int {
                        assert(old_paths[n] != p);
                    }
                }
                assert forall|n: int, b: int|
                    #![trigger nodes[n].children@[b]]
                    0 <= n < nodes.len() && 0 <= b < nodes[n].children@.len() implies {
                        let c = nodes[n].children@[b];
                        c == ABSENT || (n < c < nodes.len() && paths[c as int] == paths[n].push(b as u8))
                    } by {
                    if n == parent_index as int && b == child_index as int {
                    } else if n < old_nodes.len() {
                        assert(nodes[n].children@[b] == old_nodes[n].children@[b]);
                    }
                }
                assert forall|c: int| 0 < c < nodes.len() implies {
                    let q = #[trigger] parents[c];
                    &&& 0 <= q < c
                    &&& paths[c].len() > 0
                    &&& paths[q] == paths[c].drop_last()
                    &&& nodes[q].children@.len() > paths[c].last()
                    &&& nodes[q].children@[paths[c].last() as int] == c
                } by {
                    if c < old_nodes.len() {
                        let q = parents[c];
                        if q == parent_index as int {
                            assert(old_nodes[q].children@[old_paths[c].last() as int] == c);
                        }
                    }
                }
                assert forall|n: int| 0 <= n < nodes.len() implies {
                    &&& (#[trigger] nodes[n]).depth == paths[n].len()
                    &&& paths[n].len() <= n
                    &&& nodes[n].children@.len() <= 256
                    &&& nodes[n].terminals@ == if keys.contains_key(paths[n]) {
                        keys[paths[n]]
                    } else {
                        Seq::<T>::empty()
                    }
                } by {
                    if n == created as int {
                        assert(paths[n] == p);
                        assert(old_nodes[parent_index as int].depth == old_paths[parent_index as int].len());
                        if keys.contains_key(p) {
                            assert(old_paths.contains(p));
                            let w = choose|w: int| 0 <= w < old_paths.len() && old_paths[w] == p;
                            assert(old_paths[w] != p);
                        }
                    } else {
                        assert(old_nodes[n].depth == old_paths[n].len());
                        assert(nodes[n].depth == old_nodes[n].depth);
                        assert(nodes[n].terminals@ == old_nodes[n].terminals@);
                        assert(nodes[n].children@.len() == old_nodes[n].children@.len());
                        assert(paths[n] == old_paths[n]);
                    }
                }
                assert forall|k: Seq<u8>| #[trigger] keys.contains_key(k) implies keys[k].len() > 0
                    && paths.contains(k) by {
                    assert(old_paths.contains(k));
                    let w = choose|w: int| 0 <= w < old_paths.len() && old_paths[w] == k;
                    assert(paths[w] == k);
                }
                assert(old_paths =~= paths.take(old_paths.len() as int));
            }
            created
        } else {
            self.nodes[parent_index].children[child_index]
        }
    }

    fn grow_child_vector(&mut self, parent_index: usize, child_index: usize)
        requires
            tree_wf(old(self).nodes@, old(self).paths@, old(self).parents@, old(self).keys@),
            parent_index < old(self).nodes@.len(),
            child_index < 256,
        ensures
            tree_wf(final(self).nodes@, final(self).paths@, final(self).parents@, final(self).keys@),
            final(self).keys@ == old(self).keys@,
            final(self).paths@ == old(self).paths@,
            final(self).parents@ == old(self).parents@,
            final(self).nodes@.len() == old(self).nodes@.len(),
            final(self).nodes@[parent_index as int].children@.len() > child_index,
            final(self).nodes@[parent_index as int].depth == old(self).nodes@[parent_index as int].depth,
    {
        while self.nodes[parent_index].children.len() <= child_index
            invariant
                tree_wf(self.nodes@, self.paths@, self.parents@, self.keys@),
                self.keys@ == old(self).keys@,
                self.paths@ == old(self).paths@,
                self.parents@ == old(self).parents@,
                self.nodes@.len() == old(self).nodes@.len(),
                parent_index < self.nodes@.len(),
                child_index < 256,
                self.nodes@[parent_index as int].depth == old(self).nodes@[parent_index as int].depth,
            decreases 256 - self.nodes@[parent_index as int].children@.len(),
        {
            let ghost old_nodes = self.nodes@;
            self.nodes[parent_index].children.push(ABSENT);
            proof {
                let nodes = self.nodes@;
                assert forall|n: int, b: int|
                    #![trigger nodes[n].children@[b]]
                    0 <= n < nodes.len() && 0 <= b < nodes[n].children@.len() implies {
                        let c = nodes[n].children@[b];
                        c == ABSENT || (n < c < nodes.len() && self.paths@[c as int] == self.paths@[n].push(b as u8))
                    } by {
                    if n == parent_index as int && b == old_nodes[n].children@.len() {
                    } else {
                        assert(nodes[n].children@[b] == old_nodes[n].children@[b]);
                    }
                }
                assert forall|c: int| 0 < c < nodes.len() implies {
                    let q = #[trigger] self.parents@[c];
                    &&& 0 <= q < c
                    &&& self.paths@[c].len() > 0
                    &&& self.paths@[q] == self.paths@[c].drop_last()
                    &&& nodes[q].children@.len() > self.paths@[c].last()
                    &&& nodes[q].children@[self.paths@[c].last() as int] == c
                } by {
                    let q = self.parents@[c];
                    assert(old_nodes[q].children@[self.paths@[c].last() as int] == c);
                }
                assert forall|n: int| 0 <= n < nodes.len() implies (#[trigger] nodes[n]).terminals@
                    == old_nodes[n].terminals@ && nodes[n].depth == old_nodes[n].depth by {
                }
            }
        }
    }



    /// Links every node to the next terminal node in the order of strings, with the
    /// length of the prefix that their strings share.
    fn link_nodes(&self, order: &Vec<usize>, Ghost(pos): Ghost<Seq<int>>) -> (links: Vec<Option<(usize, usize)>>)
        requires
            self.wf(),
            order_wf(self.nodes@, self.paths@, order@, pos),
        ensures
            trie_wf(self.nodes@, self.paths@, self.parents@, self.keys@, order@, pos, links@),
    {
        let ghost nodes = self.nodes@;
        let ghost paths = self.paths@;
        let ghost ord = order@;
        let count = self.nodes.len();
        let mut links: Vec<Option<(usize, usize)>> = Vec::new();
        while links.len() < count
            invariant
                links@.len() <= count,
                count == nodes.len(),
            decreases count - links@.len(),
        {
            links.push(None);
        }
        let mut carry: Option<(usize, usize)> = None;
        let mut t = order.len();
        proof {
            reveal(link_ctx);
        }
        while t > 0
            invariant
                link_ctx(nodes, paths, self.parents@, self.keys@, ord, pos),
                nodes == self.nodes@,
                paths == self.paths@,
                ord == order@,
                links@.len() == nodes.len(),
                t <= ord.len(),
                carry == (if t >= ord.len() { None } else { link_from(nodes, paths, ord, t as int, t as int) }),
                forall|i: int| t <= i < ord.len() ==> #[trigger] links@[ord[i] as int]
                    == link_from(nodes, paths, ord, i, i + 1),
            decreases t,
        {
            t -= 1;
            let x = order[t];
            proof {
                lemma_link_step_ctx(nodes, paths, self.parents@, self.keys@, ord, pos, t as int);
            }
            let link = match carry {
                None => None,
                Some((r, m)) => {
                    let y = order[t + 1];
                    let d = self.nodes[y].depth - 1;
                    let depth = if d <= r { d } else { r };
                    Some((depth, m))
                },
            };
            let ghost before = links@;
            links.set(x, link);
            proof {
                lemma_links_frame(nodes, paths, self.parents@, self.keys@, ord, pos, before, links@, t as int);
            }
            if self.nodes[x].terminals.len() > 0 {
                carry = Some((self.nodes[x].depth, x));
            } else {
                carry = link;
            }
        }
        proof {
            reveal(link_ctx);
        }
        links
    }

    /// Freezes the builder into a searchable trie.
    pub fn finalize(self) -> (r: Trie<T>)
        requires
            self.wf(),
        ensures
            r@ == self@,
    {
        let builder = self;
        let order = builder.preorder_depth_first_order_node_traversal();
        let ghost nodes = builder.nodes@;
        let ghost paths = builder.paths@;
        let ghost ord = order@;
        let ghost pos = Seq::new(nodes.len(), |n: int| choose|i: int| 0 <= i < ord.len() && ord[i] == n as usize);
        proof {
            assert forall|n: int| 0 <= n < nodes.len() implies 0 <= #[trigger] pos[n] < ord.len() && ord[pos[n]] == n by {
                assert(has_prefix(paths[n], Seq::<u8>::empty())) by {
                    assert(paths[n].take(0) =~= Seq::<u8>::empty());
                }
                assert(ord.contains(n as usize));
            }
            assert forall|i: int| 0 <= i < ord.len() implies #[trigger] pos[ord[i] as int] == i by {
                let n = ord[i] as int;
                let j = pos[n];
                assert(has_prefix(paths[n], Seq::<u8>::empty())) by {
                    assert(paths[n].take(0) =~= Seq::<u8>::empty());
                }
                assert(ord.contains(n as usize));
                if j < i {
                    lemma_lt_asym(paths[ord[j] as int], paths[ord[i] as int]);
                } else if j > i {
                    lemma_lt_asym(paths[ord[i] as int], paths[ord[j] as int]);
                }
            }
        }
        let links = builder.link_nodes(&order, Ghost(pos));
        proof {
            reveal(trie_ok);
        }
        Trie {
            nodes: builder.nodes,
            links,
            paths: builder.paths,
            parents: builder.parents,
            keys: builder.keys,
            order: Ghost(ord),
            pos: Ghost(pos),
        }
    }

    /// The nodes in depth-first preorder, children by increasing byte:
    /// the order of their strings.
    fn preorder_depth_first_order_node_traversal(&self) -> (order: Vec<usize>)
        requires
            self.wf(),
        ensures
            lists_extensions(self.nodes@, self.paths@, Seq::<u8>::empty(), order@),
    {
        let mut result: Vec<usize> = Vec::new();
        self.collect_subtree(0, &mut result);
        proof {
            assert(result@.skip(0) =~= result@);
        }
        result
    }

    fn collect_subtree(&self, node: usize, result: &mut Vec<usize>)
        requires
            self.wf(),
            node < self.nodes@.len(),
        ensures
            final(result)@.len() > old(result)@.len(),
            final(result)@.take(old(result)@.len() as int) == old(result)@,
            lists_extensions(self.nodes@, self.paths@, self.paths@[node as int], final(result)@.skip(old(result)@.len() as int)),
        decreases self.nodes@.len() - node,
    {
        let ghost nodes = self.nodes@;
        let ghost paths = self.paths@;
        let ghost p = paths[node as int];
        let ghost plen = p.len() as int;
        let ghost start = result@.len() as int;
        let ghost start_seq = result@;
        result.push(node);
        proof {
            assert(has_prefix(p, p)) by { assert(p.take(plen) =~= p); }
        }
        let count = self.nodes[node].children.len();
        let mut b: usize = 0;
        proof {
            assert(result@.skip(start)[0] == node);
            assert(result@.take(start) =~= start_seq);
        }
        while b < count
            invariant
                self.wf(),
                nodes == self.nodes@,
                paths == self.paths@,
                node < nodes.len(),
                p == paths[node as int],
                plen == p.len(),
                count == nodes[node as int].children@.len(),
                b <= count,
                start == start_seq.len(),
                result@.take(start) == start_seq,
                result@.len() > start,
                result@[start] == node,
                forall|i: int| start <= i < result@.len() ==> (#[trigger] result@[i]) < nodes.len()
                    && has_prefix(paths[result@[i] as int], p),
                forall|i: int| start < i < result@.len() ==> paths[(#[trigger] result@[i]) as int].len() > plen
                    && paths[result@[i] as int][plen] < b,
                forall|y: int| 0 <= y < nodes.len() && has_prefix(#[trigger] paths[y], p)
                    && (y == node || paths[y][plen] < b) ==> result@.skip(start).contains(y as usize),
                forall|i: int, j: int| start <= i < j < result@.len() ==> lex_lt(paths[result@[i] as int], paths[result@[j] as int]),
            decreases count - b,
        {
            let c = self.nodes[node].children[b];
            if c != ABSENT {
                let ghost before = result@;
                proof {
                    assert(nodes[node as int].children@[b as int] == c);
                }
                self.collect_subtree(c, result);
                proof {
                    let cp = paths[c as int];
                    assert(cp == p.push(b as u8));
                    let mid = before.len() as int;
                    let seg = result@.skip(mid);
                    assert forall|i: int| 0 <= i < mid implies result@[i] == before[i] by {
                        assert(result@.take(mid)[i] == result@[i]);
                    }
                    assert forall|i: int| start <= i < result@.len() implies (#[trigger] result@[i]) < nodes.len()
                        && has_prefix(paths[result@[i] as int], p) by {
                        if i >= mid {
                            assert(result@[i] == seg[i - mid]);
                            let y = result@[i] as int;
                            assert(paths[y].take(plen) =~= paths[y].take(plen + 1).take(plen));
                            assert(p.push(b as u8).take(plen) =~= p);
                        } else {
                            assert(result@[i] == before[i]);
                        }
                    }
                    assert forall|i: int| start < i < result@.len() implies paths[(#[trigger] result@[i]) as int].len() > plen
                        && paths[result@[i] as int][plen] < b + 1 by {
                        if i >= mid {
                            assert(result@[i] == seg[i - mid]);
                            let y = result@[i] as int;
                            assert(paths[y].take(plen + 1)[plen] == paths[y][plen]);
                        } else {
                            assert(result@[i] == before[i]);
                        }
                    }
                    assert forall|y: int| 0 <= y < nodes.len() && has_prefix(#[trigger] paths[y], p)
                        && (y == node || paths[y][plen] < b + 1) implies result@.skip(start).contains(y as usize) by {
                        if y != node && paths[y][plen] == b {
                            // y lies below the child c
                            assert(paths[y].len() > plen) by {
                                if paths[y].len() == plen {
                                    assert(paths[y].take(plen) =~= paths[y]);
                                }
                            }
                            assert(paths[y].take(plen + 1) =~= p.push(b as u8)) by {
                                assert(paths[y].take(plen) == p);
                                assert forall|t: int| 0 <= t < plen + 1 implies #[trigger] paths[y].take(plen + 1)[t] == p.push(b as u8)[t] by {
                                    if t < plen {
                                        assert(paths[y].take(plen)[t] == paths[y][t]);
                                    }
                                }
                            }
                            assert(seg.contains(y as usize));
                            let k = choose|k: int| 0 <= k < seg.len() && seg[k] == y as usize;
                            assert(seg[k] == result@[mid + k]);
                            assert(result@.skip(start)[mid - start + k] == result@[mid + k]);
                        } else {
                            assert(before.skip(start).contains(y as usize));
                            let k = choose|k: int| 0 <= k < before.skip(start).len() && before.skip(start)[k] == y as usize;
                            assert(result@.skip(start)[k] == y as usize);
                        }
                    }
                    assert forall|i: int, j: int| start <= i < j < result@.len() implies lex_lt(paths[result@[i] as int], paths[result@[j] as int]) by {
                        if j < mid {
                            assert(result@[i] == before[i]);
                            assert(result@[j] == before[j]);
                        } else if i >= mid {
                            assert(result@[i] == seg[i - mid]);
                            assert(result@[j] == seg[j - mid]);
                        } else {
                            assert(result@[i] == before[i]);
                            assert(result@[j] == seg[j - mid]);
                            let x = result@[i] as int;
                            let y = result@[j] as int;
                            if i == start {
                                assert(x == node);
                                assert(paths[y].take(plen) =~= paths[y].take(plen + 1).take(plen));
                                lemma_prefix_lt(p, paths[y]);
                            } else {
                                let bx = paths[x][plen];
                                assert(paths[x].take(plen + 1) =~= p.push(bx)) by {
                                    assert forall|t: int| 0 <= t < plen + 1 implies #[trigger] paths[x].take(plen + 1)[t] == p.push(bx)[t] by {
                                        if t < plen {
                                            assert(paths[x].take(plen)[t] == paths[x][t]);
                                        }
                                    }
                                }
                                lemma_branch_lt(paths[x], paths[y], p, bx, b as u8);
                            }
                        }
                    }
                    assert(result@.take(start) =~= before.take(start));
                }
            } else {
                proof {
                    assert forall|y: int| 0 <= y < nodes.len() && has_prefix(#[trigger] paths[y], p)
                        && (y == node || paths[y][plen] < b + 1) implies result@.skip(start).contains(y as usize) by {
                        if y != node && paths[y][plen] == b {
                            assert(paths[y].len() > plen) by {
                                if paths[y].len() == plen {
                                    assert(paths[y].take(plen) =~= paths[y]);
                                }
                            }
                            lemma_child_slot(nodes, paths, self.parents@, self.keys@, node as int, y);
                        }
                    }
                }
            }
            b += 1;
        }
        proof {
            let seg = result@.skip(start);
            assert forall|y: int| 0 <= y < nodes.len() && has_prefix(#[trigger] paths[y], p) implies seg.contains(y as usize) by {
                if y != node {
                    assert(paths[y].len() > plen) by {
                        if paths[y].len() == plen {
                            assert(paths[y].take(plen) =~= paths[y]);
                            assert(paths[y] == p);
                        }
                    }
                    lemma_child_slot(nodes, paths, self.parents@, self.keys@, node as int, y);
                }
            }
            assert forall|i: int| 0 <= i < seg.len() implies (#[trigger] seg[i]) < nodes.len() && has_prefix(paths[seg[i] as int], p) by {
                assert(seg[i] == result@[start + i]);
            }
            assert forall|i: int, j: int| 0 <= i < j < seg.len() implies lex_lt(paths[seg[i] as int], paths[seg[j] as int]) by {
                assert(seg[i] == result@[start + i]);
                assert(seg[j] == result@[start + j]);
            }
        }
    }

    fn create_node(&mut self, depth: usize) -> (r: usize)
        ensures
            r == old(self).nodes@.len(),
            final(self).nodes@.len() == old(self).nodes@.len() + 1,
            final(self).nodes@.len() <= usize::MAX,
            final(self).nodes@.take(r as int) == old(self).nodes@,
            final(self).nodes@[r as int].depth == depth,
            final(self).nodes@[r as int].children@.len() == 0,
            final(self).nodes@[r as int].terminals@.len() == 0,
            final(self).paths@ == old(self).paths@,
            final(self).parents@ == old(self).parents@,
            final(self).keys@ == old(self).keys@,
    {
        let node_id = self.nodes.len();
        let node = TrieNode {
            children: Vec::new(),
            terminals: Vec::new(),
            depth: depth,
        };
        self.nodes.push(node);
        let count = self.nodes.len();
        proof {
            assert(self.nodes@.take(node_id as int) =~= old(self).nodes@);
        }
        node_id
    }
}

spec fn is_terminal<T>(node: TrieNode<T>) -> bool {
    node.terminals@.len() > 0
}

/// The first position at or after `j` whose node holds terminals (`order.len()` if none does).
spec fn first_terminal_from<T>(nodes: Seq<TrieNode<T>>, order: Seq<usize>, j: int) -> int
    decreases order.len() - j,
{
    if j < 0 || j >= order.len() {
        order.len() as int
    } else if is_terminal(nodes[order[j] as int]) {
        j
    } else {
        first_terminal_from(nodes, order, j + 1)
    }
}

/// From position `i`, the first terminal node at or after `from`, with the length
/// of the common prefix of their strings.
spec fn link_from<T>(nodes: Seq<TrieNode<T>>, paths: Seq<Seq<u8>>, order: Seq<usize>, i: int, from: int) -> Option<(usize, usize)> {
    let f = first_terminal_from(nodes, order, from);
    if f >= order.len() {
        None
    } else {
        Some((lcp(paths[order[i] as int], paths[order[f] as int]) as usize, order[f]))
    }
}

/// `order` lists every node once, by increasing string, and `pos` is its inverse.
spec fn order_wf<T>(nodes: Seq<TrieNode<T>>, paths: Seq<Seq<u8>>, order: Seq<usize>, pos: Seq<int>) -> bool {
    &&& lists_extensions(nodes, paths, Seq::<u8>::empty(), order)
    &&& pos.len() == nodes.len()
    &&& forall|n: int| 0 <= n < nodes.len() ==> 0 <= #[trigger] pos[n] < order.len() && order[pos[n]] == n
    &&& forall|i: int| 0 <= i < order.len() ==> #[trigger] pos[order[i] as int] == i
}

/// The full structure of a finished trie: each node links to the next terminal node
/// in the order of strings, with the length of their common prefix.
spec fn trie_wf<T>(
    nodes: Seq<TrieNode<T>>,
    paths: Seq<Seq<u8>>,
    parents: Seq<int>,
    keys: Map<Seq<u8>, Seq<T>>,
    order: Seq<usize>,
    pos: Seq<int>,
    links: Seq<Option<(usize, usize)>>,
) -> bool {
    &&& tree_wf(nodes, paths, parents, keys)
    &&& order_wf(nodes, paths, order, pos)
    &&& links.len() == nodes.len()
    &&& forall|i: int| 0 <= i < order.len() ==> #[trigger] links[order[i] as int]
        == link_from(nodes, paths, order, i, i + 1)
}

proof fn lemma_lcp_refl(a: Seq<u8>)
    ensures
        lcp(a, a) == a.len(),
{
    lemma_lcp_unique(a, a, a.len());
}

/// Positions in `order` follow the order of strings.
proof fn lemma_pos_lt<T>(nodes: Seq<TrieNode<T>>, paths: Seq<Seq<u8>>, order: Seq<usize>, pos: Seq<int>, u: int, v: int)
    requires
        order_wf(nodes, paths, order, pos),
        0 <= u < nodes.len(),
        0 <= v < nodes.len(),
        lex_lt(paths[u], paths[v]),
    ensures
        pos[u] < pos[v],
{
    let pu = pos[u];
    let pv = pos[v];
    if pv < pu {
        lemma_lt_asym(paths[order[pv] as int], paths[order[pu] as int]);
    } else if pv == pu {
        lemma_lt_asym(paths[u], paths[v]);
    }
}

/// Two neighbours in the order share all of the second one's string but its last byte.
proof fn lemma_neighbours_lcp<T>(
    nodes: Seq<TrieNode<T>>,
    paths: Seq<Seq<u8>>,
    parents: Seq<int>,
    keys: Map<Seq<u8>, Seq<T>>,
    order: Seq<usize>,
    pos: Seq<int>,
    t: int,
)
    requires
        tree_wf(nodes, paths, parents, keys),
        order_wf(nodes, paths, order, pos),
        0 <= t,
        t + 1 < order.len(),
    ensures
        paths[order[t + 1] as int].len() >= 1,
        lcp(paths[order[t] as int], paths[order[t + 1] as int]) == paths[order[t + 1] as int].len() - 1,
{
    let x = order[t] as int;
    let y = order[t + 1] as int;
    let px = paths[x];
    let py = paths[y];
    assert(lex_lt(px, py));
    lemma_nothing_below_empty(px);
    assert(py.len() >= 1) by {
        if py.len() == 0 {
            assert(py =~= Seq::<u8>::empty());
        }
    }
    assert(y != 0);
    let q = parents[y];
    let pq = paths[q];
    assert(pq =~= py.take(py.len() - 1));
    assert(has_prefix(py, pq));
    lemma_prefix_lt(pq, py);
    lemma_pos_lt(nodes, paths, order, pos, q, y);
    lemma_lcp_props(px, py);
    if pos[q] == t {
        assert(q == x);
        lemma_lcp_unique(px, py, pq.len());
    } else {
        let iq = pos[q];
        assert(order[iq] as int == q);
        assert(lex_lt(paths[order[iq] as int], paths[order[t] as int]));
        assert(has_prefix(pq, pq)) by {
            assert(pq.take(pq.len() as int) =~= pq);
        }
        lemma_interval(pq, px, py, pq);
        // px extends pq, py = pq + [last]; px < py, so they first differ at |pq| or px ends there
        assert forall|j: int| 0 <= j < pq.len() implies px[j] == py[j] by {
            assert(px.take(pq.len() as int)[j] == pq[j]);
            assert(py.take(pq.len() as int)[j] == pq[j]);
        }
        if px.len() > pq.len() && px[pq.len() as int] == py[pq.len() as int] {
            // then py is a prefix of px, and px would come after py
            assert(px.take(py.len() as int) =~= py) by {
                assert forall|j: int| 0 <= j < py.len() implies #[trigger] px.take(py.len() as int)[j] == py[j] by {
                    if j < pq.len() {
                    } else {
                        assert(j == pq.len());
                    }
                }
            }
            if px.len() == py.len() {
                assert(px =~= py);
                assert(x == y);
            } else {
                lemma_prefix_lt(py, px);
                lemma_lt_asym(px, py);
            }
        }
        lemma_lcp_unique(px, py, pq.len());
    }
}

/// A node holding an ancestor string of node `x`: walks up the parent links.
proof fn lemma_ancestor<T>(
    nodes: Seq<TrieNode<T>>,
    paths: Seq<Seq<u8>>,
    parents: Seq<int>,
    keys: Map<Seq<u8>, Seq<T>>,
    x: int,
    len: nat,
) -> (y: int)
    requires
        tree_wf(nodes, paths, parents, keys),
        0 <= x < nodes.len(),
        len <= paths[x].len(),
    ensures
        0 <= y <= x,
        paths[y] == paths[x].take(len as int),
    decreases x,
{
    if len == paths[x].len() {
        assert(paths[x].take(len as int) =~= paths[x]);
        x
    } else {
        assert(x != 0);
        let q = parents[x];
        let y = lemma_ancestor(nodes, paths, parents, keys, q, len);
        assert(paths[x].drop_last().take(len as int) =~= paths[x].take(len as int));
        y
    }
}

/// Any node below `n` is reached through the child slot of its next byte.
proof fn lemma_child_slot<T>(
    nodes: Seq<TrieNode<T>>,
    paths: Seq<Seq<u8>>,
    parents: Seq<int>,
    keys: Map<Seq<u8>, Seq<T>>,
    n: int,
    x: int,
)
    requires
        tree_wf(nodes, paths, parents, keys),
        0 <= n < nodes.len(),
        0 <= x < nodes.len(),
        has_prefix(paths[x], paths[n]),
        paths[x].len() > paths[n].len(),
    ensures
        ({
            let b = paths[x][paths[n].len() as int] as int;
            &&& b < nodes[n].children@.len()
            &&& nodes[n].children@[b] != ABSENT
            &&& has_prefix(paths[x], paths[nodes[n].children@[b] as int])
        }),
{
    let k = paths[n].len();
    let y = lemma_ancestor(nodes, paths, parents, keys, x, k + 1);
    assert(paths[y].len() == k + 1);
    assert(y != 0);
    let q = parents[y];
    assert(paths[y].drop_last() =~= paths[x].take(k as int));
    assert(paths[x].take(k as int) =~= paths[n]);
    assert(paths[q] == paths[n]);
    assert(q == n);
    assert(paths[y].last() == paths[x][k as int]);
    assert(nodes[n].children@[paths[x][k as int] as int] == y);
    assert(has_prefix(paths[x], paths[y]));
}

/// `seg` lists, in increasing order, exactly the nodes whose strings extend `p`.
spec fn lists_extensions<T>(nodes: Seq<TrieNode<T>>, paths: Seq<Seq<u8>>, p: Seq<u8>, seg: Seq<usize>) -> bool {
    &&& forall|i: int| 0 <= i < seg.len() ==> (#[trigger] seg[i]) < nodes.len() && has_prefix(paths[seg[i] as int], p)
    &&& forall|y: int| 0 <= y < nodes.len() && has_prefix(#[trigger] paths[y], p) ==> seg.contains(y as usize)
    &&& forall|i: int, j: int| 0 <= i < j < seg.len() ==> lex_lt(paths[seg[i] as int], paths[seg[j] as int])
}

/// One step of the backward linking pass: the link of position `t` from the carry of `t + 1`,
/// and the carry of `t`.
proof fn lemma_link_step<T>(
    nodes: Seq<TrieNode<T>>,
    paths: Seq<Seq<u8>>,
    parents: Seq<int>,
    keys: Map<Seq<u8>, Seq<T>>,
    order: Seq<usize>,
    pos: Seq<int>,
    t: int,
)
    requires
        tree_wf(nodes, paths, parents, keys),
        order_wf(nodes, paths, order, pos),
        0 <= t < order.len(),
    ensures
        t + 1 < order.len() ==> paths[order[t + 1] as int].len() >= 1,
        t + 1 >= order.len() ==> link_from(nodes, paths, order, t, t + 1) is None,
        t + 1 < order.len() ==> match link_from(nodes, paths, order, t + 1, t + 1) {
            None => link_from(nodes, paths, order, t, t + 1) is None,
            Some((r, m)) => {
                let d = (paths[order[t + 1] as int].len() - 1) as usize;
                link_from(nodes, paths, order, t, t + 1) == Some((if d <= r { d } else { r }, m))
            },
        },
        link_from(nodes, paths, order, t, t) == if is_terminal(nodes[order[t] as int]) {
            Some((paths[order[t] as int].len() as usize, order[t]))
        } else {
            link_from(nodes, paths, order, t, t + 1)
        },
{
    let x = order[t] as int;
    let px = paths[x];
    lemma_lcp_refl(px);
    if t + 1 < order.len() {
        lemma_neighbours_lcp(nodes, paths, parents, keys, order, pos, t);
        let y = order[t + 1] as int;
        let py = paths[y];
        let f = first_terminal_from(nodes, order, t + 1);
        lemma_first_terminal_bounds(nodes, order, t + 1);
        if f < order.len() {
            let m = order[f] as int;
            let pm = paths[m];
            lemma_lcp_props(px, pm);
            lemma_lcp_props(py, pm);
            if f == t + 1 {
                lemma_lcp_refl(py);
            } else {
                assert(lex_lt(px, py));
                assert(lex_lt(py, pm));
                lemma_lcp_min(px, py, pm);
            }
        }
    }
}

/// The linking pass works within a consistent tree and order.
#[verifier::opaque]
spec fn link_ctx<T>(
    nodes: Seq<TrieNode<T>>,
    paths: Seq<Seq<u8>>,
    parents: Seq<int>,
    keys: Map<Seq<u8>, Seq<T>>,
    order: Seq<usize>,
    pos: Seq<int>,
) -> bool {
    &&& tree_wf(nodes, paths, parents, keys)
    &&& order_wf(nodes, paths, order, pos)
    &&& forall|i: int| 0 <= i < order.len() ==> order[i] < nodes.len()
}

proof fn lemma_link_step_ctx<T>(
    nodes: Seq<TrieNode<T>>,
    paths: Seq<Seq<u8>>,
    parents: Seq<int>,
    keys: Map<Seq<u8>, Seq<T>>,
    order: Seq<usize>,
    pos: Seq<int>,
    t: int,
)
    requires
        link_ctx(nodes, paths, parents, keys, order, pos),
        0 <= t < order.len(),
    ensures
        order[t] < nodes.len(),
        t + 1 < order.len() ==> order[t + 1] < nodes.len(),
        t + 1 < order.len() ==> nodes[order[t + 1] as int].depth == paths[order[t + 1] as int].len(),
        nodes[order[t] as int].depth == paths[order[t] as int].len(),
        t + 1 < order.len() ==> paths[order[t + 1] as int].len() >= 1,
        t + 1 >= order.len() ==> link_from(nodes, paths, order, t, t + 1) is None,
        t + 1 < order.len() ==> match link_from(nodes, paths, order, t + 1, t + 1) {
            None => link_from(nodes, paths, order, t, t + 1) is None,
            Some((r, m)) => {
                let d = (paths[order[t + 1] as int].len() - 1) as usize;
                link_from(nodes, paths, order, t, t + 1) == Some((if d <= r { d } else { r }, m))
            },
        },
        link_from(nodes, paths, order, t, t) == if is_terminal(nodes[order[t] as int]) {
            Some((paths[order[t] as int].len() as usize, order[t]))
        } else {
            link_from(nodes, paths, order, t, t + 1)
        },
{
    reveal(link_ctx);
    lemma_link_step(nodes, paths, parents, keys, order, pos, t);
    assert(nodes[order[t] as int].depth == paths[order[t] as int].len());
    if t + 1 < order.len() {
        assert(nodes[order[t + 1] as int].depth == paths[order[t + 1] as int].len());
    }
}

proof fn lemma_order_distinct<T>(
    nodes: Seq<TrieNode<T>>,
    paths: Seq<Seq<u8>>,
    parents: Seq<int>,
    keys: Map<Seq<u8>, Seq<T>>,
    order: Seq<usize>,
    pos: Seq<int>,
    t: int,
    i: int,
)
    requires
        link_ctx(nodes, paths, parents, keys, order, pos),
        0 <= t < i < order.len(),
    ensures
        order[t] != order[i],
{
    reveal(link_ctx);
    assert(lex_lt(paths[order[t] as int], paths[order[i] as int]));
    lemma_lt_asym(paths[order[t] as int], paths[order[i] as int]);
}


/// Setting the link of position `t` keeps the links of the later positions.
proof fn lemma_links_frame<T>(
    nodes: Seq<TrieNode<T>>,
    paths: Seq<Seq<u8>>,
    parents: Seq<int>,
    keys: Map<Seq<u8>, Seq<T>>,
    order: Seq<usize>,
    pos: Seq<int>,
    before: Seq<Option<(usize, usize)>>,
    after: Seq<Option<(usize, usize)>>,
    t: int,
)
    requires
        link_ctx(nodes, paths, parents, keys, order, pos),
        0 <= t < order.len(),
        before.len() == nodes.len(),
        order[t] < nodes.len(),
        after == before.update(order[t] as int, link_from(nodes, paths, order, t, t + 1)),
        forall|i: int| t < i < order.len() ==> #[trigger] before[order[i] as int]
            == link_from(nodes, paths, order, i, i + 1),
    ensures
        forall|i: int| t <= i < order.len() ==> #[trigger] after[order[i] as int]
            == link_from(nodes, paths, order, i, i + 1),
{
    assert forall|i: int| t <= i < order.len() implies #[trigger] after[order[i] as int]
        == link_from(nodes, paths, order, i, i + 1) by {
        if i > t {
            lemma_order_distinct(nodes, paths, parents, keys, order, pos, t, i);
            assert(order[i] < nodes.len()) by { reveal(link_ctx); }
            assert(after[order[i] as int] == before[order[i] as int]);
        }
    }
}

/// `ks` lists, by increasing order, exactly the keys of `m` that start with `s`.
pub open spec fn is_listing<V>(m: Map<Seq<u8>, V>, s: Seq<u8>, ks: Seq<Seq<u8>>) -> bool {
    &&& forall|i: int| 0 <= i < ks.len() ==> m.contains_key(#[trigger] ks[i]) && has_prefix(ks[i], s)
    &&& forall|k: Seq<u8>| m.contains_key(k) && has_prefix(k, s) ==> #[trigger] ks.contains(k)
    &&& forall|i: int, j: int| 0 <= i < j < ks.len() ==> lex_lt(ks[i], ks[j])
}

/// The keys of `m` that start with `s`, by increasing order.
pub open spec fn listing<V>(m: Map<Seq<u8>, V>, s: Seq<u8>) -> Seq<Seq<u8>> {
    choose|ks: Seq<Seq<u8>>| is_listing(m, s, ks)
}

/// What a search for the prefix `s` yields: for each key that starts with `s`, by increasing
/// order, the terminals stored under it.
pub open spec fn prefix_search<V>(m: Map<Seq<u8>, Seq<V>>, s: Seq<u8>) -> Seq<Seq<V>> {
    listing(m, s).map_values(|k: Seq<u8>| m[k])
}

/// Position `j` of the order holds a terminal node whose string starts with `s`.
spec fn included<T>(nodes: Seq<TrieNode<T>>, paths: Seq<Seq<u8>>, order: Seq<usize>, s: Seq<u8>, j: int) -> bool {
    is_terminal(nodes[order[j] as int]) && has_prefix(paths[order[j] as int], s)
}

/// The positions at or after `j` that are included, in increasing order.
spec fn tail_pos<T>(nodes: Seq<TrieNode<T>>, paths: Seq<Seq<u8>>, order: Seq<usize>, s: Seq<u8>, j: int) -> Seq<int>
    decreases order.len() - j,
{
    if j < 0 || j >= order.len() {
        Seq::<int>::empty()
    } else if included(nodes, paths, order, s, j) {
        seq![j] + tail_pos(nodes, paths, order, s, j + 1)
    } else {
        tail_pos(nodes, paths, order, s, j + 1)
    }
}

proof fn lemma_tail_pos<T>(nodes: Seq<TrieNode<T>>, paths: Seq<Seq<u8>>, order: Seq<usize>, s: Seq<u8>, j: int)
    requires
        0 <= j <= order.len(),
    ensures
        forall|i: int| 0 <= i < tail_pos(nodes, paths, order, s, j).len() ==> j <= #[trigger] tail_pos(nodes, paths, order, s, j)[i] < order.len()
            && included(nodes, paths, order, s, tail_pos(nodes, paths, order, s, j)[i]),
        forall|i: int, k: int| 0 <= i < k < tail_pos(nodes, paths, order, s, j).len() ==>
            tail_pos(nodes, paths, order, s, j)[i] < tail_pos(nodes, paths, order, s, j)[k],
        forall|p: int| j <= p < order.len() && included(nodes, paths, order, s, p) ==>
            #[trigger] tail_pos(nodes, paths, order, s, j).contains(p),
    decreases order.len() - j,
{
    if j < order.len() {
        lemma_tail_pos(nodes, paths, order, s, j + 1);
        let rest = tail_pos(nodes, paths, order, s, j + 1);
        let tp = tail_pos(nodes, paths, order, s, j);
        if included(nodes, paths, order, s, j) {
            assert(tp == seq![j] + rest);
            assert forall|p: int| j <= p < order.len() && included(nodes, paths, order, s, p) implies #[trigger] tp.contains(p) by {
                if p == j {
                    assert(tp[0] == j);
                } else {
                    assert(rest.contains(p));
                    let k = choose|k: int| 0 <= k < rest.len() && rest[k] == p;
                    assert(tp[k + 1] == p);
                }
            }
            assert forall|i: int| 0 <= i < tp.len() implies j <= #[trigger] tp[i] < order.len()
                && included(nodes, paths, order, s, tp[i]) by {
                if i > 0 {
                    assert(tp[i] == rest[i - 1]);
                }
            }
            assert forall|i: int, k: int| 0 <= i < k < tp.len() implies tp[i] < tp[k] by {
                assert(tp[k] == rest[k - 1]);
                if i > 0 {
                    assert(tp[i] == rest[i - 1]);
                }
            }
        } else {
            assert(tp == rest);
        }
    }
}

/// Positions without included nodes can be skipped.
proof fn lemma_tail_pos_skip<T>(nodes: Seq<TrieNode<T>>, paths: Seq<Seq<u8>>, order: Seq<usize>, s: Seq<u8>, a: int, b: int)
    requires
        0 <= a <= b <= order.len(),
        forall|p: int| a <= p < b ==> !included(nodes, paths, order, s, p),
    ensures
        tail_pos(nodes, paths, order, s, a) == tail_pos(nodes, paths, order, s, b),
    decreases b - a,
{
    if a < b {
        assert(!included(nodes, paths, order, s, a));
        lemma_tail_pos_skip(nodes, paths, order, s, a + 1, b);
    }
}

/// The strings of the nodes at the included positions, by increasing position.
spec fn tail_keys<T>(paths: Seq<Seq<u8>>, order: Seq<usize>, tp: Seq<int>) -> Seq<Seq<u8>> {
    tp.map_values(|p: int| paths[order[p] as int])
}

/// The terminals of the nodes at the included positions, by increasing position.
spec fn tail_terminals<T>(nodes: Seq<TrieNode<T>>, order: Seq<usize>, tp: Seq<int>) -> Seq<Seq<T>> {
    tp.map_values(|p: int| nodes[order[p] as int].terminals@)
}

/// Listing all included positions gives the search result.
proof fn lemma_tail_is_search<T>(
    nodes: Seq<TrieNode<T>>,
    paths: Seq<Seq<u8>>,
    parents: Seq<int>,
    keys: Map<Seq<u8>, Seq<T>>,
    order: Seq<usize>,
    pos: Seq<int>,
    s: Seq<u8>,
)
    requires
        tree_wf(nodes, paths, parents, keys),
        order_wf(nodes, paths, order, pos),
    ensures
        is_listing(keys, s, listing(keys, s)),
        tail_terminals(nodes, order, tail_pos(nodes, paths, order, s, 0)) == prefix_search(keys, s),
{
    lemma_tail_pos(nodes, paths, order, s, 0);
    let tp = tail_pos(nodes, paths, order, s, 0);
    let ks = tail_keys::<T>(paths, order, tp);
    assert forall|i: int| 0 <= i < ks.len() implies keys.contains_key(#[trigger] ks[i]) && has_prefix(ks[i], s) by {
        let p = tp[i];
        let n = order[p] as int;
        assert(ks[i] == paths[n]);
        assert(is_terminal(nodes[n]));
    }
    assert forall|k: Seq<u8>| keys.contains_key(k) && has_prefix(k, s) implies #[trigger] ks.contains(k) by {
        assert(paths.contains(k));
        let n = choose|n: int| 0 <= n < paths.len() && paths[n] == k;
        let p = pos[n];
        assert(order[p] as int == n);
        assert(included(nodes, paths, order, s, p));
        assert(tp.contains(p));
        let i = choose|i: int| 0 <= i < tp.len() && tp[i] == p;
        assert(ks[i] == k);
    }
    assert forall|i: int, j: int| 0 <= i < j < ks.len() implies lex_lt(ks[i], ks[j]) by {
        assert(tp[i] < tp[j]);
    }
    let l = listing(keys, s);
    assert(is_listing(keys, s, ks));
    assert(is_listing(keys, s, l));
    lemma_sorted_unique(ks, l);
    assert forall|i: int| 0 <= i < tp.len() implies tail_terminals(nodes, order, tp)[i] == prefix_search(keys, s)[i] by {
        let n = order[tp[i]] as int;
        assert(keys.contains_key(paths[n]));
        assert(l[i] == paths[n]);
    }
    assert(tail_terminals(nodes, order, tp) =~= prefix_search(keys, s));
}

/// What lies after position `q` for a search by the prefix `s` of the string at `q`.
proof fn lemma_after<T>(
    nodes: Seq<TrieNode<T>>,
    paths: Seq<Seq<u8>>,
    parents: Seq<int>,
    keys: Map<Seq<u8>, Seq<T>>,
    order: Seq<usize>,
    pos: Seq<int>,
    links: Seq<Option<(usize, usize)>>,
    s: Seq<u8>,
    q: int,
)
    requires
        order_wf(nodes, paths, order, pos),
        0 <= q < order.len(),
        has_prefix(paths[order[q] as int], s),
        links[order[q] as int] == link_from(nodes, paths, order, q, q + 1),
        paths[order[q] as int].len() <= usize::MAX,
    ensures
        links[order[q] as int] is None ==> tail_pos(nodes, paths, order, s, q + 1).len() == 0,
        links[order[q] as int] matches Some((d, m)) ==> ({
            let f = first_terminal_from(nodes, order, q + 1);
            &&& q < f < order.len()
            &&& order[f] == m
            &&& m < nodes.len()
            &&& pos[m as int] == f
            &&& (d >= s.len() <==> included(nodes, paths, order, s, f))
            &&& d >= s.len() ==> tail_pos(nodes, paths, order, s, q + 1) == tail_pos(nodes, paths, order, s, f)
            &&& d < s.len() ==> tail_pos(nodes, paths, order, s, q + 1).len() == 0
        }),
{
    let f = first_terminal_from(nodes, order, q + 1);
    lemma_first_terminal_bounds(nodes, order, q + 1);
    let px = paths[order[q] as int];
    if f >= order.len() {
        lemma_tail_pos_skip(nodes, paths, order, s, q + 1, order.len() as int);
    } else {
        let m = order[f] as int;
        let pm = paths[m];
        let d = lcp(px, pm);
        lemma_lcp_props(px, pm);
        assert(pos[m] == f);
        if pm.len() >= s.len() {
            lemma_lcp_at_least(px, pm, s.len());
            assert(px.take(s.len() as int) == s);
        }
        assert(d >= s.len() <==> has_prefix(pm, s));
        assert(d as usize == d);
        if has_prefix(pm, s) {
            assert(included(nodes, paths, order, s, f));
            lemma_tail_pos_skip(nodes, paths, order, s, q + 1, f);
        } else {
            assert forall|p: int| q + 1 <= p < order.len() implies !included(nodes, paths, order, s, p) by {
                if p > f && included(nodes, paths, order, s, p) {
                    let pp = paths[order[p] as int];
                    assert(lex_lt(px, pm));
                    assert(lex_lt(pm, pp));
                    lemma_interval(px, pm, pp, s);
                }
            }
            lemma_tail_pos_skip(nodes, paths, order, s, q + 1, order.len() as int);
        }
    }
}

/// Nothing before the node of the string `s` starts with `s`.
proof fn lemma_before<T>(
    nodes: Seq<TrieNode<T>>,
    paths: Seq<Seq<u8>>,
    parents: Seq<int>,
    keys: Map<Seq<u8>, Seq<T>>,
    order: Seq<usize>,
    pos: Seq<int>,
    s: Seq<u8>,
    q: int,
)
    requires
        order_wf(nodes, paths, order, pos),
        0 <= q < order.len(),
        paths[order[q] as int] == s,
    ensures
        tail_pos(nodes, paths, order, s, 0) == tail_pos(nodes, paths, order, s, q),
{
    assert forall|p: int| 0 <= p < q implies !included(nodes, paths, order, s, p) by {
        let pp = paths[order[p] as int];
        assert(lex_lt(pp, s));
        if has_prefix(pp, s) {
            if pp.len() == s.len() {
                assert(pp =~= pp.take(s.len() as int));
                lemma_lt_asym(pp, s);
            } else {
                lemma_prefix_lt(s, pp);
                lemma_lt_asym(pp, s);
            }
        }
    }
    lemma_tail_pos_skip(nodes, paths, order, s, 0, q);
}

/// The structure of a finished trie, kept behind a name.
#[verifier::opaque]
spec fn trie_ok<T>(
    nodes: Seq<TrieNode<T>>,
    paths: Seq<Seq<u8>>,
    parents: Seq<int>,
    keys: Map<Seq<u8>, Seq<T>>,
    order: Seq<usize>,
    pos: Seq<int>,
    links: Seq<Option<(usize, usize)>>,
) -> bool {
    trie_wf(nodes, paths, parents, keys, order, pos, links)
}

proof fn lemma_search_ok<T>(
    nodes: Seq<TrieNode<T>>,
    paths: Seq<Seq<u8>>,
    parents: Seq<int>,
    keys: Map<Seq<u8>, Seq<T>>,
    order: Seq<usize>,
    pos: Seq<int>,
    links: Seq<Option<(usize, usize)>>,
    s: Seq<u8>,
)
    requires
        trie_ok(nodes, paths, parents, keys, order, pos, links),
    ensures
        is_listing(keys, s, listing(keys, s)),
        tail_terminals(nodes, order, tail_pos(nodes, paths, order, s, 0)) == prefix_search(keys, s),
{
    reveal(trie_ok);
    lemma_tail_is_search(nodes, paths, parents, keys, order, pos, s);
}

proof fn lemma_root<T>(
    nodes: Seq<TrieNode<T>>,
    paths: Seq<Seq<u8>>,
    parents: Seq<int>,
    keys: Map<Seq<u8>, Seq<T>>,
    order: Seq<usize>,
    pos: Seq<int>,
    links: Seq<Option<(usize, usize)>>,
)
    requires
        trie_ok(nodes, paths, parents, keys, order, pos, links),
    ensures
        nodes.len() >= 1,
        paths[0] == Seq::<u8>::empty(),
{
    reveal(trie_ok);
}

proof fn lemma_child_ok<T>(
    nodes: Seq<TrieNode<T>>,
    paths: Seq<Seq<u8>>,
    parents: Seq<int>,
    keys: Map<Seq<u8>, Seq<T>>,
    order: Seq<usize>,
    pos: Seq<int>,
    links: Seq<Option<(usize, usize)>>,
    n: int,
    b: int,
)
    requires
        trie_ok(nodes, paths, parents, keys, order, pos, links),
        0 <= n < nodes.len(),
        0 <= b < 256,
    ensures
        b < nodes[n].children@.len() && nodes[n].children@[b] != ABSENT ==> nodes[n].children@[b] < nodes.len()
            && paths[nodes[n].children@[b] as int] == paths[n].push(b as u8),
{
    reveal(trie_ok);
    if b < nodes[n].children@.len() {
        assert(nodes[n].children@[b] == nodes[n].children@[b]);
    }
}

/// A missing child slot on the way down means that no key starts with `s`.
proof fn lemma_no_child<T>(
    nodes: Seq<TrieNode<T>>,
    paths: Seq<Seq<u8>>,
    parents: Seq<int>,
    keys: Map<Seq<u8>, Seq<T>>,
    order: Seq<usize>,
    pos: Seq<int>,
    links: Seq<Option<(usize, usize)>>,
    current: int,
    i: int,
    sb: Seq<u8>,
)
    requires
        trie_ok(nodes, paths, parents, keys, order, pos, links),
        0 <= current < nodes.len(),
        0 <= i < sb.len(),
        paths[current] == sb.take(i),
        !(sb[i] < nodes[current].children@.len() && nodes[current].children@[sb[i] as int] != ABSENT),
    ensures
        tail_pos(nodes, paths, order, sb, 0).len() == 0,
{
    reveal(trie_ok);
    lemma_tail_pos(nodes, paths, order, sb, 0);
    let tp = tail_pos(nodes, paths, order, sb, 0);
    if tp.len() > 0 {
        let n = order[tp[0]] as int;
        assert(has_prefix(paths[n], sb));
        assert(paths[n].take(i) =~= sb.take(i)) by {
            assert forall|t: int| 0 <= t < i implies #[trigger] paths[n].take(i)[t] == sb.take(i)[t] by {
                assert(paths[n].take(sb.len() as int)[t] == paths[n][t]);
            }
        }
        assert(has_prefix(paths[n], paths[current]));
        assert(paths[n][i] == sb[i]) by {
            assert(paths[n].take(sb.len() as int)[i] == paths[n][i]);
        }
        lemma_child_slot(nodes, paths, parents, keys, current, n);
    }
}

/// The facts about a finished trie that searches rely on.
proof fn lemma_unpack<T>(
    nodes: Seq<TrieNode<T>>,
    paths: Seq<Seq<u8>>,
    parents: Seq<int>,
    keys: Map<Seq<u8>, Seq<T>>,
    order: Seq<usize>,
    pos: Seq<int>,
    links: Seq<Option<(usize, usize)>>,
)
    requires
        trie_ok(nodes, paths, parents, keys, order, pos, links),
    ensures
        order_wf(nodes, paths, order, pos),
        links.len() == nodes.len(),
        nodes.len() <= usize::MAX,
        forall|i: int| 0 <= i < order.len() ==> #[trigger] links[order[i] as int]
            == link_from(nodes, paths, order, i, i + 1),
        forall|n: int| 0 <= n < nodes.len() ==> (#[trigger] paths[n]).len() <= n,
{
    reveal(trie_ok);
    assert forall|n: int| 0 <= n < nodes.len() implies (#[trigger] paths[n]).len() <= n by {
        assert(nodes[n].depth == paths[n].len());
    }
}

/// Where a search continues from the node of the string `sb` itself.
proof fn lemma_descend_end<T>(
    nodes: Seq<TrieNode<T>>,
    paths: Seq<Seq<u8>>,
    parents: Seq<int>,
    keys: Map<Seq<u8>, Seq<T>>,
    order: Seq<usize>,
    pos: Seq<int>,
    links: Seq<Option<(usize, usize)>>,
    current: int,
    sb: Seq<u8>,
)
    requires
        trie_ok(nodes, paths, parents, keys, order, pos, links),
        0 <= current < nodes.len(),
        paths[current] == sb,
    ensures
        links.len() == nodes.len(),
        nodes[current].terminals@.len() > 0 ==> included(nodes, paths, order, sb, pos[current])
            && tail_pos(nodes, paths, order, sb, 0) == tail_pos(nodes, paths, order, sb, pos[current]),
        nodes[current].terminals@.len() == 0 ==> match links[current] {
            None => tail_pos(nodes, paths, order, sb, 0).len() == 0,
            Some((d, m)) => {
                &&& d < sb.len() ==> tail_pos(nodes, paths, order, sb, 0).len() == 0
                &&& d >= sb.len() ==> m < nodes.len() && included(nodes, paths, order, sb, pos[m as int])
                    && tail_pos(nodes, paths, order, sb, 0) == tail_pos(nodes, paths, order, sb, pos[m as int])
            },
        },
{
    lemma_unpack(nodes, paths, parents, keys, order, pos, links);
    let q = pos[current];
    assert(order[q] == current);
    lemma_before(nodes, paths, parents, keys, order, pos, sb, q);
    assert(has_prefix(paths[order[q] as int], sb)) by {
        assert(sb.take(sb.len() as int) =~= sb);
    }
    if nodes[current].terminals@.len() == 0 {
        assert(links[order[q] as int] == link_from(nodes, paths, order, q, q + 1));
        assert(paths[current].len() <= current);
        lemma_after(nodes, paths, parents, keys, order, pos, links, sb, q);
        assert(!included(nodes, paths, order, sb, q));
        lemma_tail_pos_skip(nodes, paths, order, sb, q, q + 1);
    }
}

/// One step of a cursor.
proof fn lemma_cursor_step<T>(
    nodes: Seq<TrieNode<T>>,
    paths: Seq<Seq<u8>>,
    parents: Seq<int>,
    keys: Map<Seq<u8>, Seq<T>>,
    order: Seq<usize>,
    pos: Seq<int>,
    links: Seq<Option<(usize, usize)>>,
    node: int,
    s: Seq<u8>,
)
    requires
        trie_ok(nodes, paths, parents, keys, order, pos, links),
        0 <= node < nodes.len(),
        included(nodes, paths, order, s, pos[node]),
    ensures
        links.len() == nodes.len(),
        ({
            let rest = tail_terminals(nodes, order, tail_pos(nodes, paths, order, s, pos[node]));
            &&& rest.len() >= 1
            &&& rest[0] == nodes[node].terminals@
            &&& match links[node] {
                None => rest.len() == 1,
                Some((d, m)) => {
                    &&& d < s.len() ==> rest.len() == 1
                    &&& d >= s.len() ==> m < nodes.len() && included(nodes, paths, order, s, pos[m as int])
                        && tail_terminals(nodes, order, tail_pos(nodes, paths, order, s, pos[m as int])) == rest.drop_first()
                        && rest.len() > 1
                },
            }
        }),
{
    lemma_unpack(nodes, paths, parents, keys, order, pos, links);
    let q = pos[node];
    assert(order[q] == node);
    lemma_tail_pos(nodes, paths, order, s, q);
    let tp = tail_pos(nodes, paths, order, s, q);
    assert(tp == seq![q] + tail_pos(nodes, paths, order, s, q + 1));
    assert(tp.drop_first() =~= tail_pos(nodes, paths, order, s, q + 1));
    assert(tail_terminals(nodes, order, tp).drop_first() =~= tail_terminals(nodes, order, tp.drop_first()));
    assert(links[order[q] as int] == link_from(nodes, paths, order, q, q + 1));
    assert(paths[node].len() <= node);
    assert(order[q] < nodes.len());
    lemma_after(nodes, paths, parents, keys, order, pos, links, s, q);
    if let Some((d, m)) = links[node] {
        if d >= s.len() {
            let f = pos[m as int];
            assert(tail_pos(nodes, paths, order, s, f) == seq![f] + tail_pos(nodes, paths, order, s, f + 1));
        }
    }
}

proof fn lemma_first_terminal_bounds<T>(nodes: Seq<TrieNode<T>>, order: Seq<usize>, j: int)
    requires
        0 <= j <= order.len(),
    ensures
        j <= first_terminal_from(nodes, order, j) <= order.len(),
        first_terminal_from(nodes, order, j) < order.len() ==> is_terminal(nodes[order[first_terminal_from(nodes, order, j)] as int]),
        forall|k: int| j <= k < first_terminal_from(nodes, order, j) ==> !is_terminal(#[trigger] nodes[order[k] as int]),
    decreases order.len() - j,
{
    if j >= order.len() {
    } else if is_terminal(nodes[order[j] as int]) {
        assert(first_terminal_from(nodes, order, j) == j);
    } else {
        lemma_first_terminal_bounds(nodes, order, j + 1);
    }
}

/// The included positions from `p` on are the last ones of those from `j` on, for `j <= p`.
proof fn lemma_tail_pos_suffix<T>(nodes: Seq<TrieNode<T>>, paths: Seq<Seq<u8>>, order: Seq<usize>, s: Seq<u8>, j: int, p: int)
    requires
        0 <= j <= p,
    ensures
        tail_pos(nodes, paths, order, s, p).len() <= tail_pos(nodes, paths, order, s, j).len(),
        tail_pos(nodes, paths, order, s, j).skip(
            tail_pos(nodes, paths, order, s, j).len() - tail_pos(nodes, paths, order, s, p).len(),
        ) == tail_pos(nodes, paths, order, s, p),
    decreases p - j,
{
    let tj = tail_pos(nodes, paths, order, s, j);
    let tp = tail_pos(nodes, paths, order, s, p);
    if j == p {
        assert(tj.skip(0) =~= tj);
    } else if j >= order.len() {
        assert(tj.len() == 0);
        assert(tp.len() == 0);
        assert(tj.skip(0) =~= tp);
    } else {
        lemma_tail_pos_suffix(nodes, paths, order, s, j + 1, p);
        let tn = tail_pos(nodes, paths, order, s, j + 1);
        if included(nodes, paths, order, s, j) {
            assert(tj == seq![j] + tn);
            assert(tj.skip(tj.len() - tp.len()) =~= tn.skip(tn.len() - tp.len()));
        } else {
            assert(tj == tn);
        }
    }
}

/// A cursor on position `p` of the order has, as what is left of the search, the search
/// without its first `index` entries; `index` is below the number of keys searched.
proof fn lemma_cursor_index<T>(
    nodes: Seq<TrieNode<T>>,
    paths: Seq<Seq<u8>>,
    parents: Seq<int>,
    keys: Map<Seq<u8>, Seq<T>>,
    order: Seq<usize>,
    pos: Seq<int>,
    links: Seq<Option<(usize, usize)>>,
    node: int,
    s: Seq<u8>,
)
    requires
        trie_ok(nodes, paths, parents, keys, order, pos, links),
        0 <= node < nodes.len(),
        included(nodes, paths, order, s, pos[node]),
    ensures
        ({
            let rest = tail_terminals(nodes, order, tail_pos(nodes, paths, order, s, pos[node]));
            let found = prefix_search(keys, s);
            let index = found.len() - rest.len();
            &&& is_listing(keys, s, listing(keys, s))
            &&& found.len() == listing(keys, s).len()
            &&& 0 <= index < found.len()
            &&& rest == found.skip(index)
        }),
{
    lemma_cursor_step(nodes, paths, parents, keys, order, pos, links, node, s);
    lemma_search_ok(nodes, paths, parents, keys, order, pos, links, s);
    let p = pos[node];
    let tp = tail_pos(nodes, paths, order, s, p);
    assert(tp.len() >= 1);
    assert(p >= 0);
    lemma_tail_pos_suffix(nodes, paths, order, s, 0, p);
    let t0 = tail_pos(nodes, paths, order, s, 0);
    let d = t0.len() - tp.len();
    assert(tail_terminals(nodes, order, t0.skip(d)) =~= tail_terminals(nodes, order, t0).skip(d));
}

/// In a listing by increasing order, the key at `i` has a greater key with the same prefix
/// exactly when it is not the last, and then the next one is the least of them.
proof fn lemma_listing_successor<V>(m: Map<Seq<u8>, V>, s: Seq<u8>, ks: Seq<Seq<u8>>, i: int)
    requires
        is_listing(m, s, ks),
        0 <= i < ks.len(),
    ensures
        (i + 1 < ks.len()) == (exists|k: Seq<u8>| m.contains_key(k) && has_prefix(k, s) && #[trigger] lex_lt(ks[i], k)),
        i + 1 < ks.len() ==> lex_lt(ks[i], ks[i + 1]),
        i + 1 < ks.len() ==> forall|k: Seq<u8>|
            m.contains_key(k) && has_prefix(k, s) && #[trigger] lex_lt(ks[i], k) ==> !lex_lt(k, ks[i + 1]),
{
    if i + 1 < ks.len() {
        assert(m.contains_key(ks[i + 1]) && has_prefix(ks[i + 1], s) && lex_lt(ks[i], ks[i + 1]));
        assert forall|k: Seq<u8>| m.contains_key(k) && has_prefix(k, s) && #[trigger] lex_lt(ks[i], k) implies !lex_lt(k, ks[i + 1]) by {
            assert(ks.contains(k));
            let j = choose|j: int| 0 <= j < ks.len() && ks[j] == k;
            if j <= i {
                if j < i {
                    lemma_lt_asym(ks[j], ks[i]);
                } else {
                    lemma_lt_asym(ks[i], k);
                }
            } else if j > i + 1 {
                lemma_lt_asym(ks[i + 1], ks[j]);
            } else {
                if lex_lt(k, ks[i + 1]) {
                    lemma_lt_asym(k, ks[i + 1]);
                }
            }
        }
    } else {
        assert forall|k: Seq<u8>| m.contains_key(k) && has_prefix(k, s) implies !#[trigger] lex_lt(ks[i], k) by {
            assert(ks.contains(k));
            let j = choose|j: int| 0 <= j < ks.len() && ks[j] == k;
            if lex_lt(ks[i], k) {
                if j < i {
                    lemma_lt_asym(ks[j], ks[i]);
                } else {
                    lemma_lt_asym(ks[i], k);
                }
            }
        }
    }
}

/// A trie of byte strings: terminals are found by prefix, in the order of their keywords.
pub struct Trie<T> {
    nodes: Vec<TrieNode<T>>,
    links: Vec<Option<(usize, usize)>>,
    paths: Ghost<Seq<Seq<u8>>>,
    parents: Ghost<Seq<int>>,
    keys: Ghost<Map<Seq<u8>, Seq<T>>>,
    order: Ghost<Seq<usize>>,
    pos: Ghost<Seq<int>>,
}

impl<T> Trie<T> {
    #[verifier::type_invariant]
    spec fn inv(self) -> bool {
        trie_ok(self.nodes@, self.paths@, self.parents@, self.keys@, self.order@, self.pos@, self.links@)
    }

    /// The keywords, each with the terminals added under it, in order.
    pub closed spec fn view(&self) -> Map<Seq<u8>, Seq<T>> {
        self.keys@
    }
}

impl<T> Trie<T> {
    /// Finds the first terminal node under `s`: a cursor over the search for the prefix `s`.
    pub fn descend<'a>(&'a self, s: &str) -> (r: Option<Cursor<'a, T>>)
        ensures
            is_listing(self@, s.spec_bytes(), listing(self@, s.spec_bytes())),
            match r {
                None => prefix_search(self@, s.spec_bytes()).len() == 0,
                Some(c) => c.rest() == prefix_search(self@, s.spec_bytes()) && c.trie_map() == self@ && c.prefix()
                    == s.spec_bytes() && c.index() == 0,
            },
    {
        proof { use_type_invariant(self); }
        let ghost nodes = self.nodes@;
        let ghost paths = self.paths@;
        let ghost order = self.order@;
        let ghost pos = self.pos@;
        let ghost sb = s.spec_bytes();
        proof {
            lemma_search_ok(nodes, paths, self.parents@, self.keys@, order, pos, self.links@, sb);
        }
        let bytes = s.as_bytes();
        let mut current: usize = 0;
        let mut i: usize = 0;
        proof {
            lemma_root(nodes, paths, self.parents@, self.keys@, order, pos, self.links@);
            assert(sb.take(0) =~= Seq::<u8>::empty());
        }
        while i < bytes.len()
            invariant
                trie_ok(nodes, paths, self.parents@, self.keys@, order, pos, self.links@),
                is_listing(self@, sb, listing(self@, sb)),
                tail_terminals(nodes, order, tail_pos(nodes, paths, order, sb, 0)) == prefix_search(self@, sb),
                nodes == self.nodes@,
                paths == self.paths@,
                order == self.order@,
                pos == self.pos@,
                bytes@ == sb,
                sb == s.spec_bytes(),
                i <= bytes@.len(),
                current < nodes.len(),
                paths[current as int] == sb.take(i as int),
            decreases bytes@.len() - i,
        {
            let ord = bytes[i] as usize;
            proof {
                lemma_child_ok(nodes, paths, self.parents@, self.keys@, order, pos, self.links@, current as int, ord as int);
            }
            if ord < self.nodes[current].children.len() && self.nodes[current].children[ord] != ABSENT {
                current = self.nodes[current].children[ord];
                proof {
                    assert(sb.take(i as int).push(sb[i as int]) =~= sb.take(i + 1));
                }
                i += 1;
            } else {
                proof {
                    lemma_no_child(nodes, paths, self.parents@, self.keys@, order, pos, self.links@, current as int, i as int, sb);
                }
                return None;
            }
        }
        proof {
            assert(sb.take(i as int) =~= sb);
            lemma_descend_end(nodes, paths, self.parents@, self.keys@, order, pos, self.links@, current as int, sb);
        }
        if self.nodes[current].terminals.len() == 0 {
            match self.links[current] {
                None => {
                    return None;
                },
                Some((depth, next)) => {
                    if depth < bytes.len() {
                        return None;
                    }
                    current = next;
                },
            }
        }
        Some(Cursor {
            parent: self,
            node_id: current,
            depth_cutoff: bytes.len(),
            prefix: Ghost(sb),
        })
    }

    /// Iterates, for each keyword that starts with `s`, by increasing order, over the terminals
    /// stored under it.
    pub fn iter<'a>(&'a self, s: &str) -> (r: TrieIterator<'a, T>)
        ensures
            is_listing(self@, s.spec_bytes(), listing(self@, s.spec_bytes())),
            r.remaining() == prefix_search(self@, s.spec_bytes()),
    {
        TrieIterator::new(self.descend(s))
    }
}

/// A position in a search: a terminal node whose keyword starts with the searched prefix.
pub struct Cursor<'a, T> {
    parent: &'a Trie<T>,
    node_id: usize,
    depth_cutoff: usize,
    prefix: Ghost<Seq<u8>>,
}

impl<'a, T> Cursor<'a, T> {
    #[verifier::type_invariant]
    spec fn inv(self) -> bool {
        let t = self.parent;
        &&& trie_ok(t.nodes@, t.paths@, t.parents@, t.keys@, t.order@, t.pos@, t.links@)
        &&& self.node_id < t.nodes@.len()
        &&& self.depth_cutoff == self.prefix@.len()
        &&& included(t.nodes@, t.paths@, t.order@, self.prefix@, t.pos@[self.node_id as int])
    }

    /// The terminal lists left in the search, the current one first.
    pub closed spec fn rest(self) -> Seq<Seq<T>> {
        let t = self.parent;
        tail_terminals(t.nodes@, t.order@, tail_pos(t.nodes@, t.paths@, t.order@, self.prefix@, t.pos@[self.node_id as int]))
    }

    /// The keywords of the searched trie, each with its terminals.
    pub closed spec fn trie_map(self) -> Map<Seq<u8>, Seq<T>> {
        self.parent.keys@
    }

    /// The prefix searched for.
    pub closed spec fn prefix(self) -> Seq<u8> {
        self.prefix@
    }

    /// How many keywords of the search come before the current one.
    pub open spec fn index(self) -> int {
        prefix_search(self.trie_map(), self.prefix()).len() - self.rest().len()
    }

    /// The keyword of the current node.
    pub open spec fn key(self) -> Seq<u8> {
        listing(self.trie_map(), self.prefix())[self.index()]
    }

    /// Moves to the next terminal node of the search; false, staying put, if there is none.
    pub fn next(&mut self) -> (r: bool)
        ensures
            old(self).rest().len() >= 1,
            r == (old(self).rest().len() > 1),
            r ==> final(self).rest() == old(self).rest().drop_first(),
            !r ==> final(self).rest() == old(self).rest(),
            final(self).trie_map() == old(self).trie_map(),
            final(self).prefix() == old(self).prefix(),
            r == exists|k: Seq<u8>|
                old(self).trie_map().contains_key(k) && has_prefix(k, old(self).prefix()) && #[trigger] lex_lt(old(self).key(), k),
            r ==> final(self).index() == old(self).index() + 1 && lex_lt(old(self).key(), final(self).key()),
            r ==> forall|k: Seq<u8>|
                old(self).trie_map().contains_key(k) && has_prefix(k, old(self).prefix()) && #[trigger] lex_lt(old(self).key(), k)
                    ==> !lex_lt(k, final(self).key()),
            !r ==> final(self).index() == old(self).index(),
    {
        proof { use_type_invariant(&*self); }
        let t = self.parent;
        proof {
            lemma_cursor_step(t.nodes@, t.paths@, t.parents@, t.keys@, t.order@, t.pos@, t.links@, self.node_id as int, self.prefix@);
            lemma_cursor_index(t.nodes@, t.paths@, t.parents@, t.keys@, t.order@, t.pos@, t.links@, self.node_id as int, self.prefix@);
            lemma_listing_successor(t.keys@, self.prefix@, listing(t.keys@, self.prefix@), self.index());
            assert((self.index() + 1 < listing(t.keys@, self.prefix@).len()) == (self.rest().len() > 1));
            assert(self.trie_map() == t.keys@);
            assert(self.prefix() == self.prefix@);
            assert(self.key() == listing(t.keys@, self.prefix@)[self.index()]);
            assert((self.rest().len() > 1) == exists|k: Seq<u8>|
                self.trie_map().contains_key(k) && has_prefix(k, self.prefix()) && #[trigger] lex_lt(self.key(), k));
        }
        match t.links[self.node_id] {
            None => false,
            Some((depth, next)) => {
                if depth < self.depth_cutoff {
                    false
                } else {
                    self.node_id = next;
                    true
                }
            },
        }
    }

    /// The terminals of the current node: the first entry of `rest`.
    pub fn terminals(&self) -> (r: &'a Vec<T>)
        ensures
            self.rest().len() >= 1,
            r@ == self.rest()[0],
            0 <= self.index() < listing(self.trie_map(), self.prefix()).len(),
            self.trie_map().contains_key(self.key()),
            has_prefix(self.key(), self.prefix()),
            r@ == self.trie_map()[self.key()],
    {
        proof {
            use_type_invariant(self);
            let t = self.parent;
            lemma_cursor_step(t.nodes@, t.paths@, t.parents@, t.keys@, t.order@, t.pos@, t.links@, self.node_id as int, self.prefix@);
            lemma_cursor_index(t.nodes@, t.paths@, t.parents@, t.keys@, t.order@, t.pos@, t.links@, self.node_id as int, self.prefix@);
            assert(self.rest()[0] == prefix_search(t.keys@, self.prefix@)[self.index()]);
        }
        &self.parent.nodes[self.node_id].terminals
    }
}

/// Iterates over the terminal lists of a search.
pub struct TrieIterator<'a, T> {
    cursor: Option<Cursor<'a, T>>,
}

impl<'a, T> TrieIterator<'a, T> {
    /// The terminal lists not yet returned.
    pub closed spec fn remaining(self) -> Seq<Seq<T>> {
        match self.cursor {
            None => Seq::empty(),
            Some(c) => c.rest(),
        }
    }

    fn new(cursor: Option<Cursor<'a, T>>) -> (r: TrieIterator<'a, T>)
        ensures
            r.remaining() == match cursor {
                None => Seq::<Seq<T>>::empty(),
                Some(c) => c.rest(),
            },
    {
        TrieIterator { cursor }
    }

    /// Returns the next terminal list, or `None` once all have been returned.
    pub fn next(&mut self) -> (r: Option<&'a Vec<T>>)
        ensures
            old(self).remaining().len() == 0 ==> r is None && final(self).remaining().len() == 0,
            old(self).remaining().len() > 0 ==> (r matches Some(v) && v@ == old(self).remaining()[0]
                && final(self).remaining() == old(self).remaining().drop_first()),
    {
        let cursor = self.cursor.take();
        match cursor {
            None => None,
            Some(mut c) => {
                let current = c.terminals();
                if c.next() {
                    self.cursor = Some(c);
                } else {
                    proof {
                        assert(c.rest().drop_first().len() == 0);
                    }
                }
                proof {
                    assert(self.remaining() =~= old(self).remaining().drop_first());
                }
                Some(current)
            },
        }
    }
}

} // verus!
