//! Trees shown as indented outlines.
use vstd::prelude::*;
use vstd::string::StringExecFns;
use crate::document::text::push_char;

verus! {

/// A tree with a caption for each node.
///
/// Every child must have a smaller rank than its parent; this is what makes the tree finite.
pub trait Tree {
    type Node;

    /// The root.
    spec fn root_spec(&self) -> Self::Node;

    /// The children of a node, in order.
    spec fn children_spec(&self, parent: Self::Node) -> Seq<Self::Node>;

    /// The caption of a node.
    spec fn caption_spec(&self, node: Self::Node) -> Seq<char>;

    /// A measure that decreases from a node to each of its children.
    spec fn rank(&self, node: Self::Node) -> nat;

    fn root(&self) -> (r: Self::Node)
        ensures
            r == self.root_spec(),
    ;

    fn children(&self, parent: &Self::Node) -> (r: Vec<Self::Node>)
        ensures
            r@ == self.children_spec(*parent),
            forall|i: int| 0 <= i < r@.len() ==> self.rank(#[trigger] r@[i]) < self.rank(*parent),
    ;

    fn caption<'a>(&self, node: &'a Self::Node) -> (r: &'a str)
        ensures
            r@ == self.caption_spec(*node),
    ;
}

/// A view of a tree as an indented list.
pub struct TreeView<'a, T: Tree> {
    tree: &'a T,
}

impl<'a, T: Tree> TreeView<'a, T> {
    /// The tree shown.
    pub closed spec fn tree_view(&self) -> &'a T {
        self.tree
    }

    pub fn new(tree: &'a T) -> (r: Self)
        ensures
            r.tree_view() == tree,
    {
        TreeView { tree }
    }

    /// The lines of the view.
    pub fn lines(&self) -> (r: Vec<String>)
        ensures
            r@.map_values(|s: String| s@) == outline(self.tree_view(), self.tree_view().root_spec(), Seq::empty(), false),
    {
        convert_tree_to_list(self.tree)
    }
}

/// The outline of the subtree of `node`: the node's caption after `indent` if it is shown,
/// then the outlines of its children, shown, one space further in when the node is shown.
pub open spec fn outline<T: Tree>(tree: &T, node: T::Node, indent: Seq<char>, shown: bool) -> Seq<Seq<char>>
    decreases tree.rank(node), 1nat, 0nat,
{
    (if shown { seq![indent + tree.caption_spec(node)] } else { seq![] }) + outline_children(
        tree,
        node,
        tree.children_spec(node),
        if shown { indent.push(' ') } else { indent },
    )
}

/// The outlines of the children `cs` of `parent`, one after the other.
pub open spec fn outline_children<T: Tree>(tree: &T, parent: T::Node, cs: Seq<T::Node>, indent: Seq<char>) -> Seq<Seq<char>>
    decreases tree.rank(parent), 0nat, cs.len(),
{
    if cs.len() == 0 {
        seq![]
    } else if tree.rank(cs[0]) < tree.rank(parent) {
        outline(tree, cs[0], indent, true) + outline_children(tree, parent, cs.drop_first(), indent)
    } else {
        outline_children(tree, parent, cs.drop_first(), indent)
    }
}

/// Appends the outline of the subtree of `node` to `out`.
fn outline_into<T: Tree>(tree: &T, node: &T::Node, indent: &String, shown: bool, out: &mut Vec<String>)
    ensures
        final(out)@.map_values(|s: String| s@) == old(out)@.map_values(|s: String| s@) + outline(
            tree,
            *node,
            indent@,
            shown,
        ),
    decreases tree.rank(*node),
{
    let ghost start = out@.map_values(|s: String| s@);
    if shown {
        let mut line = indent.clone();
        line.append(tree.caption(node));
        out.push(line);
        proof {
            assert(out@.map_values(|s: String| s@) =~= start.push(indent@ + tree.caption_spec(*node)));
        }
    }
    let ghost head = if shown { seq![indent@ + tree.caption_spec(*node)] } else { Seq::<Seq<char>>::empty() };
    proof {
        assert(out@.map_values(|s: String| s@) =~= start + head);
    }
    let mut child_indent = indent.clone();
    if shown {
        push_char(&mut child_indent, ' ');
    }
    let children = tree.children(node);
    let ghost cs = children@;
    let mut i: usize = 0;
    proof {
        assert(cs.skip(0) =~= cs);
    }
    while i < children.len()
        invariant
            i <= children@.len(),
            cs == children@,
            cs == tree.children_spec(*node),
            forall|k: int| 0 <= k < cs.len() ==> tree.rank(#[trigger] cs[k]) < tree.rank(*node),
            child_indent@ == if shown { indent@.push(' ') } else { indent@ },
            out@.map_values(|s: String| s@) + outline_children(tree, *node, cs.skip(i as int), child_indent@) == start
                + head + outline_children(tree, *node, cs, child_indent@),
        decreases children@.len() - i,
    {
        let ghost before = out@.map_values(|s: String| s@);
        proof {
            assert(cs.skip(i as int).drop_first() =~= cs.skip(i + 1));
            assert(cs.skip(i as int)[0] == cs[i as int]);
            assert(tree.rank(cs[i as int]) < tree.rank(*node));
        }
        outline_into(tree, &children[i], &child_indent, true, out);
        proof {
            assert(outline_children(tree, *node, cs.skip(i as int), child_indent@) == outline(
                tree,
                cs[i as int],
                child_indent@,
                true,
            ) + outline_children(tree, *node, cs.skip(i + 1), child_indent@));
            assert(out@.map_values(|s: String| s@) + outline_children(tree, *node, cs.skip(i + 1), child_indent@) =~= before
                + outline_children(tree, *node, cs.skip(i as int), child_indent@));
        }
        i += 1;
    }
    proof {
        assert(cs.skip(i as int) =~= Seq::<T::Node>::empty());
        assert(out@.map_values(|s: String| s@) =~= out@.map_values(|s: String| s@) + outline_children(
            tree,
            *node,
            cs.skip(i as int),
            child_indent@,
        ));
    }
}

/// The lines of a tree view: every node below the root, in the order of a depth-first walk,
/// its caption indented by one space per level below the first.
pub fn convert_tree_to_list<T: Tree>(tree: &T) -> (r: Vec<String>)
    ensures
        r@.map_values(|s: String| s@) == outline(tree, tree.root_spec(), Seq::empty(), false),
{
    let mut lines: Vec<String> = Vec::new();
    let root = tree.root();
    let indent = String::new();
    outline_into(tree, &root, &indent, false, &mut lines);
    proof {
        assert(Seq::<String>::empty().map_values(|s: String| s@) + outline(tree, root, indent@, false)
            =~= outline(tree, root, indent@, false));
    }
    lines
}

} // verus!
