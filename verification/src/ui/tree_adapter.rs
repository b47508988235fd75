//! The folder hierarchy seen as a tree of named folders.
use vstd::prelude::*;
use crate::snippets::hierarchy::{Folder, Hierarchy};
use crate::ui::widgets::tree_view::Tree;

verus! {

/// A view of a hierarchy as a tree whose nodes are folders with their names; the root has
/// an empty name.
pub struct TreeAdapter<'a> {
    hierarchy: &'a Hierarchy,
    root_name: String,
}

impl<'a> TreeAdapter<'a> {
    /// The hierarchy seen.
    pub closed spec fn hierarchy_view(&self) -> Hierarchy {
        *self.hierarchy
    }

    /// The name of the root: empty.
    pub closed spec fn root_name_view(&self) -> String {
        self.root_name
    }

    pub fn new(hierarchy: &'a Hierarchy) -> (r: Self)
        ensures
            r.hierarchy_view() == *hierarchy,
            r.root_name_view()@ == Seq::<char>::empty(),
    {
        TreeAdapter { hierarchy, root_name: String::new() }
    }
}

/// The subfolders of a folder with their names.
pub open spec fn named_subfolders<'a>(folder: &'a Folder) -> Seq<(String, &'a Folder)> {
    Seq::new(folder.subfolder_list().len(), |i: int| (folder.subfolder_list()[i].0, &folder.subfolder_list()[i].1))
}

impl<'a> Tree for TreeAdapter<'a> {
    type Node = (String, &'a Folder);

    open spec fn root_spec(&self) -> (String, &'a Folder) {
        (self.root_name_view(), &self.hierarchy_view().root_view())
    }

    open spec fn children_spec(&self, parent: (String, &'a Folder)) -> Seq<(String, &'a Folder)> {
        named_subfolders(parent.1)
    }

    open spec fn caption_spec(&self, node: (String, &'a Folder)) -> Seq<char> {
        node.0@
    }

    open spec fn rank(&self, node: (String, &'a Folder)) -> nat {
        node.1.height()
    }

    fn root(&self) -> (r: (String, &'a Folder)) {
        (self.root_name.clone(), self.hierarchy.root())
    }

    fn children(&self, parent: &(String, &'a Folder)) -> (r: Vec<(String, &'a Folder)>) {
        let subfolders = parent.1.subfolders();
        let mut result: Vec<(String, &'a Folder)> = Vec::new();
        let mut i: usize = 0;
        while i < subfolders.len()
            invariant
                subfolders@ == parent.1.subfolder_list(),
                i <= subfolders@.len(),
                result@ == named_subfolders(parent.1).take(i as int),
            decreases subfolders@.len() - i,
        {
            let (name, subfolder) = &subfolders[i];
            result.push((name.clone(), subfolder));
            proof {
                assert(result@ =~= named_subfolders(parent.1).take(i + 1));
            }
            i += 1;
        }
        proof {
            assert(result@ =~= named_subfolders(parent.1));
            assert forall|k: int| 0 <= k < result@.len() implies self.rank(#[trigger] result@[k]) < self.rank(*parent) by {
                parent.1.lemma_subfolder_lower(k);
            }
        }
        result
    }

    fn caption<'b>(&self, node: &'b (String, &'a Folder)) -> (r: &'b str) {
        node.0.as_str()
    }
}

} // verus!
