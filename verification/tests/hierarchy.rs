use snippets::snippets::hierarchy::Hierarchy;
use snippets::ui::tree_adapter::TreeAdapter;
use snippets::ui::widgets::tree_view::{convert_tree_to_list, Tree, TreeView};

fn path(names: &[&str]) -> Vec<String> {
    names.iter().map(|n| n.to_string()).collect()
}

#[test]
fn snippets_land_in_their_folders() {
    let mut hierarchy = Hierarchy::new();
    hierarchy.add_snippet(0, &path(&["a", "b"]));
    hierarchy.add_snippet(1, &path(&["a"]));
    hierarchy.add_snippet(2, &path(&[]));
    hierarchy.add_snippet(3, &path(&["a", "b"]));

    let root = hierarchy.root();
    assert_eq!(&vec![2], root.snippets());
    assert_eq!(1, root.subfolders().len());
    let (name, a) = &root.subfolders()[0];
    assert_eq!("a", name);
    assert_eq!(&vec![1], a.snippets());
    let (name, b) = &a.subfolders()[0];
    assert_eq!("b", name);
    assert_eq!(&vec![0, 3], b.snippets());
}

#[test]
fn subfolders_keep_the_order_they_were_made_in() {
    let mut hierarchy = Hierarchy::new();
    hierarchy.add_snippet(0, &path(&["z"]));
    hierarchy.add_snippet(1, &path(&["a"]));
    hierarchy.add_snippet(2, &path(&["z"]));

    let names: Vec<&str> = hierarchy.root().subfolders().iter().map(|(n, _)| n.as_str()).collect();
    assert_eq!(vec!["z", "a"], names);
}

#[test]
fn tree_outline_lists_folders_depth_first() {
    let mut hierarchy = Hierarchy::new();
    hierarchy.add_snippet(0, &path(&["lang", "rust"]));
    hierarchy.add_snippet(1, &path(&["lang", "python"]));
    hierarchy.add_snippet(2, &path(&["tools"]));
    hierarchy.add_snippet(3, &path(&["lang", "rust", "async"]));

    let adapter = TreeAdapter::new(&hierarchy);
    assert_eq!(vec!["lang", " rust", "  async", " python", "tools"], convert_tree_to_list(&adapter));
}

#[test]
fn tree_adapter_names_children() {
    let mut hierarchy = Hierarchy::new();
    hierarchy.add_snippet(0, &path(&["x", "y"]));

    let adapter = TreeAdapter::new(&hierarchy);
    let root = adapter.root();
    assert_eq!("", adapter.caption(&root));
    let children = adapter.children(&root);
    assert_eq!(1, children.len());
    assert_eq!("x", adapter.caption(&children[0]));
    let grandchildren = adapter.children(&children[0]);
    assert_eq!("y", adapter.caption(&grandchildren[0]));
    assert!(adapter.children(&grandchildren[0]).is_empty());
}

#[test]
fn empty_hierarchy_has_no_outline() {
    let hierarchy = Hierarchy::new();
    let adapter = TreeAdapter::new(&hierarchy);
    assert!(convert_tree_to_list(&adapter).is_empty());
}

#[test]
fn tree_view_lists_the_outline() {
    let mut hierarchy = Hierarchy::new();
    hierarchy.add_snippet(0, &path(&["a", "b"]));
    hierarchy.add_snippet(1, &path(&["c"]));

    let adapter = TreeAdapter::new(&hierarchy);
    let view = TreeView::new(&adapter);
    assert_eq!(vec!["a", " b", "c"], view.lines());
}
