use snippets::util::tree_traversal::{euler_traversal, LinkedTree};

fn tour(tree: &LinkedTree) -> Vec<i32> {
    euler_traversal(tree).into_iter().copied().collect()
}

#[test]
fn euler_only_root() {
    let tree = LinkedTree::new(0);

    let nodes = tour(&tree);

    assert_eq!(vec![0], nodes);
}

#[test]
fn euler_a() {
    let mut tree = LinkedTree::new(0);
    tree.link(0, vec![1]);

    let nodes = tour(&tree);

    assert_eq!(vec![0, 1, 0], nodes);
}

#[test]
fn euler_aa() {
    let mut tree = LinkedTree::new(0);
    tree.link(0, vec![1]);
    tree.link(1, vec![2]);

    let nodes = tour(&tree);

    assert_eq!(vec![0, 1, 2, 1, 0], nodes);
}

#[test]
fn euler_a_b() {
    let mut tree = LinkedTree::new(0);
    tree.link(0, vec![1, 2]);

    let nodes = tour(&tree);

    assert_eq!(vec![0, 1, 0, 2, 0], nodes);
}

#[test]
fn euler_aa_ab_ba_bb() {
    let mut tree = LinkedTree::new(0);
    tree.link(0, vec![1, 2]);
    tree.link(1, vec![3, 4]);
    tree.link(2, vec![5, 6]);

    let nodes = tour(&tree);

    assert_eq!(vec![0, 1, 3, 1, 4, 1, 0, 2, 5, 2, 6, 2, 0], nodes);
}

#[test]
fn euler_tour_length_is_twice_the_edges_plus_one() {
    let mut tree = LinkedTree::new(0);
    tree.link(0, vec![1, 2, 3]);
    tree.link(3, vec![4]);

    let nodes = tour(&tree);

    assert_eq!(nodes.len(), 2 * 4 + 1);
    assert_eq!(nodes, vec![0, 1, 0, 2, 0, 3, 4, 3, 0]);
}
