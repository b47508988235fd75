use itertools::Itertools;
use snippets::util::trie::Builder;

fn permutations<T: Clone>(items: Vec<T>) -> Vec<Vec<T>> {
    let size = items.len();
    items.into_iter().permutations(size).collect()
}

fn build(pairs: &[(&str, i32)]) -> snippets::util::trie::Trie<i32> {
    let mut builder = Builder::new();
    for (keyword, terminal) in pairs.iter() {
        builder.add(keyword, *terminal);
    }
    builder.finalize()
}

#[test]
fn cursor_single_terminal() {
    let trie = build(&[("a", 1)]);
    let cursor = trie.descend("a").unwrap();
    let terminals = cursor.terminals();
    assert_eq!(terminals.len(), 1);
    assert_eq!(terminals[0], 1);
}

#[test]
fn cursor_two_terminals_in_same_node() {
    let trie = build(&[("a", 1), ("a", 2)]);
    let mut cursor = trie.descend("a").unwrap();
    let terminals = cursor.terminals();
    assert_eq!(terminals.len(), 2);
    assert_eq!(terminals[0], 1);
    assert_eq!(terminals[1], 2);
    assert!(!cursor.next());
}

#[test]
fn cursor_two_terminals_in_separate_nodes_a_b_descend_a() {
    for permutation in permutations(vec![("a", 1), ("b", 2)]) {
        let trie = build(&permutation);
        let mut cursor = trie.descend("a").unwrap();
        let terminals = cursor.terminals();
        assert_eq!(terminals.len(), 1);
        assert_eq!(terminals[0], 1);
        assert!(!cursor.next());
    }
}

#[test]
fn cursor_two_terminals_in_separate_nodes_descend_b() {
    for permutation in permutations(vec![("a", 1), ("b", 2)]) {
        let trie = build(&permutation);
        let mut cursor = trie.descend("b").unwrap();
        let terminals = cursor.terminals();
        assert_eq!(terminals.len(), 1);
        assert_eq!(terminals[0], 2);
        assert!(!cursor.next());
    }
}

#[test]
fn cursor_descend_to_nonterminal() {
    let trie = build(&[("aa", 1)]);
    let mut cursor = trie.descend("a").unwrap();
    let terminals = cursor.terminals();
    assert_eq!(terminals.len(), 1);
    assert_eq!(terminals[0], 1);
    assert!(!cursor.next());
}

#[test]
fn cursor_next_three_terminals_descend_a() {
    for permutation in permutations(vec![("aa", 1), ("aab", 2), ("aac", 3)]) {
        let trie = build(&permutation);
        let mut cursor = trie.descend("a").unwrap();
        assert_eq!(cursor.terminals().len(), 1);
        assert_eq!(cursor.terminals()[0], 1);
        assert!(cursor.next());
        assert_eq!(cursor.terminals().len(), 1);
        assert_eq!(cursor.terminals()[0], 2);
        assert!(cursor.next());
        assert_eq!(cursor.terminals().len(), 1);
        assert_eq!(cursor.terminals()[0], 3);
        assert!(!cursor.next());
    }
}

#[test]
fn cursor_next() {
    for permutation in permutations(vec![("aa", 1), ("aab", 2), ("aac", 3)]) {
        let trie = build(&permutation);
        let mut cursor = trie.descend("aa").unwrap();
        assert_eq!(cursor.terminals().len(), 1);
        assert_eq!(cursor.terminals()[0], 1);
        assert!(cursor.next());
        assert_eq!(cursor.terminals().len(), 1);
        assert_eq!(cursor.terminals()[0], 2);
        assert!(cursor.next());
        assert_eq!(cursor.terminals().len(), 1);
        assert_eq!(cursor.terminals()[0], 3);
        assert!(!cursor.next());
    }
}

#[test]
fn iterating_aa_aab_at_a() {
    for permutation in permutations(vec![("aa", 1), ("aab", 2)]) {
        let trie = build(&permutation);
        let mut iter = trie.iter("a");
        assert_eq!(iter.next(), Some(&vec![1]));
        assert_eq!(iter.next(), Some(&vec![2]));
        assert_eq!(iter.next(), None);
    }
}

#[test]
fn iterating_aa_aab_at_b() {
    for permutation in permutations(vec![("aa", 1), ("aab", 2)]) {
        let trie = build(&permutation);
        let mut iter = trie.iter("b");
        assert_eq!(iter.next(), None);
    }
}

#[test]
fn iterating_aa_aab_aac_at_a() {
    for permutation in permutations(vec![("aa", 1), ("aab", 2), ("aac", 3)]) {
        let trie = build(&permutation);
        let mut iter = trie.iter("a");
        assert_eq!(iter.next(), Some(&vec![1]));
        assert_eq!(iter.next(), Some(&vec![2]));
        assert_eq!(iter.next(), Some(&vec![3]));
        assert_eq!(iter.next(), None);
    }
}

#[test]
fn iterating_aa_aab_aac_at_b() {
    for permutation in permutations(vec![("aa", 1), ("aab", 2), ("aac", 3)]) {
        let trie = build(&permutation);
        let mut iter = trie.iter("b");
        assert_eq!(iter.next(), None);
    }
}

#[test]
fn iterating_aa_ab_c_at_a() {
    for permutation in permutations(vec![("aa", 1), ("ab", 2), ("b", 3)]) {
        let trie = build(&permutation);
        let mut iter = trie.iter("a");
        assert_eq!(iter.next(), Some(&vec![1]));
        assert_eq!(iter.next(), Some(&vec![2]));
        assert_eq!(iter.next(), None);
    }
}

#[test]
fn iterating_4() {
    for permutation in permutations(vec![("aa", 1), ("aab", 2), ("aac", 3), ("ab", 4)]) {
        let trie = build(&permutation);
        let mut iter = trie.iter("a");
        assert_eq!(iter.next(), Some(&vec![1]));
        assert_eq!(iter.next(), Some(&vec![2]));
        assert_eq!(iter.next(), Some(&vec![3]));
        assert_eq!(iter.next(), Some(&vec![4]));
        assert_eq!(iter.next(), None);
    }
}

#[test]
fn iterating_with_cutoff() {
    let trie = build(&[("aa", 1), ("aab", 2), ("aac", 3), ("bb", 4)]);
    let mut iter = trie.iter("aa");
    assert_eq!(iter.next(), Some(&vec![1]));
    assert_eq!(iter.next(), Some(&vec![2]));
    assert_eq!(iter.next(), Some(&vec![3]));
    assert_eq!(iter.next(), None);
}

#[test]
fn iterating_same_terminal_2() {
    let trie = build(&[("ab", 1), ("xy", 1)]);
    let mut iter = trie.iter("a");
    assert_eq!(iter.next(), Some(&vec![1]));
    assert_eq!(iter.next(), None)
}

#[test]
fn iterating_same_terminal_3() {
    let trie = build(&[("a", 1), ("f", 1), ("re", 1)]);
    let mut iter = trie.iter("r");
    assert_eq!(iter.next(), Some(&vec![1]));
    assert_eq!(iter.next(), None);
}

fn same_terminal_4(keyword: &str) {
    let trie = build(&[("remove", 1), ("accents", 1), ("from", 1), ("strings", 1)]);
    let mut iter = trie.iter(keyword);
    assert_eq!(iter.next(), Some(&vec![1]));
    assert_eq!(iter.next(), None);
}

#[test]
fn iterating_same_terminal_4_r() {
    same_terminal_4("r");
}

#[test]
fn iterating_same_terminal_4_rem() {
    same_terminal_4("rem");
}

#[test]
fn iterating_same_terminal_4_remove() {
    same_terminal_4("remove");
}

#[test]
fn iterating_missing_slot_inside_child_vector() {
    // 'a' lies below the largest byte used, its slot exists but holds no node
    let trie = build(&[("b", 1)]);
    assert!(trie.descend("a").is_none());
    let mut iter = trie.iter("a");
    assert_eq!(iter.next(), None);
}

#[test]
fn iterating_empty_prefix_lists_all_keywords_in_order() {
    let trie = build(&[("b", 2), ("", 0), ("ab", 1), ("a", 3)]);
    let mut iter = trie.iter("");
    assert_eq!(iter.next(), Some(&vec![0]));
    assert_eq!(iter.next(), Some(&vec![3]));
    assert_eq!(iter.next(), Some(&vec![1]));
    assert_eq!(iter.next(), Some(&vec![2]));
    assert_eq!(iter.next(), None);
}

#[test]
fn a_cursor_moves_to_the_next_greater_keyword_with_the_prefix() {
    let trie = build(&[("b", 4), ("ab", 2), ("a", 1), ("abc", 3)]);
    let mut cursor = trie.descend("a").unwrap();

    assert_eq!(&vec![1], cursor.terminals());
    assert!(cursor.next());
    assert_eq!(&vec![2], cursor.terminals());
    assert!(cursor.next());
    assert_eq!(&vec![3], cursor.terminals());
    assert!(!cursor.next());
    assert_eq!(&vec![3], cursor.terminals());
}
