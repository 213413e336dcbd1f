use mis_counter::tree::{Tree, TreeError};

fn tree(rows: Vec<Vec<usize>>) -> Tree {
    Tree::from_adjacency_list(0, rows).unwrap()
}

#[test]
fn single_node_count_is_one() {
    // root only, no children: the final count is 1
    let t = tree(vec![vec![0]]);
    assert_eq!(t.node_count(), 1);
    assert_eq!(t.count_mis(), "1");
}

#[test]
fn one_leaf_child() {
    // leaf: with = 1, without = 0; root: without = 1*1 - 1*0 = 1,
    // no grandchildren so with = 1 + 1 = 2
    let t = tree(vec![vec![0, 1]]);
    assert_eq!(t.count_mis(), "2");
}

#[test]
fn two_leaf_children() {
    // root: m = 1*1, n = 0*0, without = 1, with = 1 + 1 = 2
    let t = tree(vec![vec![0, 1, 2]]);
    assert_eq!(t.count_mis(), "2");
}

#[test]
fn chain_of_three() {
    let t = tree(vec![vec![0, 1], vec![1, 2]]);
    assert_eq!(t.count_mis(), "2");
}

#[test]
fn chain_of_five() {
    let t = tree(vec![vec![0, 1], vec![1, 2], vec![2, 3], vec![3, 4]]);
    assert_eq!(t.count_mis(), "4");
}

#[test]
fn branching_tree_count() {
    // 0 -> {1, 2}, 1 -> {3}: root's without is 2, grandchild product 1
    let t = tree(vec![vec![0, 1, 2], vec![1, 3]]);
    assert_eq!(t.count_mis(), "3");
}

#[test]
fn four_armed_tree_count_has_two_digits() {
    // root with four children, each an inner node over one leaf:
    // m = 2^4, n = 1, without = 15, grandchildren are leaves so k = 1
    let t = tree(vec![
        vec![0, 1, 2, 3, 4],
        vec![1, 5],
        vec![2, 6],
        vec![3, 7],
        vec![4, 8],
    ]);
    assert_eq!(t.count_mis(), "16");
}

#[test]
fn count_is_idempotent() {
    let t = tree(vec![vec![0, 1, 2], vec![1, 3], vec![2, 4, 5]]);
    let first = t.count_mis();
    let second = t.count_mis();
    assert_eq!(first, second);
}

#[test]
fn post_order_children_before_parent() {
    let t = tree(vec![vec![0, 1, 2], vec![1, 3]]);
    assert_eq!(t.post_order(), vec![3, 1, 2, 0]);
}

#[test]
fn post_order_follows_stored_child_order() {
    let t = tree(vec![vec![0, 2, 1]]);
    assert_eq!(t.children(0), vec![2, 1]);
    assert_eq!(t.post_order(), vec![2, 1, 0]);
}

#[test]
fn post_order_is_deterministic() {
    let t = tree(vec![vec![0, 1, 2], vec![2, 3, 4], vec![4, 5]]);
    assert_eq!(t.post_order(), t.post_order());
}

#[test]
fn children_of_absent_node_is_empty() {
    let t = tree(vec![vec![0, 1]]);
    assert_eq!(t.children(1), Vec::<usize>::new());
    assert_eq!(t.children(99), Vec::<usize>::new());
}

#[test]
fn grandchildren_concatenated_in_order() {
    let t = tree(vec![vec![0, 1, 2], vec![1, 3, 4], vec![2, 5]]);
    assert_eq!(t.grandchildren(0), vec![3, 4, 5]);
    assert_eq!(t.grandchildren(1), Vec::<usize>::new());
}

#[test]
fn nodes_are_listed_ascending() {
    let t = tree(vec![vec![2, 3], vec![0, 1, 2]]);
    let entries = t.nodes();
    assert_eq!(entries.len(), 2);
    assert_eq!(entries[0], (0, vec![1, 2]));
    assert_eq!(entries[1], (2, vec![3]));
}

#[test]
fn later_row_overwrites_earlier_parent() {
    let t = tree(vec![vec![0, 1], vec![0, 2]]);
    assert_eq!(t.children(0), vec![2]);
    assert_eq!(t.node_count(), 1);
}

#[test]
fn empty_rows_are_skipped() {
    let t = tree(vec![vec![], vec![0, 1], vec![]]);
    assert_eq!(t.children(0), vec![1]);
}

#[test]
fn nonzero_root_is_respected() {
    let t = Tree::from_adjacency_list(5, vec![vec![5, 6, 7]]).unwrap();
    assert_eq!(t.root(), 5);
    assert_eq!(t.post_order(), vec![6, 7, 5]);
}

#[test]
fn cycle_is_rejected() {
    let r = Tree::from_adjacency_list(0, vec![vec![0, 1], vec![1, 0]]);
    assert_eq!(r.unwrap_err(), TreeError::Cyclic);
}

#[test]
fn self_loop_is_rejected() {
    let r = Tree::from_adjacency_list(0, vec![vec![0, 0]]);
    assert_eq!(r.unwrap_err(), TreeError::Cyclic);
}

#[test]
fn doubly_reached_node_is_rejected() {
    let r = Tree::from_adjacency_list(0, vec![vec![0, 1, 1]]);
    assert_eq!(r.unwrap_err(), TreeError::DoubleReach);
}

#[test]
fn diamond_is_rejected() {
    let r = Tree::from_adjacency_list(0, vec![vec![0, 1, 2], vec![1, 3], vec![2, 3]]);
    assert_eq!(r.unwrap_err(), TreeError::DoubleReach);
}

#[test]
fn disconnected_entry_is_rejected() {
    let r = Tree::from_adjacency_list(0, vec![vec![0, 1], vec![5, 6]]);
    assert_eq!(r.unwrap_err(), TreeError::Disconnected);
}

#[test]
fn generated_tree_has_requested_node_count() {
    for &(n, m) in &[(1usize, 1usize), (2, 1), (10, 3), (25, 25), (40, 2)] {
        let t = Tree::generate(n, m);
        assert_eq!(t.node_count(), n);
    }
}

#[test]
fn generated_tree_respects_child_bound() {
    let t = Tree::generate(30, 4);
    for (_, children) in t.nodes() {
        assert!(children.len() <= 4);
    }
}

#[test]
fn generated_tree_is_connected_and_acyclic() {
    // every identifier except the root appears exactly once as a child
    let t = Tree::generate(20, 3);
    let mut seen = vec![0usize; 20];
    for (parent, children) in t.nodes() {
        for c in children {
            assert!(parent < c && c < 20);
            seen[c] += 1;
        }
    }
    assert_eq!(seen[0], 0);
    for c in 1..20 {
        assert_eq!(seen[c], 1);
    }
}

#[test]
fn generate_with_bound_one_yields_a_chain() {
    let t = Tree::generate(5, 1);
    for i in 0..4 {
        assert_eq!(t.children(i), vec![i + 1]);
    }
    assert_eq!(t.children(4), Vec::<usize>::new());
    assert_eq!(t.post_order(), vec![4, 3, 2, 1, 0]);
}

#[test]
fn generated_singleton_counts_to_one() {
    let t = Tree::generate(1, 7);
    assert_eq!(t.count_mis(), "1");
}

#[test]
fn oversized_child_bound_is_clamped() {
    let t = Tree::generate(6, 1000);
    for (_, children) in t.nodes() {
        assert!(children.len() <= 6);
    }
}
