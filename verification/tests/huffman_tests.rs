use huffman::node::{Node, NodeType};

fn leaves_of(pairs: &[(u32, char)]) -> Vec<Node<u32>> {
    let mut leaves = Vec::new();
    for (weight, symbol) in pairs {
        leaves.push(Node::new_leaf(*weight, *symbol));
    }
    leaves
}

fn build(pairs: &[(u32, char)]) -> Node<u32> {
    match Node::new_huffman(leaves_of(pairs)) {
        Some(root) => root,
        None => panic!("a tree was expected"),
    }
}

fn leaf(weight: u32, symbol: char) -> Node<u32> {
    Node::new_leaf(weight, symbol)
}

fn branch(left: Node<u32>, right: Node<u32>) -> Node<u32> {
    Node::new_branch(left, right)
}

/// Weight, symbol and depth of every leaf, from left to right.
fn walk(node: &Node<u32>, depth: u32, found: &mut Vec<(u32, char, u32)>) {
    match node.node_type() {
        NodeType::Leaf(symbol) => found.push((node.probability(), *symbol, depth)),
        NodeType::Branch(children) => {
            walk(&children.0, depth + 1, found);
            walk(&children.1, depth + 1, found);
        }
    }
}

fn leaves_with_depth(root: &Node<u32>) -> Vec<(u32, char, u32)> {
    let mut found = Vec::new();
    walk(root, 0, &mut found);
    found
}

fn depth_of(root: &Node<u32>, symbol: char) -> u32 {
    for (_, found, depth) in leaves_with_depth(root) {
        if found == symbol {
            return depth;
        }
    }
    panic!("the symbol is not in the tree");
}

fn every_branch_adds_up(node: &Node<u32>) -> bool {
    match node.node_type() {
        NodeType::Leaf(_) => true,
        NodeType::Branch(children) => {
            node.probability() == children.0.probability() + children.1.probability()
                && every_branch_adds_up(&children.0)
                && every_branch_adds_up(&children.1)
        }
    }
}

fn are_siblings(node: &Node<u32>, one: char, other: char) -> bool {
    match node.node_type() {
        NodeType::Leaf(_) => false,
        NodeType::Branch(children) => {
            let here = match (children.0.node_type(), children.1.node_type()) {
                (NodeType::Leaf(l), NodeType::Leaf(r)) => {
                    (*l == one && *r == other) || (*l == other && *r == one)
                }
                _ => false,
            };
            here || are_siblings(&children.0, one, other) || are_siblings(&children.1, one, other)
        }
    }
}

const CLASSIC: [(u32, char); 6] = [(5, 'a'), (9, 'b'), (12, 'c'), (13, 'd'), (16, 'e'), (45, 'f')];

#[test]
fn no_leaves_no_tree() {
    assert!(Node::new_huffman(Vec::new()).is_none());
}

#[test]
fn one_leaf_is_handed_back() {
    let root = build(&[(42, 'a')]);
    assert_eq!(root.probability(), 42);
    assert!(matches!(root.node_type(), NodeType::Leaf('a')));
    assert!(root.same_as(&leaf(42, 'a')));
}

#[test]
fn one_branch_is_handed_back() {
    let only = branch(leaf(1, 'a'), leaf(2, 'b'));
    let root = Node::new_huffman(vec![only.clone()]).unwrap();
    assert!(root.same_as(&only));
}

#[test]
fn two_leaves_make_one_branch() {
    let root = build(&[(3, 'a'), (8, 'b')]);
    assert!(root.same_as(&branch(leaf(3, 'a'), leaf(8, 'b'))));
    let root = build(&[(8, 'b'), (3, 'a')]);
    assert!(root.same_as(&branch(leaf(3, 'a'), leaf(8, 'b'))));
}

#[test]
fn the_lighter_of_two_goes_left() {
    let root = build(&[(8, 'b'), (3, 'a')]);
    match root.node_type() {
        NodeType::Branch(children) => {
            assert_eq!(children.0.probability(), 3);
            assert_eq!(children.1.probability(), 8);
        }
        NodeType::Leaf(_) => panic!("a branch was expected"),
    }
}

#[test]
fn of_two_equal_leaves_the_later_goes_left() {
    let root = build(&[(1, 'a'), (1, 'b')]);
    assert!(root.same_as(&branch(leaf(1, 'b'), leaf(1, 'a'))));
    assert!(!root.same_as(&branch(leaf(1, 'a'), leaf(1, 'b'))));
}

#[test]
fn two_builds_over_equal_leaves_are_the_same() {
    let first = build(&[(1, 'a'), (1, 'b')]);
    let second = build(&[(1, 'a'), (1, 'b')]);
    assert!(first.same_as(&second));
    assert!(second.same_as(&first));
}

#[test]
fn two_builds_over_the_classic_weights_are_the_same() {
    let first = build(&CLASSIC);
    let second = build(&CLASSIC);
    assert!(first.same_as(&second));
}

#[test]
fn classic_root_weight() {
    assert_eq!(build(&CLASSIC).probability(), 100);
}

#[test]
fn classic_shape() {
    let ab = branch(leaf(5, 'a'), leaf(9, 'b'));
    let cd = branch(leaf(12, 'c'), leaf(13, 'd'));
    let abe = branch(ab, leaf(16, 'e'));
    let rest = branch(cd, abe);
    let expected = branch(leaf(45, 'f'), rest);
    assert!(build(&CLASSIC).same_as(&expected));
}

#[test]
fn classic_depths() {
    let root = build(&CLASSIC);
    assert_eq!(depth_of(&root, 'f'), 1);
    assert_eq!(depth_of(&root, 'c'), 3);
    assert_eq!(depth_of(&root, 'd'), 3);
    assert_eq!(depth_of(&root, 'e'), 3);
    assert_eq!(depth_of(&root, 'a'), 4);
    assert_eq!(depth_of(&root, 'b'), 4);
}

#[test]
fn classic_depths_meet_the_kraft_inequality() {
    let root = build(&CLASSIC);
    let mut sum = 0.0f64;
    for (_, _, depth) in leaves_with_depth(&root) {
        sum += 0.5f64.powi(depth as i32);
    }
    assert!(sum <= 1.0);
    assert_eq!(sum, 1.0);
}

#[test]
fn classic_lightest_two_are_siblings_at_the_deepest_level() {
    let root = build(&CLASSIC);
    assert!(are_siblings(&root, 'a', 'b'));
    let deepest = leaves_with_depth(&root).iter().map(|found| found.2).max().unwrap();
    assert_eq!(depth_of(&root, 'a'), deepest);
    assert_eq!(depth_of(&root, 'b'), deepest);
}

#[test]
fn classic_weighted_path_length() {
    let root = build(&CLASSIC);
    let mut cost = 0u32;
    for (weight, _, depth) in leaves_with_depth(&root) {
        cost += weight * depth;
    }
    assert_eq!(cost, 224);
}

#[test]
fn classic_in_any_input_order() {
    let shuffled = [(45, 'f'), (13, 'd'), (5, 'a'), (16, 'e'), (9, 'b'), (12, 'c')];
    let root = build(&shuffled);
    assert!(root.same_as(&build(&CLASSIC)));
}

#[test]
fn root_weighs_the_sum_of_the_leaves() {
    let pairs = [(7, 'a'), (1, 'b'), (1, 'c'), (30, 'd'), (2, 'e'), (2, 'f'), (11, 'g')];
    assert_eq!(build(&pairs).probability(), 54);
    assert_eq!(build(&[(0, 'a'), (0, 'b'), (0, 'c')]).probability(), 0);
    assert_eq!(build(&[(u32::MAX - 2, 'a'), (1, 'b'), (1, 'c')]).probability(), u32::MAX);
}

#[test]
fn every_branch_of_a_built_tree_adds_up() {
    let pairs = [(7, 'a'), (1, 'b'), (1, 'c'), (30, 'd'), (2, 'e'), (2, 'f'), (11, 'g')];
    assert!(every_branch_adds_up(&build(&pairs)));
    assert!(every_branch_adds_up(&build(&CLASSIC)));
}

#[test]
fn no_leaf_is_lost_or_made_up() {
    let pairs = [(7, 'a'), (1, 'b'), (1, 'c'), (30, 'd'), (2, 'e'), (2, 'f'), (11, 'g')];
    let root = build(&pairs);
    let mut found: Vec<(u32, char)> =
        leaves_with_depth(&root).iter().map(|leaf| (leaf.0, leaf.1)).collect();
    assert_eq!(found.len(), pairs.len());
    found.sort();
    let mut expected = pairs.to_vec();
    expected.sort();
    assert_eq!(found, expected);
}

#[test]
fn a_symbol_given_twice_stays_twice() {
    let root = build(&[(2, 'a'), (3, 'a'), (4, 'b')]);
    let found = leaves_with_depth(&root);
    assert_eq!(found.len(), 3);
    assert_eq!(found.iter().filter(|leaf| leaf.1 == 'a').count(), 2);
    assert_eq!(root.probability(), 9);
}

#[test]
fn three_equal_leaves() {
    let root = build(&[(1, 'a'), (1, 'b'), (1, 'c')]);
    let expected = branch(leaf(1, 'a'), branch(leaf(1, 'c'), leaf(1, 'b')));
    assert!(root.same_as(&expected));
}

#[test]
fn four_equal_leaves() {
    let root = build(&[(1, 'a'), (1, 'b'), (1, 'c'), (1, 'd')]);
    let dc = branch(leaf(1, 'd'), leaf(1, 'c'));
    let ba = branch(leaf(1, 'b'), leaf(1, 'a'));
    let expected = branch(ba, dc);
    assert!(root.same_as(&expected));
    for (_, _, depth) in leaves_with_depth(&root) {
        assert_eq!(depth, 2);
    }
}

#[test]
fn a_new_branch_goes_before_an_older_node_of_its_weight() {
    let root = build(&[(2, 'a'), (1, 'b'), (1, 'c')]);
    let expected = branch(branch(leaf(1, 'c'), leaf(1, 'b')), leaf(2, 'a'));
    assert!(root.same_as(&expected));
}

#[test]
fn skewed_weights_make_a_deep_tree() {
    let root = build(&[(1, 'a'), (2, 'b'), (4, 'c'), (8, 'd'), (16, 'e')]);
    assert_eq!(depth_of(&root, 'a'), 4);
    assert_eq!(depth_of(&root, 'b'), 4);
    assert_eq!(depth_of(&root, 'c'), 3);
    assert_eq!(depth_of(&root, 'd'), 2);
    assert_eq!(depth_of(&root, 'e'), 1);
    assert_eq!(root.probability(), 31);
}

#[test]
fn built_from_branches_as_well_as_leaves() {
    let given = branch(leaf(2, 'x'), leaf(2, 'y'));
    let root = Node::new_huffman(vec![leaf(10, 'a'), given, leaf(3, 'b')]).unwrap();
    let expected = branch(
        branch(leaf(3, 'b'), branch(leaf(2, 'x'), leaf(2, 'y'))),
        leaf(10, 'a'),
    );
    assert!(root.same_as(&expected));
    assert_eq!(leaves_with_depth(&root).len(), 4);
}

#[test]
fn a_built_tree_can_be_cloned_and_dropped() {
    let root = build(&CLASSIC);
    let copy = root.clone();
    assert!(copy.same_as(&root));
    drop(root);
    assert_eq!(copy.probability(), 100);
    assert!(copy.same_as(&build(&CLASSIC)));
}

#[test]
fn many_leaves() {
    let mut leaves = Vec::new();
    let mut total = 0u32;
    for i in 0..200u32 {
        let weight = (i * 37) % 101;
        total += weight;
        leaves.push(Node::new_leaf(weight, 'x'));
    }
    let root = Node::new_huffman(leaves).unwrap();
    assert_eq!(root.probability(), total);
    assert_eq!(leaves_with_depth(&root).len(), 200);
    assert!(every_branch_adds_up(&root));
}

/// The smallest weighted path length of any tree over the given weights,
/// found by trying every way to split them in two.
fn least_path_length(weights: &[u32]) -> u32 {
    let n = weights.len();
    let full = (1usize << n) - 1;
    let mut sum = vec![0u32; full + 1];
    let mut best = vec![0u32; full + 1];
    for set in 1..=full {
        let low = set.trailing_zeros() as usize;
        sum[set] = sum[set & (set - 1)] + weights[low];
        if set & (set - 1) == 0 {
            continue;
        }
        let mut least = u32::MAX;
        let mut part = (set - 1) & set;
        while part > 0 {
            let other = set & !part;
            if part < other {
                least = least.min(best[part] + best[other]);
            }
            part = (part - 1) & set;
        }
        best[set] = least + sum[set];
    }
    best[full]
}

fn path_length(root: &Node<u32>) -> u32 {
    let mut cost = 0u32;
    for (weight, _, depth) in leaves_with_depth(root) {
        cost += weight * depth;
    }
    cost
}

fn pairs_of(weights: &[u32]) -> Vec<(u32, char)> {
    let symbols = ['a', 'b', 'c', 'd', 'e', 'f', 'g', 'h', 'i', 'j'];
    let mut pairs = Vec::new();
    for (i, weight) in weights.iter().enumerate() {
        pairs.push((*weight, symbols[i]));
    }
    pairs
}

#[test]
fn no_tree_over_the_classic_weights_is_better() {
    let weights = [5u32, 9, 12, 13, 16, 45];
    assert_eq!(least_path_length(&weights), 224);
    assert_eq!(path_length(&build(&CLASSIC)), 224);
}

#[test]
fn no_tree_over_the_same_weights_is_better() {
    let lists: [&[u32]; 9] = [
        &[1, 1],
        &[1, 1, 1],
        &[1, 2, 3, 4],
        &[1, 1, 1, 1, 1],
        &[0, 0, 5, 0],
        &[3, 3, 3, 3, 3, 3, 3],
        &[1, 2, 4, 8, 16, 32, 64, 128],
        &[10, 9, 8, 7, 6, 5, 4, 3, 2, 1],
        &[2, 3, 5, 7, 11, 13, 17, 19, 23],
    ];
    for weights in lists {
        let root = build(&pairs_of(weights));
        assert_eq!(path_length(&root), least_path_length(weights));
    }
}

#[test]
fn no_tree_is_better_for_mixed_weights() {
    let mut seed = 12345u32;
    for round in 0..40 {
        let n = 2 + (round % 8);
        let mut weights = Vec::new();
        for _ in 0..n {
            seed = seed.wrapping_mul(1103515245).wrapping_add(12345);
            weights.push((seed >> 16) % 20);
        }
        let root = build(&pairs_of(&weights));
        assert_eq!(path_length(&root), least_path_length(&weights));
    }
}

#[test]
fn a_great_many_leaves() {
    let mut leaves = Vec::new();
    let mut total = 0u32;
    for i in 0..100_000u32 {
        let weight = 1 + (i * 7919) % 1000;
        total += weight;
        leaves.push(Node::new_leaf(weight, 'x'));
    }
    let root = Node::new_huffman(leaves).unwrap();
    assert_eq!(root.probability(), total);
    assert_eq!(leaves_with_depth(&root).len(), 100_000);
    assert!(every_branch_adds_up(&root));
}

#[test]
fn the_lighter_tree_goes_left_at_every_step() {
    let root = build(&[(4, 'a'), (4, 'b'), (1, 'c')]);
    let expected = branch(leaf(4, 'a'), branch(leaf(1, 'c'), leaf(4, 'b')));
    assert!(root.same_as(&expected));
}

#[test]
fn weights_that_fit() {
    assert!(Node::weights_fit(&Vec::new()));
    assert!(Node::weights_fit(&leaves_of(&CLASSIC)));
    assert!(Node::weights_fit(&leaves_of(&[(u32::MAX, 'a')])));
    assert!(Node::weights_fit(&leaves_of(&[(u32::MAX - 2, 'a'), (1, 'b'), (1, 'c')])));
    assert!(Node::weights_fit(&leaves_of(&[(u32::MAX, 'a'), (0, 'b')])));
}

#[test]
fn weights_that_do_not_fit() {
    assert!(!Node::weights_fit(&leaves_of(&[(u32::MAX, 'a'), (1, 'b')])));
    assert!(!Node::weights_fit(&leaves_of(&[(1, 'a'), (u32::MAX, 'b')])));
    assert!(!Node::weights_fit(&leaves_of(&[(u32::MAX / 2 + 1, 'a'), (u32::MAX / 2 + 1, 'b')])));
    assert!(!Node::weights_fit(&leaves_of(&[(u32::MAX, 'a'), (0, 'b'), (0, 'c'), (1, 'd')])));
}
