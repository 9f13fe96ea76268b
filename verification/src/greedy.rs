//! The greedy construction of a prefix-code tree from weighted nodes.
//!
//! The construction works on a list of trees. One step takes the lightest
//! tree out of the list, then the lightest of what is left, and appends the
//! branch over the two, the first on the left. Among trees of equal weight the
//! one that stands last in the list is the lightest, so a branch made in an
//! earlier step goes before every older tree of its weight. The steps are
//! repeated until one tree is left.

use crate::tree::Tree;
use vstd::multiset::Multiset;
use vstd::prelude::*;

verus! {

/// The weights at the roots of `forest`, summed.
pub open spec fn total_weight(forest: Seq<Tree<u32>>) -> int
    decreases forest.len(),
{
    if forest.len() == 0 {
        0
    } else {
        total_weight(forest.drop_last()) + forest.last().weight()
    }
}

/// The leaves of all trees of `forest` together.
pub open spec fn forest_leaves(forest: Seq<Tree<u32>>) -> Multiset<(u32, char)>
    decreases forest.len(),
{
    if forest.len() == 0 {
        Multiset::empty()
    } else {
        forest_leaves(forest.drop_last()).add(forest.last().leaves())
    }
}

/// Position `i` holds the tree that the next step takes: no tree of `forest`
/// is lighter, and every tree behind it is heavier.
pub open spec fn is_lightest(forest: Seq<Tree<u32>>, i: int) -> bool {
    &&& 0 <= i < forest.len()
    &&& forall|j: int| 0 <= j < i ==> forest[i].weight() <= (#[trigger] forest[j]).weight()
    &&& forall|j: int| i < j < forest.len() ==> forest[i].weight() < (#[trigger] forest[j]).weight()
}

/// The position of the lightest tree of a list that is not empty.
pub open spec fn lightest(forest: Seq<Tree<u32>>) -> int {
    choose|i: int| is_lightest(forest, i)
}

/// The branch over `left` and `right`.
pub open spec fn join(left: Tree<u32>, right: Tree<u32>) -> Tree<u32> {
    Tree::Branch {
        weight: (left.weight() + right.weight()) as u32,
        left: Box::new(left),
        right: Box::new(right),
    }
}

/// One step of the construction on a list of two trees or more.
pub open spec fn merge_lightest(forest: Seq<Tree<u32>>) -> Seq<Tree<u32>> {
    let first = lightest(forest);
    let rest = forest.remove(first);
    let second = lightest(rest);
    rest.remove(second).push(join(forest[first], rest[second]))
}

/// The tree that the construction ends with, for a list that is not empty.
pub open spec fn huffman_tree(forest: Seq<Tree<u32>>) -> Tree<u32>
    decreases forest.len(),
    via huffman_tree_terminates
{
    if forest.len() <= 1 {
        forest[0]
    } else {
        huffman_tree(merge_lightest(forest))
    }
}

#[via_fn]
proof fn huffman_tree_terminates(forest: Seq<Tree<u32>>) {
    if forest.len() > 1 {
        lemma_merge_lightest_len(forest);
    }
}

proof fn lemma_lightest_exists(forest: Seq<Tree<u32>>) -> (i: int)
    requires
        forest.len() > 0,
    ensures
        is_lightest(forest, i),
    decreases forest.len(),
{
    if forest.len() == 1 {
        0
    } else {
        let front = forest.drop_last();
        let k = lemma_lightest_exists(front);
        assert(forall|j: int| 0 <= j < front.len() ==> front[j] == forest[j]);
        if forest.last().weight() <= forest[k].weight() {
            forest.len() - 1
        } else {
            k
        }
    }
}

/// A list that is not empty has a lightest tree, and `lightest` is its place.
pub proof fn lemma_lightest(forest: Seq<Tree<u32>>)
    requires
        forest.len() > 0,
    ensures
        is_lightest(forest, lightest(forest)),
{
    let i = lemma_lightest_exists(forest);
}

/// No list has two lightest trees.
pub proof fn lemma_lightest_is_unique(forest: Seq<Tree<u32>>, i: int, j: int)
    requires
        is_lightest(forest, i),
        is_lightest(forest, j),
    ensures
        i == j,
{
    if i < j {
        assert(forest[i].weight() < forest[j].weight());
    } else if j < i {
        assert(forest[j].weight() < forest[i].weight());
    }
}

/// A step leaves one tree less.
pub proof fn lemma_merge_lightest_len(forest: Seq<Tree<u32>>)
    requires
        forest.len() >= 2,
    ensures
        merge_lightest(forest).len() == forest.len() - 1,
{
    lemma_lightest(forest);
    lemma_lightest(forest.remove(lightest(forest)));
}

/// Taking a tree out of a list takes its weight out of the total.
pub proof fn lemma_total_weight_remove(forest: Seq<Tree<u32>>, i: int)
    requires
        0 <= i < forest.len(),
    ensures
        total_weight(forest) == total_weight(forest.remove(i)) + forest[i].weight(),
        total_weight(forest.remove(i)) >= 0,
    decreases forest.len(),
{
    lemma_total_weight_is_natural(forest.remove(i));
    if i == forest.len() - 1 {
        assert(forest.remove(i) =~= forest.drop_last());
    } else {
        lemma_total_weight_remove(forest.drop_last(), i);
        assert(forest.remove(i).drop_last() =~= forest.drop_last().remove(i));
    }
}

/// The first trees of a list weigh no more than the whole list.
pub proof fn lemma_total_weight_of_front(forest: Seq<Tree<u32>>, n: int)
    requires
        0 <= n <= forest.len(),
    ensures
        0 <= total_weight(forest.take(n)) <= total_weight(forest),
        n < forest.len() ==> total_weight(forest.take(n + 1)) == total_weight(forest.take(n))
            + forest[n].weight(),
    decreases forest.len() - n,
{
    lemma_total_weight_is_natural(forest.take(n));
    if n == forest.len() {
        assert(forest.take(n) =~= forest);
    } else {
        lemma_total_weight_of_front(forest, n + 1);
        assert(forest.take(n + 1).drop_last() =~= forest.take(n));
    }
}

proof fn lemma_total_weight_is_natural(forest: Seq<Tree<u32>>)
    ensures
        total_weight(forest) >= 0,
    decreases forest.len(),
{
    if forest.len() > 0 {
        lemma_total_weight_is_natural(forest.drop_last());
    }
}

/// Taking a tree out of a list takes its leaves out of the list's leaves.
pub proof fn lemma_forest_leaves_remove(forest: Seq<Tree<u32>>, i: int)
    requires
        0 <= i < forest.len(),
    ensures
        forest_leaves(forest) == forest_leaves(forest.remove(i)).add(forest[i].leaves()),
    decreases forest.len(),
{
    if i == forest.len() - 1 {
        assert(forest.remove(i) =~= forest.drop_last());
    } else {
        lemma_forest_leaves_remove(forest.drop_last(), i);
        assert(forest.remove(i).drop_last() =~= forest.drop_last().remove(i));
        assert(forest_leaves(forest) =~= forest_leaves(forest.remove(i)).add(
            forest[i].leaves(),
        ));
    }
}

/// A step keeps the total weight, as long as the total fits the weight type.
pub proof fn lemma_merge_lightest_keeps_weight(forest: Seq<Tree<u32>>)
    requires
        forest.len() >= 2,
        total_weight(forest) <= u32::MAX,
    ensures
        total_weight(merge_lightest(forest)) == total_weight(forest),
{
    let first = lightest(forest);
    let rest = forest.remove(first);
    let second = lightest(rest);
    lemma_lightest(forest);
    lemma_lightest(rest);
    lemma_total_weight_remove(forest, first);
    lemma_total_weight_remove(rest, second);
    let merged = rest.remove(second).push(join(forest[first], rest[second]));
    assert(merged.drop_last() =~= rest.remove(second));
}

/// A step keeps the leaves.
pub proof fn lemma_merge_lightest_keeps_leaves(forest: Seq<Tree<u32>>)
    requires
        forest.len() >= 2,
    ensures
        forest_leaves(merge_lightest(forest)) == forest_leaves(forest),
{
    let first = lightest(forest);
    let rest = forest.remove(first);
    let second = lightest(rest);
    lemma_lightest(forest);
    lemma_lightest(rest);
    lemma_forest_leaves_remove(forest, first);
    lemma_forest_leaves_remove(rest, second);
    let merged = rest.remove(second).push(join(forest[first], rest[second]));
    assert(merged.drop_last() =~= rest.remove(second));
    assert(forest_leaves(merged) =~= forest_leaves(forest));
}

/// The finished tree weighs what the trees it was built from weigh together.
pub proof fn lemma_huffman_tree_weight(forest: Seq<Tree<u32>>)
    requires
        forest.len() > 0,
        total_weight(forest) <= u32::MAX,
    ensures
        huffman_tree(forest).weight() == total_weight(forest),
    decreases forest.len(),
{
    if forest.len() == 1 {
        assert(total_weight(forest.drop_last()) == 0);
    } else {
        lemma_merge_lightest_len(forest);
        lemma_merge_lightest_keeps_weight(forest);
        lemma_huffman_tree_weight(merge_lightest(forest));
    }
}

/// The finished tree has the leaves of the trees it was built from, each as
/// often as they had it.
pub proof fn lemma_huffman_tree_leaves(forest: Seq<Tree<u32>>)
    requires
        forest.len() > 0,
    ensures
        huffman_tree(forest).leaves() == forest_leaves(forest),
    decreases forest.len(),
{
    if forest.len() == 1 {
        assert(forest_leaves(forest.drop_last()) =~= Multiset::empty());
        assert(forest_leaves(forest) =~= forest[0].leaves());
    } else {
        lemma_merge_lightest_len(forest);
        lemma_merge_lightest_keeps_leaves(forest);
        lemma_huffman_tree_leaves(merge_lightest(forest));
    }
}

/// Whether every tree of `forest` is a single leaf.
pub open spec fn all_leaves(forest: Seq<Tree<u32>>) -> bool {
    forall|i: int| 0 <= i < forest.len() ==> (#[trigger] forest[i]) is Leaf
}

/// Whether in every tree of `forest` the weights add up.
pub open spec fn all_add_up(forest: Seq<Tree<u32>>) -> bool {
    forall|i: int| 0 <= i < forest.len() ==> (#[trigger] forest[i]).weights_add_up()
}

/// A list of single leaves has as many leaves as it is long.
pub proof fn lemma_forest_of_leaves(forest: Seq<Tree<u32>>)
    requires
        all_leaves(forest),
    ensures
        forest_leaves(forest).len() == forest.len(),
    decreases forest.len(),
{
    if forest.len() > 0 {
        let front = forest.drop_last();
        assert(forall|i: int| 0 <= i < front.len() ==> front[i] == forest[i]);
        lemma_forest_of_leaves(front);
        assert(forest.last() is Leaf);
    }
}

/// Built from single leaves, the finished tree has one leaf for each of them.
pub proof fn lemma_huffman_tree_leaf_count(forest: Seq<Tree<u32>>)
    requires
        forest.len() > 0,
        all_leaves(forest),
    ensures
        huffman_tree(forest).leaf_count() == forest.len(),
{
    lemma_huffman_tree_leaves(forest);
    lemma_forest_of_leaves(forest);
    huffman_tree(forest).lemma_leaf_count_is_len_of_leaves();
}

/// A step keeps the weights adding up, as long as the total fits the weight
/// type.
pub proof fn lemma_merge_lightest_adds_up(forest: Seq<Tree<u32>>)
    requires
        forest.len() >= 2,
        total_weight(forest) <= u32::MAX,
        all_add_up(forest),
    ensures
        all_add_up(merge_lightest(forest)),
{
    let first = lightest(forest);
    let rest = forest.remove(first);
    let second = lightest(rest);
    lemma_lightest(forest);
    lemma_lightest(rest);
    lemma_total_weight_remove(forest, first);
    lemma_total_weight_remove(rest, second);
    let merged = merge_lightest(forest);
    assert forall|i: int| 0 <= i < merged.len() implies (#[trigger] merged[i]).weights_add_up() by {
        if i < merged.len() - 1 {
            let k = if i < second { i } else { i + 1 };
            assert(merged[i] == rest[k]);
            let m = if k < first { k } else { k + 1 };
            assert(rest[k] == forest[m]);
        } else {
            assert(forest[first].weights_add_up());
            let m = if second < first { second } else { second + 1 };
            assert(rest[second] == forest[m]);
        }
    }
}

/// In the finished tree every branch weighs what its two subtrees weigh
/// together, if that held in the trees it was built from and their total fits
/// the weight type.
pub proof fn lemma_huffman_tree_adds_up(forest: Seq<Tree<u32>>)
    requires
        forest.len() > 0,
        total_weight(forest) <= u32::MAX,
        all_add_up(forest),
    ensures
        huffman_tree(forest).weights_add_up(),
    decreases forest.len(),
{
    if forest.len() > 1 {
        lemma_merge_lightest_len(forest);
        lemma_merge_lightest_keeps_weight(forest);
        lemma_merge_lightest_adds_up(forest);
        lemma_huffman_tree_adds_up(merge_lightest(forest));
    }
}

/// Two runs of the construction over lists that hold the same trees in the
/// same order end with deeply equal trees.
pub proof fn lemma_same_lists_same_tree(first: Seq<Tree<u32>>, second: Seq<Tree<u32>>)
    requires
        first.len() > 0,
        first =~= second,
    ensures
        huffman_tree(first).same_as(huffman_tree(second)),
{
    broadcast use vstd::laws_eq::group_laws_eq;

    huffman_tree(first).lemma_same_as_is_equality(huffman_tree(second));
}

} // verus!
