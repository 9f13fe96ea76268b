//! The mathematical model of a weighted binary tree.
//!
//! A [`Tree`] is what a node of the library stands for in contracts: a leaf
//! with a weight and a symbol, or a branch with a weight and exactly two
//! subtrees. Everything here is ghost code; nothing of it is compiled.

use std::ops::Add;
use vstd::arithmetic::power2::lemma_pow2_unfold;
use vstd::arithmetic::power2::pow2;
use vstd::laws_eq::obeys_concrete_eq;
use vstd::multiset::Multiset;
use vstd::prelude::*;
use vstd::std_specs::cmp::PartialEqSpec;
use vstd::std_specs::ops::AddSpec;

verus! {

/// A weighted binary tree as a plain value.
pub enum Tree<T> {
    Leaf { weight: T, symbol: char },
    Branch { weight: T, left: Box<Tree<T>>, right: Box<Tree<T>> },
}

impl<T> Tree<T> {
    /// The weight recorded at the root.
    pub open spec fn weight(self) -> T {
        match self {
            Tree::Leaf { weight, .. } => weight,
            Tree::Branch { weight, .. } => weight,
        }
    }

    /// The leaves of the tree, each as its weight and symbol, without order.
    pub open spec fn leaves(self) -> Multiset<(T, char)>
        decreases self,
    {
        match self {
            Tree::Leaf { weight, symbol } => Multiset::singleton((weight, symbol)),
            Tree::Branch { left, right, .. } => left.leaves().add(right.leaves()),
        }
    }

    /// The number of leaves.
    pub open spec fn leaf_count(self) -> nat
        decreases self,
    {
        match self {
            Tree::Leaf { .. } => 1,
            Tree::Branch { left, right, .. } => left.leaf_count() + right.leaf_count(),
        }
    }

    /// The number of leaves and branches.
    pub open spec fn size(self) -> nat
        decreases self,
    {
        match self {
            Tree::Leaf { .. } => 1,
            Tree::Branch { left, right, .. } => 1 + left.size() + right.size(),
        }
    }

    /// The number of edges on the longest path from the root to a leaf.
    pub open spec fn height(self) -> nat
        decreases self,
    {
        match self {
            Tree::Leaf { .. } => 0,
            Tree::Branch { left, right, .. } => {
                let l = left.height();
                let r = right.height();
                if l >= r {
                    l + 1
                } else {
                    r + 1
                }
            },
        }
    }

    /// The leaves of a tree that hangs `levels` levels above some floor,
    /// each counted as two to the power of its own height above that floor.
    /// Divided by two to the power of `levels`, this is the sum over the
    /// leaves of two to the power of minus the leaf's depth.
    pub open spec fn kraft_sum(self, levels: nat) -> nat
        decreases self,
    {
        match self {
            Tree::Leaf { .. } => pow2(levels),
            Tree::Branch { left, right, .. } => if levels == 0 {
                0
            } else {
                left.kraft_sum((levels - 1) as nat) + right.kraft_sum((levels - 1) as nat)
            },
        }
    }

    /// The depths of the leaves of any tree meet the Kraft inequality, and
    /// meet it with equality: the powers of one half, taken to the depth of
    /// each leaf, sum to one.
    pub proof fn lemma_kraft_sum(self, levels: nat)
        requires
            levels >= self.height(),
        ensures
            self.kraft_sum(levels) == pow2(levels),
        decreases self,
    {
        match self {
            Tree::Leaf { .. } => {},
            Tree::Branch { left, right, .. } => {
                left.lemma_kraft_sum((levels - 1) as nat);
                right.lemma_kraft_sum((levels - 1) as nat);
                lemma_pow2_unfold(levels);
            },
        }
    }

    /// `leaf_count` counts what `leaves` holds.
    pub proof fn lemma_leaf_count_is_len_of_leaves(self)
        ensures
            self.leaves().len() == self.leaf_count(),
        decreases self,
    {
        match self {
            Tree::Leaf { .. } => {},
            Tree::Branch { left, right, .. } => {
                left.lemma_leaf_count_is_len_of_leaves();
                right.lemma_leaf_count_is_len_of_leaves();
            },
        }
    }
}

impl<T: Add<Output = T>> Tree<T> {
    /// Every branch, at any depth, weighs what its two subtrees weigh
    /// together, and that sum is one the weight type can form.
    pub open spec fn weights_add_up(self) -> bool
        decreases self,
    {
        match self {
            Tree::Leaf { .. } => true,
            Tree::Branch { weight, left, right } => {
                &&& left.weight().add_req(right.weight())
                &&& weight == left.weight().add_spec(right.weight())
                &&& left.weights_add_up()
                &&& right.weights_add_up()
            },
        }
    }
}

impl Tree<u32> {
    /// The weight of each leaf times its depth, summed over the leaves, for a
    /// tree whose root hangs at the depth `depth`.
    pub open spec fn path_length_below(self, depth: nat) -> int
        decreases self,
    {
        match self {
            Tree::Leaf { weight, .. } => weight * depth,
            Tree::Branch { left, right, .. } => left.path_length_below(depth + 1)
                + right.path_length_below(depth + 1),
        }
    }

    /// The weighted path length of the tree: the weight of each leaf times
    /// its depth, summed over the leaves. With the weights as the numbers of
    /// times that the symbols occur, this is the number of bits that the
    /// prefix code of the tree takes for the whole text.
    pub open spec fn weighted_path_length(self) -> int {
        self.path_length_below(0)
    }
}

impl<T: PartialEq> Tree<T> {
    /// Deep equality: the weights compare equal by the weight type's own
    /// `==`, and then two leaves carry the same symbol, or two branches have
    /// deeply equal left subtrees and deeply equal right subtrees. A leaf is
    /// never deeply equal to a branch.
    pub open spec fn same_as(self, other: Tree<T>) -> bool
        decreases self,
    {
        &&& self.weight().eq_spec(&other.weight())
        &&& match (self, other) {
            (Tree::Leaf { symbol, .. }, Tree::Leaf { symbol: other_symbol, .. }) => symbol
                == other_symbol,
            (
                Tree::Branch { left, right, .. },
                Tree::Branch { left: other_left, right: other_right, .. },
            ) => left.same_as(*other_left) && right.same_as(*other_right),
            _ => false,
        }
    }

    /// Where the weight type's `==` is equality of values, deep equality of
    /// trees is equality of trees.
    pub proof fn lemma_same_as_is_equality(self, other: Tree<T>)
        requires
            obeys_concrete_eq::<T>(),
        ensures
            self.same_as(other) <==> self == other,
        decreases self,
    {
        reveal(obeys_concrete_eq);
        match (self, other) {
            (
                Tree::Branch { left, right, .. },
                Tree::Branch { left: other_left, right: other_right, .. },
            ) => {
                left.lemma_same_as_is_equality(*other_left);
                right.lemma_same_as_is_equality(*other_right);
            },
            _ => {},
        }
    }
}

} // verus!
