//! Why no tree over the same leaves is better than the one the greedy
//! construction ends with.
//!
//! A tree is measured by its weighted path length: the weight of each leaf
//! times its depth, summed over the leaves. The proof works on the shape of a
//! tree and the weights at its leaves alone.

use crate::greedy::all_add_up;
use crate::greedy::all_leaves;
use crate::greedy::forest_leaves;
use crate::greedy::huffman_tree;
use crate::greedy::join;
use crate::greedy::lemma_huffman_tree_leaves;
use crate::greedy::lemma_lightest;
use crate::greedy::lemma_merge_lightest_adds_up;
use crate::greedy::lemma_merge_lightest_keeps_weight;
use crate::greedy::lemma_merge_lightest_len;
use crate::greedy::lemma_total_weight_remove;
use crate::greedy::lightest;
use crate::greedy::merge_lightest;
use crate::greedy::total_weight;
use crate::tree::Tree;
use vstd::multiset::Multiset;
use vstd::prelude::*;

verus! {

/// A binary tree that carries nothing but a weight at each leaf.
pub enum Shape {
    Tip { weight: int },
    Fork { left: Box<Shape>, right: Box<Shape> },
}

impl Shape {
    /// The weights at the leaves, without order.
    pub open spec fn weights(self) -> Multiset<int>
        decreases self,
    {
        match self {
            Shape::Tip { weight } => Multiset::singleton(weight),
            Shape::Fork { left, right } => left.weights().add(right.weights()),
        }
    }

    /// The weights at the leaves, summed.
    pub open spec fn total(self) -> int
        decreases self,
    {
        match self {
            Shape::Tip { weight } => weight,
            Shape::Fork { left, right } => left.total() + right.total(),
        }
    }

    /// The weighted path length: each leaf's weight times its depth, summed.
    pub open spec fn cost(self) -> int
        decreases self,
    {
        match self {
            Shape::Tip { .. } => 0,
            Shape::Fork { left, right } => left.cost() + right.cost() + left.total()
                + right.total(),
        }
    }

    /// The depth of the deepest leaf.
    pub open spec fn height(self) -> nat
        decreases self,
    {
        match self {
            Shape::Tip { .. } => 0,
            Shape::Fork { left, right } => if left.height() >= right.height() {
                left.height() + 1
            } else {
                right.height() + 1
            },
        }
    }
}

/// `a` is in `m`, and nothing in `m` is smaller.
pub open spec fn is_least(m: Multiset<int>, a: int) -> bool {
    &&& m.contains(a)
    &&& forall|x: int| m.count(x) > 0 ==> a <= x
}

/// The smallest number in a multiset that is not empty.
pub open spec fn least(m: Multiset<int>) -> int {
    choose|a: int| is_least(m, a)
}

proof fn lemma_least_exists(m: Multiset<int>) -> (a: int)
    requires
        m.len() > 0,
    ensures
        is_least(m, a),
    decreases m.len(),
{
    let e = m.choose();
    let rest = m.remove(e);
    assert(Multiset::singleton(e).subset_of(m));
    if rest.len() == 0 {
        assert forall|x: int| m.count(x) > 0 implies e <= x by {
            if x != e {
                assert(rest.count(x) > 0);
            }
        }
        e
    } else {
        let a = lemma_least_exists(rest);
        assert forall|x: int| m.count(x) > 0 implies (if e <= a { e } else { a }) <= x by {
            if x != e {
                assert(rest.count(x) > 0);
            }
        }
        if e <= a {
            e
        } else {
            a
        }
    }
}

/// A multiset that is not empty has a smallest number, and `least` is it.
pub proof fn lemma_least(m: Multiset<int>)
    requires
        m.len() > 0,
    ensures
        is_least(m, least(m)),
        m.remove(least(m)).len() == m.len() - 1,
{
    let a = lemma_least_exists(m);
    assert(Multiset::singleton(least(m)).subset_of(m));
}

/// The smallest number of a multiset is one number.
pub proof fn lemma_least_is_unique(m: Multiset<int>, a: int, b: int)
    requires
        is_least(m, a),
        is_least(m, b),
    ensures
        a == b,
{
}

/// What is left when the two smallest numbers of `m` are replaced by their
/// sum.
pub open spec fn merged(m: Multiset<int>) -> Multiset<int> {
    let a = least(m);
    let b = least(m.remove(a));
    m.remove(a).remove(b).insert(a + b)
}

/// What the greedy construction adds to the weighted path length when it
/// joins trees of the weights `m` into one: at each step the sum of the two
/// smallest weights.
pub open spec fn greedy_cost(m: Multiset<int>) -> int
    decreases m.len(),
    via greedy_cost_terminates
{
    if m.len() <= 1 {
        0
    } else {
        least(m) + least(m.remove(least(m))) + greedy_cost(merged(m))
    }
}

#[via_fn]
proof fn greedy_cost_terminates(m: Multiset<int>) {
    if m.len() > 1 {
        lemma_merged_len(m);
    }
}

/// Replacing two numbers by their sum leaves one number less.
pub proof fn lemma_merged_len(m: Multiset<int>)
    requires
        m.len() >= 2,
    ensures
        merged(m).len() == m.len() - 1,
{
    lemma_least(m);
    lemma_least(m.remove(least(m)));
}

impl Shape {
    /// The shape with the weight of one leaf changed: of the first leaf, from
    /// the left, that weighs `from`, to `to`.
    pub open spec fn replace_one(self, from: int, to: int) -> Shape
        decreases self,
    {
        match self {
            Shape::Tip { weight } => if weight == from {
                Shape::Tip { weight: to }
            } else {
                self
            },
            Shape::Fork { left, right } => if left.weights().contains(from) {
                Shape::Fork { left: Box::new(left.replace_one(from, to)), right }
            } else {
                Shape::Fork { left, right: Box::new(right.replace_one(from, to)) }
            },
        }
    }

    /// The depth of the first leaf, from the left, that weighs `weight`.
    pub open spec fn depth_of(self, weight: int) -> nat
        decreases self,
    {
        match self {
            Shape::Tip { .. } => 0,
            Shape::Fork { left, right } => if left.weights().contains(weight) {
                left.depth_of(weight) + 1
            } else {
                right.depth_of(weight) + 1
            },
        }
    }

    /// The weights of two leaves that hang side by side at the greatest depth.
    pub open spec fn deepest_pair(self) -> (int, int)
        decreases self,
    {
        match self {
            Shape::Tip { weight } => (weight, weight),
            Shape::Fork { left, right } => if *left is Tip && *right is Tip {
                ((*left)->weight, (*right)->weight)
            } else if left.height() >= right.height() {
                left.deepest_pair()
            } else {
                right.deepest_pair()
            },
        }
    }

    /// The shape with the two leaves of `deepest_pair` and the fork above
    /// them replaced by one leaf of weight `sum`.
    pub open spec fn contract(self, sum: int) -> Shape
        decreases self,
    {
        match self {
            Shape::Tip { .. } => self,
            Shape::Fork { left, right } => if *left is Tip && *right is Tip {
                Shape::Tip { weight: sum }
            } else if left.height() >= right.height() {
                Shape::Fork { left: Box::new(left.contract(sum)), right }
            } else {
                Shape::Fork { left, right: Box::new(right.contract(sum)) }
            },
        }
    }

    /// A shape has a leaf, and a fork has two.
    pub proof fn lemma_weights_len(self)
        ensures
            self.weights().len() >= 1,
            self is Fork ==> self.weights().len() >= 2,
        decreases self,
    {
        match self {
            Shape::Tip { .. } => {},
            Shape::Fork { left, right } => {
                left.lemma_weights_len();
                right.lemma_weights_len();
            },
        }
    }

    /// What `replace_one` does to the weights, the total, the cost and the
    /// height.
    pub proof fn lemma_replace_one(self, from: int, to: int)
        requires
            self.weights().contains(from),
        ensures
            self.replace_one(from, to).weights() == self.weights().remove(from).insert(to),
            self.replace_one(from, to).total() == self.total() - from + to,
            self.replace_one(from, to).cost() == self.cost() + (to - from) * self.depth_of(from),
            self.replace_one(from, to).height() == self.height(),
            self.depth_of(from) <= self.height(),
        decreases self,
    {
        match self {
            Shape::Tip { weight } => {
                assert(self.replace_one(from, to).weights() =~= self.weights().remove(
                    from,
                ).insert(to));
                assert((to - from) * 0 == 0) by (nonlinear_arith);
            },
            Shape::Fork { left, right } => {
                let delta = to - from;
                if left.weights().contains(from) {
                    left.lemma_replace_one(from, to);
                    let d = left.depth_of(from);
                    assert(delta * (d + 1) == delta * d + delta) by (nonlinear_arith);
                } else {
                    right.lemma_replace_one(from, to);
                    let d = right.depth_of(from);
                    assert(delta * (d + 1) == delta * d + delta) by (nonlinear_arith);
                }
                assert(self.replace_one(from, to).weights() =~= self.weights().remove(
                    from,
                ).insert(to));
            },
        }
    }

    /// What `contract` does to the weights, the total, the cost and the
    /// height of a fork.
    pub proof fn lemma_contract(self, sum: int)
        requires
            self is Fork,
        ensures
            self.weights().contains(self.deepest_pair().0),
            self.weights().remove(self.deepest_pair().0).contains(self.deepest_pair().1),
            self.contract(sum).weights() == self.weights().remove(self.deepest_pair().0).remove(
                self.deepest_pair().1,
            ).insert(sum),
            self.contract(sum).total() == self.total() - self.deepest_pair().0
                - self.deepest_pair().1 + sum,
            self.contract(sum).cost() == self.cost() - (self.deepest_pair().0
                + self.deepest_pair().1) * self.height() + sum * (self.height() - 1),
            self.contract(sum).height() <= self.height(),
        decreases self,
    {
        let pair = self.deepest_pair();
        let both = pair.0 + pair.1;
        match self {
            Shape::Tip { .. } => {},
            Shape::Fork { left, right } => {
                if *left is Tip && *right is Tip {
                    assert(left.weights() == Multiset::singleton(pair.0));
                    assert(right.weights() == Multiset::singleton(pair.1));
                    assert(left.total() == pair.0 && right.total() == pair.1);
                    assert(left.cost() == 0 && right.cost() == 0);
                    assert(left.height() == 0 && right.height() == 0);
                    assert(self.height() == 1);
                    assert(both * 1 == both) by (nonlinear_arith);
                    assert(sum * 0 == 0) by (nonlinear_arith);
                } else if left.height() >= right.height() {
                    left.lemma_contract(sum);
                    let h = left.height();
                    assert(both * (h + 1) == both * h + both) by (nonlinear_arith);
                    assert(sum * ((h + 1) - 1) == sum * (h - 1) + sum) by (nonlinear_arith);
                } else {
                    right.lemma_contract(sum);
                    let h = right.height();
                    assert(both * (h + 1) == both * h + both) by (nonlinear_arith);
                    assert(sum * ((h + 1) - 1) == sum * (h - 1) + sum) by (nonlinear_arith);
                }
                assert(self.contract(sum).weights() =~= self.weights().remove(pair.0).remove(
                    pair.1,
                ).insert(sum));
            },
        }
    }
}

/// The two smallest numbers of `m` are no greater than any two numbers of
/// `m`, the smaller against the smaller.
proof fn lemma_two_least(m: Multiset<int>, x: int, y: int)
    requires
        m.count(x) > 0,
        m.remove(x).count(y) > 0,
        x <= y,
    ensures
        m.count(least(m)) > 0,
        m.remove(least(m)).count(least(m.remove(least(m)))) > 0,
        least(m) <= x,
        least(m.remove(least(m))) <= y,
{
    assert(m.len() >= 2) by {
        assert(Multiset::singleton(x).subset_of(m));
        assert(m.remove(x).len() >= 1);
    }
    lemma_least(m);
    let a = least(m);
    lemma_least(m.remove(a));
    assert(m.remove(a).count(y) > 0);
}

/// Putting `x` in the place of `a`, where the two differ.
proof fn lemma_swap_first(m: Multiset<int>, a: int, x: int, y: int, sum: int)
    requires
        m.count(a) > 0,
        m.count(x) > 0,
        m.remove(x).count(y) > 0,
        a < x <= y,
    ensures
        m.remove(x).remove(y).insert(sum).count(a) > 0,
        m.remove(x).remove(y).insert(sum).remove(a).insert(x) == m.remove(a).remove(y).insert(
            sum,
        ),
{
    assert(m.remove(x).remove(y).insert(sum).remove(a).insert(x) =~= m.remove(a).remove(
        y,
    ).insert(sum));
}

/// Putting `y` in the place of `b`, where the two differ.
proof fn lemma_swap_second(m: Multiset<int>, a: int, b: int, y: int, sum: int)
    requires
        m.count(a) > 0,
        m.remove(a).count(b) > 0,
        m.remove(a).count(y) > 0,
        b < y,
    ensures
        m.remove(a).remove(y).insert(sum).count(b) > 0,
        m.remove(a).remove(y).insert(sum).remove(b).insert(y) == m.remove(a).remove(b).insert(
            sum,
        ),
{
    assert(m.remove(a).remove(y).insert(sum).remove(b).insert(y) =~= m.remove(a).remove(
        b,
    ).insert(sum));
}

/// What the exchange saves: `c`, `c1`, `c3` and `c2` are the costs before
/// the exchange, after the two leaves became one, and after each move.
proof fn lemma_exchange_saves(
    a: int,
    b: int,
    x: int,
    y: int,
    both: int,
    h: int,
    d1: int,
    d2: int,
    c: int,
    c1: int,
    c3: int,
    c2: int,
)
    requires
        a <= x,
        b <= y,
        both == x + y,
        0 <= d1 <= h,
        0 <= d2 <= h,
        c1 == c - both * h + (a + b) * (h - 1),
        c3 == c1 + (x - a) * d1,
        c2 == c3 + (y - b) * d2,
    ensures
        c2 + a + b <= c,
{
    assert((x - a) * (h - d1) >= 0) by (nonlinear_arith)
        requires
            a <= x,
            d1 <= h,
    ;
    assert((y - b) * (h - d2) >= 0) by (nonlinear_arith)
        requires
            b <= y,
            d2 <= h,
    ;
    assert(c2 + a + b == c - (x - a) * (h - d1) - (y - b) * (h - d2)) by (nonlinear_arith)
        requires
            both == x + y,
            c1 == c - both * h + (a + b) * (h - 1),
            c3 == c1 + (x - a) * d1,
            c2 == c3 + (y - b) * d2,
    ;
}

/// Giving the first leaf that weighs `a` the weight `x`, if the two differ:
/// the new shape, and the depth of that leaf.
proof fn lemma_move(t: Shape, a: int, x: int) -> (moved: (Shape, int))
    requires
        a == x || t.weights().count(a) > 0,
    ensures
        a == x ==> moved.0 == t,
        a != x ==> moved.0.weights() == t.weights().remove(a).insert(x),
        moved.0.height() == t.height(),
        0 <= moved.1 <= t.height(),
        moved.0.cost() == t.cost() + (x - a) * moved.1,
{
    if a == x {
        assert(t.cost() == t.cost() + (x - a) * 0) by (nonlinear_arith)
            requires
                a == x,
        ;
        (t, 0)
    } else {
        t.lemma_replace_one(a, x);
        (t.replace_one(a, x), t.depth_of(a) as int)
    }
}

/// Moving the two smallest weights of a fork to two leaves that hang side by
/// side at the greatest depth, and then replacing those two leaves by one leaf
/// of their sum, gives a shape over the merged weights and saves that sum at
/// least.
proof fn lemma_exchange(t: Shape) -> (t2: Shape)
    requires
        t is Fork,
    ensures
        t2.weights() == merged(t.weights()),
        t2.cost() + least(t.weights()) + least(t.weights().remove(least(t.weights())))
            <= t.cost(),
{
    let m = t.weights();
    let a = least(m);
    let b = least(m.remove(a));
    let pair = t.deepest_pair();
    let x = if pair.0 <= pair.1 {
        pair.0
    } else {
        pair.1
    };
    let y = if pair.0 <= pair.1 {
        pair.1
    } else {
        pair.0
    };
    let h = t.height() as int;
    let t1 = t.contract(a + b);
    t.lemma_contract(a + b);
    let m1 = m.remove(x).remove(y).insert(a + b);
    assert(m.count(x) > 0 && m.remove(x).count(y) > 0);
    assert(t1.weights() == m1) by {
        assert(m.remove(pair.0).remove(pair.1).insert(a + b) =~= m1);
    }
    lemma_two_least(m, x, y);
    let m3 = m.remove(a).remove(y).insert(a + b);
    if a != x {
        lemma_swap_first(m, a, x, y, a + b);
    }
    let (t3, d1) = lemma_move(t1, a, x);
    assert(t3.weights() == m3);
    if b != y {
        assert(m.remove(a).count(y) > 0);
        lemma_swap_second(m, a, b, y, a + b);
    }
    let (t2, d2) = lemma_move(t3, b, y);
    assert(t2.weights() == merged(m));
    lemma_exchange_saves(
        a,
        b,
        x,
        y,
        pair.0 + pair.1,
        h,
        d1,
        d2,
        t.cost(),
        t1.cost(),
        t3.cost(),
        t2.cost(),
    );
    t2
}

impl Shape {
    /// No shape has a smaller weighted path length than the greedy
    /// construction gives for the weights at its leaves.
    pub proof fn lemma_cost_is_at_least_greedy(self)
        ensures
            greedy_cost(self.weights()) <= self.cost(),
        decreases self.weights().len(),
    {
        self.lemma_weights_len();
        match self {
            Shape::Tip { .. } => {},
            Shape::Fork { .. } => {
                let smaller = lemma_exchange(self);
                lemma_merged_len(self.weights());
                smaller.lemma_cost_is_at_least_greedy();
            },
        }
    }
}

/// The shape of a tree, with the weights of its leaves.
pub open spec fn shape_of(tree: Tree<u32>) -> Shape
    decreases tree,
{
    match tree {
        Tree::Leaf { weight, .. } => Shape::Tip { weight: weight as int },
        Tree::Branch { left, right, .. } => Shape::Fork {
            left: Box::new(shape_of(*left)),
            right: Box::new(shape_of(*right)),
        },
    }
}

/// The weighted path length of a tree, by the cost and the total of its
/// shape.
pub proof fn lemma_path_length_of_shape(tree: Tree<u32>, depth: nat)
    ensures
        tree.path_length_below(depth) == shape_of(tree).cost() + shape_of(tree).total() * depth,
    decreases tree,
{
    match tree {
        Tree::Leaf { weight, .. } => {},
        Tree::Branch { left, right, .. } => {
            lemma_path_length_of_shape(*left, depth + 1);
            lemma_path_length_of_shape(*right, depth + 1);
            let l = shape_of(*left).total();
            let r = shape_of(*right).total();
            assert(l * (depth + 1) + r * (depth + 1) == (l + r) * depth + l + r)
                by (nonlinear_arith);
        },
    }
}

/// Where the weights add up, the root weighs what the leaves weigh together.
pub proof fn lemma_root_weight_is_total(tree: Tree<u32>)
    requires
        tree.weights_add_up(),
    ensures
        shape_of(tree).total() == tree.weight(),
    decreases tree,
{
    match tree {
        Tree::Leaf { .. } => {},
        Tree::Branch { left, right, .. } => {
            lemma_root_weight_is_total(*left);
            lemma_root_weight_is_total(*right);
        },
    }
}

/// The weights at the roots of `forest`, without order.
pub open spec fn root_weights(forest: Seq<Tree<u32>>) -> Multiset<int>
    decreases forest.len(),
{
    if forest.len() == 0 {
        Multiset::empty()
    } else {
        root_weights(forest.drop_last()).insert(forest.last().weight() as int)
    }
}

/// The weighted path lengths of the trees of `forest`, summed.
pub open spec fn forest_cost(forest: Seq<Tree<u32>>) -> int
    decreases forest.len(),
{
    if forest.len() == 0 {
        0
    } else {
        forest_cost(forest.drop_last()) + forest.last().weighted_path_length()
    }
}

/// Taking a tree out of a list takes its root weight and its weighted path
/// length out of the list's.
proof fn lemma_forest_remove(forest: Seq<Tree<u32>>, i: int)
    requires
        0 <= i < forest.len(),
    ensures
        root_weights(forest).count(forest[i].weight() as int) > 0,
        root_weights(forest.remove(i)) == root_weights(forest).remove(forest[i].weight() as int),
        forest_cost(forest.remove(i)) == forest_cost(forest) - forest[i].weighted_path_length(),
        root_weights(forest).len() == forest.len(),
    decreases forest.len(),
{
    lemma_root_weights_len(forest);
    if i == forest.len() - 1 {
        assert(forest.remove(i) =~= forest.drop_last());
        assert(root_weights(forest.remove(i)) =~= root_weights(forest).remove(
            forest[i].weight() as int,
        ));
    } else {
        lemma_forest_remove(forest.drop_last(), i);
        assert(forest.remove(i).drop_last() =~= forest.drop_last().remove(i));
        assert(forest.remove(i).last() == forest.last());
        assert(root_weights(forest.remove(i)) =~= root_weights(forest).remove(
            forest[i].weight() as int,
        ));
    }
}

proof fn lemma_root_weights_len(forest: Seq<Tree<u32>>)
    ensures
        root_weights(forest).len() == forest.len(),
    decreases forest.len(),
{
    if forest.len() > 0 {
        lemma_root_weights_len(forest.drop_last());
    }
}

/// A number among the root weights is the weight of some tree of the list.
proof fn lemma_root_weight_has_a_tree(forest: Seq<Tree<u32>>, weight: int) -> (i: int)
    requires
        root_weights(forest).count(weight) > 0,
    ensures
        0 <= i < forest.len(),
        forest[i].weight() == weight,
    decreases forest.len(),
{
    if forest.len() == 0 {
        0
    } else if forest.last().weight() == weight {
        forest.len() - 1
    } else {
        lemma_root_weight_has_a_tree(forest.drop_last(), weight)
    }
}

/// The lightest tree of a list has the least of the root weights.
proof fn lemma_lightest_is_least(forest: Seq<Tree<u32>>)
    requires
        forest.len() > 0,
    ensures
        least(root_weights(forest)) == forest[lightest(forest)].weight(),
{
    lemma_lightest(forest);
    let i = lightest(forest);
    let w = forest[i].weight() as int;
    lemma_forest_remove(forest, i);
    assert forall|x: int| root_weights(forest).count(x) > 0 implies w <= x by {
        let k = lemma_root_weight_has_a_tree(forest, x);
    }
    assert(is_least(root_weights(forest), w));
    lemma_least(root_weights(forest));
    lemma_least_is_unique(root_weights(forest), w, least(root_weights(forest)));
}

/// One step of the construction replaces the two least root weights by their
/// sum, and adds that sum to the weighted path lengths.
proof fn lemma_merge_lightest_cost(forest: Seq<Tree<u32>>)
    requires
        forest.len() >= 2,
        total_weight(forest) <= u32::MAX,
        all_add_up(forest),
    ensures
        root_weights(merge_lightest(forest)) == merged(root_weights(forest)),
        forest_cost(merge_lightest(forest)) == forest_cost(forest) + least(root_weights(forest))
            + least(root_weights(forest).remove(least(root_weights(forest)))),
{
    let i = lightest(forest);
    let rest = forest.remove(i);
    let j = lightest(rest);
    lemma_lightest(forest);
    lemma_lightest(rest);
    lemma_lightest_is_least(forest);
    lemma_lightest_is_least(rest);
    lemma_forest_remove(forest, i);
    lemma_forest_remove(rest, j);
    lemma_total_weight_remove(forest, i);
    lemma_total_weight_remove(rest, j);
    let first = forest[i];
    let second = rest[j];
    assert(second.weights_add_up()) by {
        let k = if j < i {
            j
        } else {
            j + 1
        };
        assert(rest[j] == forest[k]);
    }
    let new = join(first, second);
    lemma_path_length_of_shape(first, 0);
    lemma_path_length_of_shape(second, 0);
    lemma_path_length_of_shape(new, 0);
    lemma_root_weight_is_total(first);
    lemma_root_weight_is_total(second);
    assert(shape_of(new).cost() == shape_of(first).cost() + shape_of(second).cost() + shape_of(
        first,
    ).total() + shape_of(second).total());
    let after = rest.remove(j).push(new);
    assert(after.drop_last() =~= rest.remove(j));
    assert(after.last() == new);
    assert(root_weights(after) =~= merged(root_weights(forest)));
}

/// The weighted path length of the finished tree: what the trees of the list
/// had between them, and what the greedy construction adds for their root
/// weights.
pub proof fn lemma_huffman_tree_cost(forest: Seq<Tree<u32>>)
    requires
        forest.len() > 0,
        total_weight(forest) <= u32::MAX,
        all_add_up(forest),
    ensures
        huffman_tree(forest).weighted_path_length() == forest_cost(forest) + greedy_cost(
            root_weights(forest),
        ),
    decreases forest.len(),
{
    lemma_root_weights_len(forest);
    if forest.len() == 1 {
        assert(forest_cost(forest.drop_last()) == 0);
    } else {
        lemma_merge_lightest_len(forest);
        lemma_merge_lightest_keeps_weight(forest);
        lemma_merge_lightest_adds_up(forest);
        lemma_merge_lightest_cost(forest);
        lemma_huffman_tree_cost(merge_lightest(forest));
    }
}

/// The weights of `leaves`, without the symbols.
pub open spec fn weights_of(leaves: Multiset<(u32, char)>) -> Multiset<int>
    decreases leaves.len(),
    via weights_of_terminates
{
    if leaves.len() == 0 {
        Multiset::empty()
    } else {
        weights_of(leaves.remove(leaves.choose())).insert(leaves.choose().0 as int)
    }
}

#[via_fn]
proof fn weights_of_terminates(leaves: Multiset<(u32, char)>) {
    if leaves.len() != 0 {
        assert(Multiset::singleton(leaves.choose()).subset_of(leaves));
    }
}

/// `weights_of` takes the leaves in any order.
proof fn lemma_weights_of_remove(leaves: Multiset<(u32, char)>, leaf: (u32, char))
    requires
        leaves.count(leaf) > 0,
    ensures
        weights_of(leaves) == weights_of(leaves.remove(leaf)).insert(leaf.0 as int),
    decreases leaves.len(),
{
    let chosen = leaves.choose();
    assert(Multiset::singleton(chosen).subset_of(leaves));
    assert(Multiset::singleton(leaf).subset_of(leaves));
    if chosen != leaf {
        lemma_weights_of_remove(leaves.remove(chosen), leaf);
        lemma_weights_of_remove(leaves.remove(leaf), chosen);
        assert(leaves.remove(chosen).remove(leaf) =~= leaves.remove(leaf).remove(chosen));
        assert(weights_of(leaves) =~= weights_of(leaves.remove(leaf)).insert(leaf.0 as int));
    }
}

/// One more leaf is one more weight.
proof fn lemma_weights_of_insert(leaves: Multiset<(u32, char)>, leaf: (u32, char))
    ensures
        weights_of(leaves.insert(leaf)) == weights_of(leaves).insert(leaf.0 as int),
{
    lemma_weights_of_remove(leaves.insert(leaf), leaf);
    assert(leaves.insert(leaf).remove(leaf) =~= leaves);
}

/// The weights of two multisets of leaves together.
proof fn lemma_weights_of_add(one: Multiset<(u32, char)>, other: Multiset<(u32, char)>)
    ensures
        weights_of(one.add(other)) == weights_of(one).add(weights_of(other)),
    decreases other.len(),
{
    if other.len() == 0 {
        assert(other =~= Multiset::empty());
        assert(one.add(other) =~= one);
        assert(weights_of(one).add(weights_of(other)) =~= weights_of(one));
    } else {
        let leaf = other.choose();
        let rest = other.remove(leaf);
        assert(Multiset::singleton(leaf).subset_of(other));
        lemma_weights_of_add(one, rest);
        lemma_weights_of_insert(one.add(rest), leaf);
        assert(one.add(rest).insert(leaf) =~= one.add(other));
        assert(weights_of(one).add(weights_of(rest)).insert(leaf.0 as int) =~= weights_of(
            one,
        ).add(weights_of(other)));
    }
}

/// The weights at the leaves of a tree's shape are the weights of its leaves.
proof fn lemma_weights_of_tree(tree: Tree<u32>)
    ensures
        shape_of(tree).weights() == weights_of(tree.leaves()),
    decreases tree,
{
    match tree {
        Tree::Leaf { weight, symbol } => {
            lemma_weights_of_insert(Multiset::empty(), (weight, symbol));
            assert(Multiset::empty().insert((weight, symbol)) =~= tree.leaves());
            assert(weights_of(Multiset::empty()) =~= Multiset::empty());
            assert(Multiset::<int>::empty().insert(weight as int) =~= shape_of(tree).weights());
        },
        Tree::Branch { left, right, .. } => {
            lemma_weights_of_tree(*left);
            lemma_weights_of_tree(*right);
            lemma_weights_of_add(left.leaves(), right.leaves());
        },
    }
}

/// The root weights of a list of single leaves are the weights of its
/// leaves, and its trees have no weighted path length.
proof fn lemma_weights_of_forest(forest: Seq<Tree<u32>>)
    requires
        all_leaves(forest),
    ensures
        root_weights(forest) == weights_of(forest_leaves(forest)),
        forest_cost(forest) == 0,
        all_add_up(forest),
    decreases forest.len(),
{
    if forest.len() == 0 {
        assert(weights_of(forest_leaves(forest)) =~= Multiset::empty());
    } else {
        let front = forest.drop_last();
        assert(forall|i: int| 0 <= i < front.len() ==> front[i] == forest[i]);
        lemma_weights_of_forest(front);
        let last = forest.last();
        assert(last is Leaf);
        lemma_weights_of_tree(last);
        lemma_weights_of_add(forest_leaves(front), last.leaves());
        assert(shape_of(last).weights() =~= Multiset::singleton(last.weight() as int));
        assert(root_weights(forest) =~= weights_of(forest_leaves(forest)));
    }
}

/// No tree with the leaves of `tree` has a smaller weighted path length.
pub open spec fn is_optimal(tree: Tree<u32>) -> bool {
    forall|other: Tree<u32>| (#[trigger] other.leaves()) == tree.leaves()
        ==> tree.weighted_path_length() <= other.weighted_path_length()
}

/// Built from single leaves whose weights together fit the weight type, the
/// finished tree has the smallest weighted path length that a tree with these
/// leaves can have.
pub proof fn lemma_huffman_tree_is_optimal(forest: Seq<Tree<u32>>)
    requires
        forest.len() > 0,
        all_leaves(forest),
        total_weight(forest) <= u32::MAX,
    ensures
        is_optimal(huffman_tree(forest)),
{
    let built = huffman_tree(forest);
    lemma_huffman_tree_leaves(forest);
    lemma_weights_of_forest(forest);
    lemma_huffman_tree_cost(forest);
    assert forall|other: Tree<u32>| (#[trigger] other.leaves()) == built.leaves() implies built.weighted_path_length()
        <= other.weighted_path_length() by {
        lemma_weights_of_tree(other);
        shape_of(other).lemma_cost_is_at_least_greedy();
        lemma_path_length_of_shape(other, 0);
    }
}

} // verus!
