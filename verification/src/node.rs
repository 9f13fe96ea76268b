//! The weighted node: a leaf with a symbol, or a branch over two shared,
//! immutable subtrees.

use crate::tree::Tree;
use std::cmp::Ordering;
use std::ops::Add;
use std::sync::Arc;
use vstd::laws_eq::obeys_concrete_eq;
use vstd::prelude::*;
use vstd::std_specs::cmp::PartialEqSpec;
use vstd::std_specs::cmp::PartialEqSpecImpl;
use vstd::std_specs::cmp::PartialOrdSpec;
use vstd::std_specs::cmp::PartialOrdSpecImpl;
use vstd::std_specs::ops::AddSpec;

verus! {

/// What a node is besides its weight.
#[verifier::reject_recursive_types(T)]
#[derive(Debug)]
pub enum NodeType<T> where T: Copy + Add<Output = T> + Eq + Ord {
    /// A symbol.
    Leaf(char),
    /// The left and the right subtree, in that order, behind one shared handle.
    Branch(Arc<(Node<T>, Node<T>)>),
}

/// A weighted binary tree. A node is never changed once it is made, and a
/// branch shares its subtrees with every clone of itself.
#[verifier::reject_recursive_types(T)]
#[derive(Debug)]
pub struct Node<T> where T: Copy + Add<Output = T> + Eq + Ord {
    probability: T,
    node_type: NodeType<T>,
}

impl<T> View for Node<T> where T: Copy + Add<Output = T> + Eq + Ord {
    type V = Tree<T>;

    closed spec fn view(&self) -> Tree<T>
        decreases self,
    {
        match self.node_type {
            NodeType::Leaf(symbol) => Tree::Leaf { weight: self.probability, symbol },
            NodeType::Branch(children) => Tree::Branch {
                weight: self.probability,
                left: Box::new(children.0@),
                right: Box::new(children.1@),
            },
        }
    }
}

impl<T> DeepView for Node<T> where T: Copy + Add<Output = T> + Eq + Ord {
    type V = Tree<T>;

    open spec fn deep_view(&self) -> Tree<T> {
        self@
    }
}

impl<T> NodeType<T> where T: Copy + Add<Output = T> + Eq + Ord {
    /// Whether this is what a node with the tree `tree` holds besides its
    /// weight: the symbol of a leaf, or the two subtrees of a branch.
    pub open spec fn describes(self, tree: Tree<T>) -> bool {
        match self {
            NodeType::Leaf(symbol) => tree == (Tree::Leaf { weight: tree.weight(), symbol }),
            NodeType::Branch(children) => tree == (Tree::Branch {
                weight: tree.weight(),
                left: Box::new(children.0@),
                right: Box::new(children.1@),
            }),
        }
    }
}

/// `Arc::clone`: a second handle to the same allocation. The contract says
/// that the value behind the new handle is the value behind the old one.
#[verifier::external_body]
fn share<V>(handle: &Arc<V>) -> (other: Arc<V>)
    ensures
        other == *handle,
{
    Arc::clone(handle)
}

impl<T> Clone for NodeType<T> where T: Copy + Add<Output = T> + Eq + Ord {
    /// Copies the symbol of a leaf; shares the subtrees of a branch.
    fn clone(&self) -> (copy: Self)
        ensures
            copy == *self,
    {
        match self {
            NodeType::Leaf(symbol) => NodeType::Leaf(*symbol),
            NodeType::Branch(children) => NodeType::Branch(share(children)),
        }
    }
}

impl<T> Clone for Node<T> where T: Copy + Add<Output = T> + Eq + Ord {
    /// A second handle to the same tree, made in constant time.
    fn clone(&self) -> (copy: Self)
        ensures
            copy@ == self@,
            obeys_concrete_eq::<T>() ==> copy@.same_as(self@),
    {
        proof {
            use_type_invariant(self);
            if obeys_concrete_eq::<T>() {
                self@.lemma_same_as_is_equality(self@);
            }
        }
        Node { probability: self.probability, node_type: self.node_type.clone() }
    }
}

impl<T> Node<T> where T: Copy + Add<Output = T> + Eq + Ord {
    #[verifier::type_invariant]
    pub(crate) open spec fn well_formed(self) -> bool {
        T::obeys_add_spec() ==> self@.weights_add_up()
    }

    /// A leaf with the given weight and symbol.
    pub fn new_leaf(probability: T, symbol: char) -> (node: Node<T>)
        ensures
            node@ == (Tree::Leaf { weight: probability, symbol }),
    {
        Node { probability, node_type: NodeType::Leaf(symbol) }
    }

    /// A branch over `left` and `right`, weighing what the two weigh together.
    pub fn new_branch(left: Node<T>, right: Node<T>) -> (node: Node<T>)
        requires
            left@.weight().add_req(right@.weight()),
        ensures
            node@ is Branch,
            node@->left == left@,
            node@->right == right@,
            T::obeys_add_spec() ==> node@.weight() == left@.weight().add_spec(right@.weight()),
            T::obeys_add_spec() ==> node@.weights_add_up(),
    {
        proof {
            use_type_invariant(&left);
            use_type_invariant(&right);
        }
        Node {
            probability: left.probability + right.probability,
            node_type: NodeType::Branch(Arc::new((left, right))),
        }
    }

    /// The weight of the node.
    pub fn probability(&self) -> (weight: T)
        ensures
            weight == self@.weight(),
            T::obeys_add_spec() ==> self@.weights_add_up(),
    {
        proof {
            use_type_invariant(self);
        }
        self.probability
    }

    /// What the node is besides its weight, for walking the tree.
    pub fn node_type(&self) -> (kind: &NodeType<T>)
        ensures
            kind.describes(self@),
    {
        &self.node_type
    }

    /// Deep equality with `other`: equal weights, then equal symbols or
    /// deeply equal subtrees on both sides.
    ///
    /// The pairs of subtrees still to be compared are kept in a list, so a
    /// deep tree costs memory on the heap and none on the call stack.
    pub fn same_as(&self, other: &Node<T>) -> (same: bool)
        ensures
            T::obeys_eq_spec() ==> same == self@.same_as(other@),
            obeys_concrete_eq::<T>() ==> same == (self@ == other@),
    {
        proof {
            if obeys_concrete_eq::<T>() {
                reveal(obeys_concrete_eq);
                self@.lemma_same_as_is_equality(other@);
            }
        }
        let mut pending: Vec<(&Node<T>, &Node<T>)> = Vec::new();
        pending.push((self, other));
        proof {
            lemma_push_pair(Seq::empty(), (self, other));
            assert(pending@ == Seq::<(&Node<T>, &Node<T>)>::empty().push((self, other)));
        }
        while pending.len() > 0
            invariant
                T::obeys_eq_spec() ==> (self@.same_as(other@) <==> all_same(pending@)),
                obeys_concrete_eq::<T>() ==> T::obeys_eq_spec(),
                obeys_concrete_eq::<T>() ==> (self@.same_as(other@) <==> self@ == other@),
            decreases pending_size(pending@),
        {
            let ghost before = pending@;
            let (one, two) = pending.pop().unwrap();
            proof {
                assert(before == pending@.push((one, two)));
                lemma_push_pair(pending@, (one, two));
            }
            if one.probability != two.probability {
                return false;
            }
            match (&one.node_type, &two.node_type) {
                (NodeType::Leaf(symbol), NodeType::Leaf(other_symbol)) => {
                    if *symbol != *other_symbol {
                        return false;
                    }
                },
                (NodeType::Branch(children), NodeType::Branch(other_children)) => {
                    proof {
                        let right = (&children.1, &other_children.1);
                        let left = (&children.0, &other_children.0);
                        lemma_push_pair(pending@, right);
                        lemma_push_pair(pending@.push(right), left);
                    }
                    pending.push((&children.1, &other_children.1));
                    pending.push((&children.0, &other_children.0));
                },
                (_, _) => {
                    return false;
                },
            }
        }
        true
    }
}

/// Whether the two trees of every pair are deeply equal.
spec fn all_same<T>(pairs: Seq<(&Node<T>, &Node<T>)>) -> bool where
    T: Copy + Add<Output = T> + Eq + Ord,
{
    forall|i: int| 0 <= i < pairs.len() ==> (#[trigger] pairs[i]).0@.same_as(pairs[i].1@)
}

/// The sizes of the first trees of all pairs, summed.
spec fn pending_size<T>(pairs: Seq<(&Node<T>, &Node<T>)>) -> nat where
    T: Copy + Add<Output = T> + Eq + Ord,

    decreases pairs.len(),
{
    if pairs.len() == 0 {
        0
    } else {
        pending_size(pairs.drop_last()) + pairs.last().0@.size()
    }
}

/// What one more pair adds to a list of pairs.
proof fn lemma_push_pair<T>(pairs: Seq<(&Node<T>, &Node<T>)>, pair: (&Node<T>, &Node<T>)) where
    T: Copy + Add<Output = T> + Eq + Ord,

    ensures
        all_same(pairs.push(pair)) <==> all_same(pairs) && pair.0@.same_as(pair.1@),
        pending_size(pairs.push(pair)) == pending_size(pairs) + pair.0@.size(),
{
    let longer = pairs.push(pair);
    assert(longer.drop_last() == pairs);
    assert(longer.last() == pair);
    if all_same(longer) {
        assert(longer[longer.len() - 1].0@.same_as(longer[longer.len() - 1].1@));
        assert forall|i: int| 0 <= i < pairs.len() implies (#[trigger] pairs[i]).0@.same_as(
            pairs[i].1@,
        ) by {
            assert(pairs[i] == longer[i]);
        }
    }
    if all_same(pairs) && pair.0@.same_as(pair.1@) {
        assert forall|i: int| 0 <= i < longer.len() implies (#[trigger] longer[i]).0@.same_as(
            longer[i].1@,
        ) by {
            if i < pairs.len() {
                assert(pairs[i] == longer[i]);
            }
        }
    }
}

impl<T> PartialEq for Node<T> where T: Copy + Add<Output = T> + Eq + Ord {
    /// Nodes compare by weight alone.
    fn eq(&self, other: &Self) -> (equal: bool) {
        self.probability == other.probability
    }
}

impl<T> PartialEqSpecImpl for Node<T> where T: Copy + Add<Output = T> + Eq + Ord {
    open spec fn obeys_eq_spec() -> bool {
        T::obeys_eq_spec()
    }

    open spec fn eq_spec(&self, other: &Self) -> bool {
        self@.weight().eq_spec(&other@.weight())
    }
}

impl<T> Eq for Node<T> where T: Copy + Add<Output = T> + Eq + Ord {

}

impl<T> PartialOrd for Node<T> where T: Copy + Add<Output = T> + Eq + Ord {
    /// Nodes are ordered by weight alone.
    fn partial_cmp(&self, other: &Self) -> (order: Option<Ordering>) {
        self.probability.partial_cmp(&other.probability)
    }
}

impl<T> PartialOrdSpecImpl for Node<T> where T: Copy + Add<Output = T> + Eq + Ord {
    open spec fn obeys_partial_cmp_spec() -> bool {
        T::obeys_partial_cmp_spec()
    }

    open spec fn partial_cmp_spec(&self, other: &Self) -> Option<Ordering> {
        self@.weight().partial_cmp_spec(&other@.weight())
    }
}

} // verus!
