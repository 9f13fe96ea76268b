//! The builder: the greedy construction, run on a binary heap.
//!
//! What the finished tree is says `huffman_tree`, by steps on a list. The
//! builder gets there faster. It keeps the nodes that wait to be merged under
//! the numbers of their arrival, the given ones first and each new branch
//! behind them, and for each of them an entry in a heap: its weight and its
//! number. The entry that leaves the heap first is that of the lightest
//! waiting node, and among equally light ones of the one that arrived last. For
//! `n` nodes this takes a number of steps in the order of `n log n`.

use crate::greedy::all_leaves;
use crate::greedy::forest_leaves;
use crate::greedy::huffman_tree;
use crate::greedy::is_lightest;
use crate::greedy::lemma_huffman_tree_leaf_count;
use crate::greedy::lemma_huffman_tree_leaves;
use crate::greedy::lemma_huffman_tree_weight;
use crate::greedy::lemma_lightest;
use crate::greedy::lemma_lightest_is_unique;
use crate::greedy::lemma_merge_lightest_keeps_weight;
use crate::greedy::lemma_total_weight_of_front;
use crate::greedy::lemma_total_weight_remove;
use crate::greedy::lightest;
use crate::greedy::merge_lightest;
use crate::greedy::total_weight;
use crate::heap::Entry;
use crate::heap::MinHeap;
use crate::node::Node;
use crate::optimal::is_optimal;
use crate::optimal::lemma_huffman_tree_is_optimal;
use crate::tree::Tree;
use vstd::multiset::Multiset;
use vstd::prelude::*;
use vstd::seq_lib::to_multiset_build;
use vstd::seq_lib::to_multiset_remove;

verus! {

/// The trees that wait to be merged, in the order of their arrival: for each
/// entry of `queue` the tree of the node that `arena` holds under its number.
spec fn waiting(queue: Seq<Entry>, arena: Seq<Option<Node<u32>>>) -> Seq<Tree<u32>> {
    Seq::new(queue.len(), |k: int| arena[queue[k].order as int]->Some_0@)
}

/// Every entry of `queue` names a node that `arena` still holds and carries
/// its weight, and the entries stand in the order of their numbers.
spec fn lined_up(queue: Seq<Entry>, arena: Seq<Option<Node<u32>>>) -> bool {
    &&& forall|k: int|
        0 <= k < queue.len() ==> {
            &&& (#[trigger] queue[k]).order < arena.len()
            &&& arena[queue[k].order as int] is Some
            &&& queue[k].weight == arena[queue[k].order as int]->Some_0@.weight()
        }
    &&& forall|k: int, l: int|
        0 <= k < l < queue.len() ==> (#[trigger] queue[k]).order < (#[trigger] queue[l]).order
}

/// The entry that leaves the heap first stands for the lightest of the
/// waiting trees: its place in `queue`. With its node taken out of `arena`,
/// the others wait as before.
proof fn lemma_first_is_lightest(
    queue: Seq<Entry>,
    arena: Seq<Option<Node<u32>>>,
    first: Entry,
) -> (k: int)
    requires
        lined_up(queue, arena),
        queue.to_multiset().count(first) > 0,
        forall|other: Entry| queue.to_multiset().count(other) > 0 ==> !other.before(first),
    ensures
        0 <= k < queue.len(),
        queue[k] == first,
        k == lightest(waiting(queue, arena)),
        first.order < arena.len(),
        arena[first.order as int] is Some,
        arena[first.order as int]->Some_0@ == waiting(queue, arena)[k],
        lined_up(queue.remove(k), arena.update(first.order as int, None)),
        queue.remove(k).to_multiset() == queue.to_multiset().remove(first),
        waiting(queue.remove(k), arena.update(first.order as int, None)) == waiting(
            queue,
            arena,
        ).remove(k),
{
    queue.to_multiset_ensures();
    assert(queue.contains(first));
    let k = choose|k: int| 0 <= k < queue.len() && queue[k] == first;
    let trees = waiting(queue, arena);
    assert forall|j: int| 0 <= j < trees.len() implies (j < k ==> trees[k].weight() <= (
    #[trigger] trees[j]).weight()) && (k < j ==> trees[k].weight() < trees[j].weight()) by {
        assert(queue.contains(queue[j]));
        assert(!queue[j].before(first));
    }
    assert(is_lightest(trees, k));
    lemma_lightest(trees);
    lemma_lightest_is_unique(trees, k, lightest(trees));
    to_multiset_remove(queue, k);
    let shorter = queue.remove(k);
    let emptied = arena.update(first.order as int, None);
    assert forall|j: int| 0 <= j < shorter.len() implies (#[trigger] shorter[j]).order
        != first.order && shorter[j] == queue[if j < k {
        j
    } else {
        j + 1
    }] by {
        if j < k {
            assert(queue[j].order < queue[k].order);
        } else {
            assert(queue[k].order < queue[j + 1].order);
        }
    }
    assert(waiting(shorter, emptied) =~= trees.remove(k));
    k
}

/// A new node arrives: it takes the next number, and the last place among
/// the waiting trees.
proof fn lemma_arrival(
    queue: Seq<Entry>,
    arena: Seq<Option<Node<u32>>>,
    entry: Entry,
    node: Node<u32>,
)
    requires
        lined_up(queue, arena),
        entry.order == arena.len(),
        entry.weight == node@.weight(),
    ensures
        lined_up(queue.push(entry), arena.push(Some(node))),
        queue.push(entry).to_multiset() == queue.to_multiset().insert(entry),
        waiting(queue.push(entry), arena.push(Some(node))) == waiting(queue, arena).push(node@),
{
    to_multiset_build(queue, entry);
    let longer = queue.push(entry);
    let grown = arena.push(Some(node));
    assert forall|k: int| 0 <= k < longer.len() implies {
        &&& (#[trigger] longer[k]).order < grown.len()
        &&& grown[longer[k].order as int] is Some
        &&& longer[k].weight == grown[longer[k].order as int]->Some_0@.weight()
    } by {
        if k < queue.len() {
            assert(longer[k] == queue[k]);
        }
    }
    assert forall|k: int, l: int| 0 <= k < l < longer.len() implies (#[trigger] longer[k]).order
        < (#[trigger] longer[l]).order by {
        assert(longer[k] == queue[k]);
        if l < queue.len() {
            assert(longer[l] == queue[l]);
        }
    }
    assert(waiting(longer, grown) =~= waiting(queue, arena).push(node@)) by {
        assert forall|k: int| 0 <= k < queue.len() implies grown[longer[k].order as int]
            == arena[queue[k].order as int] by {
            assert(longer[k] == queue[k]);
        }
    }
}

impl Node<u32> {
    /// Whether the weights of `leaves` together fit a `u32`, as `new_huffman`
    /// asks.
    pub fn weights_fit(leaves: &Vec<Node<u32>>) -> (fit: bool)
        ensures
            fit == (total_weight(leaves.deep_view()) <= u32::MAX),
    {
        let ghost forest = leaves.deep_view();
        let mut sum: u32 = 0;
        let mut i: usize = 0;
        while i < leaves.len()
            invariant
                forest == leaves.deep_view(),
                i <= leaves.len(),
                sum == total_weight(forest.take(i as int)),
            decreases leaves.len() - i,
        {
            proof {
                lemma_total_weight_of_front(forest, i as int);
                lemma_total_weight_of_front(forest, i + 1);
            }
            match sum.checked_add(leaves[i].probability()) {
                Some(more) => {
                    sum = more;
                },
                None => {
                    return false;
                },
            }
            i += 1;
        }
        proof {
            assert(forest.take(i as int) =~= forest);
        }
        true
    }

    /// Builds the prefix-code tree over `leaves` by the greedy construction.
    ///
    /// No list, no tree; a single node is handed back as it is. The weights
    /// of `leaves` together must fit a `u32`.
    pub fn new_huffman(leaves: Vec<Node<u32>>) -> (root: Option<Node<u32>>)
        requires
            total_weight(leaves.deep_view()) <= u32::MAX,
        ensures
            root is None <==> leaves.len() == 0,
            leaves.len() == 1 ==> root == Some(leaves@[0]),
            root matches Some(tree) ==> {
                &&& tree@ == huffman_tree(leaves.deep_view())
                &&& tree@.weight() == total_weight(leaves.deep_view())
                &&& tree@.leaves() == forest_leaves(leaves.deep_view())
                &&& tree@.weights_add_up()
                &&& all_leaves(leaves.deep_view()) ==> tree@.leaf_count() == leaves.len()
                &&& all_leaves(leaves.deep_view()) ==> is_optimal(tree@)
            },
    {
        let ghost forest = leaves.deep_view();
        proof {
            if forest.len() > 0 {
                lemma_huffman_tree_weight(forest);
                lemma_huffman_tree_leaves(forest);
                if all_leaves(forest) {
                    lemma_huffman_tree_leaf_count(forest);
                    lemma_huffman_tree_is_optimal(forest);
                }
            }
        }
        let mut given = leaves;
        if given.len() <= 1 {
            let root = given.pop();
            proof {
                if let Some(tree) = &root {
                    use_type_invariant(tree);
                }
            }
            return root;
        }
        let mut arena: Vec<Option<Node<u32>>> = Vec::new();
        let mut heap = MinHeap::new();
        let ghost mut queue: Seq<Entry> = Seq::empty();
        proof {
            queue.to_multiset_ensures();
            assert(queue.to_multiset() =~= Multiset::empty());
        }
        for node in all: given
            invariant
                all.seq() == leaves@,
                forest == leaves.deep_view(),
                arena.len() == all.index(),
                heap.well_formed(),
                heap@ == queue.to_multiset(),
                lined_up(queue, arena@),
                waiting(queue, arena@) == forest.take(all.index() as int),
        {
            let entry = Entry { weight: node.probability(), order: arena.len() };
            heap.push(entry);
            proof {
                lemma_arrival(queue, arena@, entry, node);
                assert(node == leaves@[all.index() as int]);
                assert(forest[all.index() as int] == node@);
                assert(forest.take(all.index() + 1) =~= forest.take(all.index() as int).push(
                    node@,
                ));
                queue = queue.push(entry);
            }
            arena.push(Some(node));
        }
        proof {
            assert(forest.take(forest.len() as int) =~= forest);
        }
        while heap.len() > 1
            invariant
                heap.well_formed(),
                heap@ == queue.to_multiset(),
                lined_up(queue, arena@),
                queue.len() >= 1,
                total_weight(forest) <= u32::MAX,
                total_weight(waiting(queue, arena@)) == total_weight(forest),
                huffman_tree(waiting(queue, arena@)) == huffman_tree(forest),
            decreases queue.len(),
        {
            let ghost before = waiting(queue, arena@);
            proof {
                queue.to_multiset_ensures();
            }
            let first = heap.pop().unwrap();
            proof {
                let k = lemma_first_is_lightest(queue, arena@, first);
                queue = queue.remove(k);
                queue.to_multiset_ensures();
            }
            let left = arena[first.order].take().unwrap();
            let ghost rest = waiting(queue, arena@);
            let second = heap.pop().unwrap();
            proof {
                let k = lemma_first_is_lightest(queue, arena@, second);
                queue = queue.remove(k);
                lemma_lightest(before);
                lemma_lightest(rest);
                lemma_total_weight_remove(before, lightest(before));
                lemma_total_weight_remove(rest, lightest(rest));
                lemma_merge_lightest_keeps_weight(before);
            }
            let right = arena[second.order].take().unwrap();
            let branch = Node::new_branch(left, right);
            let entry = Entry { weight: branch.probability(), order: arena.len() };
            heap.push(entry);
            proof {
                lemma_arrival(queue, arena@, entry, branch);
                queue = queue.push(entry);
            }
            arena.push(Some(branch));
            proof {
                assert(waiting(queue, arena@) =~= merge_lightest(before));
            }
        }
        proof {
            queue.to_multiset_ensures();
        }
        let last = heap.pop().unwrap();
        proof {
            let k = lemma_first_is_lightest(queue, arena@, last);
        }
        let root = arena[last.order].take().unwrap();
        proof {
            use_type_invariant(&root);
        }
        Some(root)
    }
}

} // verus!
