//! A binary heap of the nodes that wait to be merged, the next one to leave
//! at the top.
//!
//! The heap does not hold the nodes themselves. It holds one entry for each:
//! the node's weight and the number under which the node arrived. An entry
//! leaves before another if it is lighter, or as light and arrived later.

use vstd::multiset::Multiset;
use vstd::prelude::*;
use vstd::seq_lib::to_multiset_build;
use vstd::seq_lib::to_multiset_update;

verus! {

/// A waiting node: its weight, and the number under which it arrived.
#[derive(Clone, Copy)]
pub struct Entry {
    pub weight: u32,
    pub order: usize,
}

impl Entry {
    /// Whether `self` leaves the heap before `other`.
    pub open spec fn before(self, other: Entry) -> bool {
        self.weight < other.weight || (self.weight == other.weight && self.order > other.order)
    }

    /// Whether `self` leaves the heap before `other`.
    pub fn leaves_before(&self, other: &Entry) -> (first: bool)
        ensures
            first == self.before(*other),
    {
        self.weight < other.weight || (self.weight == other.weight && self.order > other.order)
    }
}

/// The place above place `i` in the heap.
spec fn parent(i: int) -> int {
    (i - 1) / 2
}

/// Place `i` holds nothing that leaves before what the place above it holds.
spec fn in_order_at(entries: Seq<Entry>, i: int) -> bool {
    !entries[i].before(entries[parent(i)])
}

/// No place holds anything that leaves before what the place above it holds.
spec fn in_order(entries: Seq<Entry>) -> bool {
    forall|i: int| 0 < i < entries.len() ==> in_order_at(entries, i)
}

/// Nothing in an ordered heap leaves before its first entry.
proof fn lemma_first_leaves_first(entries: Seq<Entry>, i: int)
    requires
        in_order(entries),
        0 <= i < entries.len(),
    ensures
        !entries[i].before(entries[0]),
    decreases i,
{
    if i > 0 {
        assert(in_order_at(entries, i));
        lemma_first_leaves_first(entries, parent(i));
    }
}

/// Two entries trade places.
fn swap(entries: &mut Vec<Entry>, i: usize, j: usize)
    requires
        i < old(entries).len(),
        j < old(entries).len(),
    ensures
        final(entries)@ == old(entries)@.update(i as int, old(entries)@[j as int]).update(
            j as int,
            old(entries)@[i as int],
        ),
        final(entries)@.to_multiset() == old(entries)@.to_multiset(),
{
    let ghost before = entries@;
    let one = entries[i];
    let other = entries[j];
    entries[i] = other;
    entries[j] = one;
    proof {
        let half = before.update(i as int, other);
        to_multiset_update(before, i as int, other);
        to_multiset_update(half, j as int, one);
        assert(before.to_multiset().count(one) > 0) by {
            before.to_multiset_ensures();
            assert(before.contains(one));
        }
        assert(entries@.to_multiset() =~= before.to_multiset());
    }
}

/// Moves the entry at `start` up until the place above it holds nothing that
/// leaves after it.
fn sift_up(entries: &mut Vec<Entry>, start: usize)
    requires
        start < old(entries).len(),
        forall|j: int| 0 < j < old(entries).len() && j != start ==> in_order_at(old(entries)@, j),
        forall|j: int|
            0 < j < old(entries).len() && parent(j) == start && start > 0 ==> !(
            #[trigger] old(entries)@[j]).before(old(entries)@[parent(start as int)]),
    ensures
        in_order(final(entries)@),
        final(entries)@.to_multiset() == old(entries)@.to_multiset(),
{
    let mut i = start;
    while i > 0 && entries[i].leaves_before(&entries[(i - 1) / 2])
        invariant
            i < entries.len(),
            entries@.to_multiset() == old(entries)@.to_multiset(),
            forall|j: int| 0 < j < entries.len() && j != i ==> in_order_at(entries@, j),
            forall|j: int|
                0 < j < entries.len() && parent(j) == i && i > 0 ==> !(#[trigger] entries@[j]).before(
                    entries@[parent(i as int)],
                ),
        decreases i,
    {
        let above = (i - 1) / 2;
        let ghost before = entries@;
        swap(entries, i, above);
        proof {
            assert forall|j: int| 0 < j < entries.len() && j != above implies in_order_at(
                entries@,
                j,
            ) by {
                if j != i {
                    assert(in_order_at(before, j));
                    if parent(j) == i {
                        assert(!before[j].before(before[parent(i as int)]));
                    }
                }
            }
            assert forall|j: int|
                0 < j < entries.len() && parent(j) == above && above > 0 implies !(
            #[trigger] entries@[j]).before(entries@[parent(above as int)]) by {
                assert(in_order_at(before, above as int));
                if j != i {
                    assert(in_order_at(before, j));
                }
            }
        }
        i = above;
    }
    proof {
        assert forall|j: int| 0 < j < entries.len() implies in_order_at(entries@, j) by {}
    }
}

/// Moves the entry at `start` down until neither place below it holds
/// anything that leaves before it.
fn sift_down(entries: &mut Vec<Entry>, start: usize)
    requires
        start < old(entries).len(),
        forall|j: int|
            0 < j < old(entries).len() && parent(j) != start ==> in_order_at(old(entries)@, j),
        forall|j: int|
            0 < j < old(entries).len() && parent(j) == start && start > 0 ==> !(
            #[trigger] old(entries)@[j]).before(old(entries)@[parent(start as int)]),
    ensures
        in_order(final(entries)@),
        final(entries)@.to_multiset() == old(entries)@.to_multiset(),
{
    let len = entries.len();
    let mut i = start;
    let mut settled = false;
    while !settled && i < len / 2
        invariant
            len == entries.len(),
            i < len,
            entries@.to_multiset() == old(entries)@.to_multiset(),
            forall|j: int| 0 < j < len && parent(j) != i ==> in_order_at(entries@, j),
            forall|j: int|
                0 < j < len && parent(j) == i && i > 0 ==> !(#[trigger] entries@[j]).before(
                    entries@[parent(i as int)],
                ),
            settled ==> forall|j: int| 0 < j < len && parent(j) == i ==> in_order_at(entries@, j),
        decreases
                len - i,
                (if settled {
                    0int
                } else {
                    1int
                }),
    {
        let mut below = 2 * i + 1;
        if below + 1 < len && entries[below + 1].leaves_before(&entries[below]) {
            below = below + 1;
        }
        if entries[below].leaves_before(&entries[i]) {
            let ghost before = entries@;
            swap(entries, i, below);
            proof {
                assert forall|j: int| 0 < j < len && parent(j) != below implies in_order_at(
                    entries@,
                    j,
                ) by {
                    if parent(j) == i {
                        assert(j == 2 * i + 1 || j == 2 * i + 2);
                    } else if j == i {
                        assert(!before[below as int].before(before[parent(i as int)]));
                    } else {
                        assert(in_order_at(before, j));
                    }
                }
                assert forall|j: int|
                    0 < j < len && parent(j) == below && below > 0 implies !(
                #[trigger] entries@[j]).before(entries@[parent(below as int)]) by {
                    assert(in_order_at(before, j));
                }
            }
            i = below;
        } else {
            settled = true;
            proof {
                assert forall|j: int| 0 < j < len && parent(j) == i implies in_order_at(
                    entries@,
                    j,
                ) by {
                    assert(j == 2 * i + 1 || j == 2 * i + 2);
                }
            }
        }
    }
    proof {
        assert forall|j: int| 0 < j < len implies in_order_at(entries@, j) by {
            if parent(j) == i && !settled {
                assert(j >= 2 * i + 1);
            }
        }
    }
}

/// The entries of the nodes that wait to be merged.
pub struct MinHeap {
    entries: Vec<Entry>,
}

impl View for MinHeap {
    type V = Multiset<Entry>;

    closed spec fn view(&self) -> Multiset<Entry> {
        self.entries@.to_multiset()
    }
}

impl MinHeap {
    /// Whether the entries stand in the order of a heap.
    pub closed spec fn well_formed(&self) -> bool {
        in_order(self.entries@)
    }

    /// A heap without entries.
    pub fn new() -> (heap: MinHeap)
        ensures
            heap.well_formed(),
            heap@ == Multiset::<Entry>::empty(),
    {
        let heap = MinHeap { entries: Vec::new() };
        proof {
            assert(heap.entries@.to_multiset() =~= Multiset::<Entry>::empty()) by {
                heap.entries@.to_multiset_ensures();
                assert forall|e: Entry| heap.entries@.to_multiset().count(e) == 0 by {
                    if heap.entries@.to_multiset().count(e) > 0 {
                        assert(heap.entries@.contains(e));
                    }
                }
            }
        }
        heap
    }

    /// The number of entries.
    pub fn len(&self) -> (len: usize)
        ensures
            len == self@.len(),
    {
        proof {
            self.entries@.to_multiset_ensures();
        }
        self.entries.len()
    }

    /// Adds an entry.
    pub fn push(&mut self, entry: Entry)
        requires
            old(self).well_formed(),
        ensures
            final(self).well_formed(),
            final(self)@ == old(self)@.insert(entry),
    {
        let ghost before = self.entries@;
        self.entries.push(entry);
        proof {
            to_multiset_build(before, entry);
            assert forall|j: int|
                0 < j < self.entries.len() && j != self.entries.len() - 1 implies in_order_at(
                self.entries@,
                j,
            ) by {
                assert(in_order_at(before, j));
            }
        }
        let last = self.entries.len() - 1;
        sift_up(&mut self.entries, last);
    }

    /// Takes out the entry that leaves first: none of the others leaves
    /// before it.
    pub fn pop(&mut self) -> (first: Option<Entry>)
        requires
            old(self).well_formed(),
        ensures
            final(self).well_formed(),
            first is None <==> old(self)@.len() == 0,
            first is None ==> final(self)@ == old(self)@,
            first matches Some(entry) ==> {
                &&& old(self)@.count(entry) > 0
                &&& forall|other: Entry| old(self)@.count(other) > 0 ==> !other.before(entry)
                &&& final(self)@ == old(self)@.remove(entry)
            },
    {
        let ghost before = self.entries@;
        proof {
            before.to_multiset_ensures();
        }
        if self.entries.len() == 0 {
            return None;
        }
        let first = self.entries[0];
        let last = self.entries.pop().unwrap();
        proof {
            assert(before.contains(first));
            assert forall|other: Entry| before.to_multiset().count(other) > 0 implies !other.before(
                first,
            ) by {
                assert(before.contains(other));
                let k = choose|k: int| 0 <= k < before.len() && before[k] == other;
                lemma_first_leaves_first(before, k);
            }
            let shorter = self.entries@;
            assert(shorter == before.drop_last());
            to_multiset_build(shorter, last);
            assert(shorter.push(last) == before);
        }
        if self.entries.len() > 0 {
            let ghost shorter = self.entries@;
            self.entries[0] = last;
            proof {
                to_multiset_update(shorter, 0, last);
                assert(shorter.to_multiset().count(first) > 0) by {
                    shorter.to_multiset_ensures();
                    assert(shorter.contains(first));
                }
                assert(self.entries@.to_multiset() =~= before.to_multiset().remove(first));
                assert forall|j: int|
                    0 < j < self.entries.len() && parent(j) != 0 implies in_order_at(
                    self.entries@,
                    j,
                ) by {
                    assert(in_order_at(before, j));
                }
            }
            sift_down(&mut self.entries, 0);
        } else {
            proof {
                assert(self.entries@.to_multiset() =~= before.to_multiset().remove(first));
            }
        }
        Some(first)
    }
}

} // verus!
