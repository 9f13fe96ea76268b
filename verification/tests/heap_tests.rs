use huffman::heap::{Entry, MinHeap};

fn entry(weight: u32, order: usize) -> Entry {
    Entry { weight, order }
}

fn drain(heap: &mut MinHeap) -> Vec<(u32, usize)> {
    let mut out = Vec::new();
    while let Some(first) = heap.pop() {
        out.push((first.weight, first.order));
    }
    out
}

#[test]
fn empty_heap_gives_nothing() {
    let mut heap = MinHeap::new();
    assert_eq!(heap.len(), 0);
    assert!(heap.pop().is_none());
    assert_eq!(heap.len(), 0);
}

#[test]
fn heap_counts_its_entries() {
    let mut heap = MinHeap::new();
    heap.push(entry(3, 0));
    heap.push(entry(1, 1));
    heap.push(entry(2, 2));
    assert_eq!(heap.len(), 3);
    assert!(heap.pop().is_some());
    assert_eq!(heap.len(), 2);
}

#[test]
fn lighter_entries_leave_first() {
    let mut heap = MinHeap::new();
    let weights = [16u32, 5, 45, 12, 9, 13];
    for (order, weight) in weights.iter().enumerate() {
        heap.push(entry(*weight, order));
    }
    assert_eq!(
        drain(&mut heap),
        vec![(5, 1), (9, 4), (12, 3), (13, 5), (16, 0), (45, 2)]
    );
}

#[test]
fn of_equally_light_entries_the_later_leaves_first() {
    let mut heap = MinHeap::new();
    for order in 0..5usize {
        heap.push(entry(7, order));
    }
    assert_eq!(drain(&mut heap), vec![(7, 4), (7, 3), (7, 2), (7, 1), (7, 0)]);
}

#[test]
fn weight_goes_before_arrival() {
    let mut heap = MinHeap::new();
    heap.push(entry(2, 0));
    heap.push(entry(1, 1));
    heap.push(entry(2, 2));
    heap.push(entry(1, 3));
    heap.push(entry(0, 4));
    assert_eq!(drain(&mut heap), vec![(0, 4), (1, 3), (1, 1), (2, 2), (2, 0)]);
}

#[test]
fn leaves_before_is_the_order_of_the_heap() {
    assert!(entry(1, 0).leaves_before(&entry(2, 0)));
    assert!(!entry(2, 0).leaves_before(&entry(1, 0)));
    assert!(entry(1, 5).leaves_before(&entry(1, 4)));
    assert!(!entry(1, 4).leaves_before(&entry(1, 5)));
    assert!(!entry(1, 4).leaves_before(&entry(1, 4)));
    assert!(entry(1, 0).leaves_before(&entry(2, 9)));
}

#[test]
fn pushes_and_pops_in_turn() {
    let mut heap = MinHeap::new();
    heap.push(entry(5, 0));
    heap.push(entry(3, 1));
    let first = heap.pop().unwrap();
    assert_eq!((first.weight, first.order), (3, 1));
    heap.push(entry(4, 2));
    heap.push(entry(9, 3));
    let second = heap.pop().unwrap();
    assert_eq!((second.weight, second.order), (4, 2));
    heap.push(entry(5, 4));
    assert_eq!(drain(&mut heap), vec![(5, 4), (5, 0), (9, 3)]);
}

#[test]
fn many_entries_leave_in_order() {
    let mut heap = MinHeap::new();
    let mut expected = Vec::new();
    for order in 0..1000usize {
        let weight = ((order * 7919) % 97) as u32;
        heap.push(entry(weight, order));
        expected.push((weight, order));
    }
    expected.sort_by(|a, b| a.0.cmp(&b.0).then(b.1.cmp(&a.1)));
    assert_eq!(drain(&mut heap), expected);
}
