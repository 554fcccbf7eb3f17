use heap::heap::Heap;
use heap::heap_sort::heapsort;

#[test]
fn simulate_heap_client() {
    let mut heap = Heap::new();
    let mut stdheap = std::collections::BinaryHeap::<i32>::new();

    for (i, j) in vec![(1, 1), (2, 2), (3, 3), (4, 4), (-1, 4)] {
        heap.insert(i);
        stdheap.push(i);
        assert_eq!(heap.peek().unwrap(), j);
    }

    for i in vec![4, 3, 2, 1, -1] {
        assert_eq!(heap.pop().unwrap(), i);
        assert_eq!(stdheap.pop(), Some(i));
    }
    assert_eq!(heap.size(), 0)
}

#[test]
fn heapify_test() {
    let mut unsorted = vec![5, 2, 3, 1, 4];
    let sorted = vec![1, 2, 3, 4, 5];
    heapsort(&mut unsorted);
    assert_eq!(unsorted, sorted);

    let mut unsorted = vec![1, 2, 3, 4, 5];
    let sorted = vec![1, 2, 3, 4, 5];
    heapsort(&mut unsorted);
    assert_eq!(unsorted, sorted);

    let mut unsorted = vec![1, 5, 8, 9, 3, 4, 5, 5, 0];
    let sorted = vec![0, 1, 3, 4, 5, 5, 5, 8, 9];
    heapsort(&mut unsorted);
    assert_eq!(unsorted, sorted);
}

#[test]
fn empty_heap_has_nothing() {
    let mut heap: Heap<i32> = Heap::new();
    assert!(heap.is_empty());
    assert_eq!(heap.size(), 0);
    assert_eq!(heap.peek(), None);
    assert_eq!(heap.pop(), None);
    assert!(heap.is_empty());
}

#[test]
fn is_empty_follows_size() {
    let mut heap = Heap::new();
    heap.insert(7u8);
    assert!(!heap.is_empty());
    assert_eq!(heap.pop(), Some(7));
    assert!(heap.is_empty());
}

#[test]
fn peek_leaves_heap_alone() {
    let mut heap = Heap::new();
    for v in [3, 9, 1, 9, 4] {
        heap.insert(v);
    }
    assert_eq!(heap.peek(), Some(9));
    assert_eq!(heap.peek(), Some(9));
    assert_eq!(heap.peek(), Some(9));
    assert_eq!(heap.size(), 5);
    assert_eq!(heap.pop(), Some(9));
    assert_eq!(heap.peek(), Some(9));
    assert_eq!(heap.pop(), Some(9));
    assert_eq!(heap.peek(), Some(4));
}

#[test]
fn size_after_inserts_and_pops() {
    let mut heap = Heap::new();
    for v in 0..10i64 {
        heap.insert(v * 37 % 11);
    }
    assert_eq!(heap.size(), 10);
    for _ in 0..4 {
        assert!(heap.pop().is_some());
    }
    assert_eq!(heap.size(), 6);
}

#[test]
fn pops_come_out_in_order_with_every_value() {
    let vals = vec![5, -3, 12, 0, 5, 7, -3, 100, 2, 2, 2];
    let mut heap = Heap::new();
    for &v in &vals {
        heap.insert(v);
    }
    let mut outs = Vec::new();
    while let Some(v) = heap.pop() {
        outs.push(v);
    }
    assert_eq!(outs, vec![100, 12, 7, 5, 5, 2, 2, 2, 0, -3, -3]);
}

#[test]
fn interleaved_inserts_and_pops() {
    let mut heap = Heap::new();
    heap.insert(4);
    heap.insert(8);
    assert_eq!(heap.pop(), Some(8));
    heap.insert(6);
    heap.insert(1);
    assert_eq!(heap.peek(), Some(6));
    assert_eq!(heap.pop(), Some(6));
    assert_eq!(heap.pop(), Some(4));
    heap.insert(0);
    assert_eq!(heap.pop(), Some(1));
    assert_eq!(heap.pop(), Some(0));
    assert_eq!(heap.pop(), None);
}

#[test]
fn heapify_keeps_every_element() {
    let mut heap = Heap::heapify(vec![3, 1, 4, 1, 5, 9, 2, 6]);
    assert_eq!(heap.size(), 8);
    assert_eq!(heap.peek(), Some(9));
    let mut outs = Vec::new();
    while let Some(v) = heap.pop() {
        outs.push(v);
    }
    assert_eq!(outs, vec![9, 6, 5, 4, 3, 2, 1, 1]);
}

#[test]
fn heapify_of_nothing_and_one() {
    let mut heap: Heap<u32> = Heap::heapify(Vec::new());
    assert!(heap.is_empty());
    assert_eq!(heap.pop(), None);
    let mut heap = Heap::heapify(vec![42u32]);
    assert_eq!(heap.peek(), Some(42));
    assert_eq!(heap.pop(), Some(42));
    assert!(heap.is_empty());
}

#[test]
fn heapsort_short_inputs_unchanged() {
    let mut empty: Vec<i32> = Vec::new();
    heapsort(&mut empty);
    assert!(empty.is_empty());
    let mut one = vec![-8];
    heapsort(&mut one);
    assert_eq!(one, vec![-8]);
}

#[test]
fn heapsort_reverse_and_duplicates() {
    let mut v = vec![9, 8, 7, 6, 5, 4, 3, 2, 1, 0];
    heapsort(&mut v);
    assert_eq!(v, vec![0, 1, 2, 3, 4, 5, 6, 7, 8, 9]);
    let mut d = vec![2, 2, 1, 1, 2, 1];
    heapsort(&mut d);
    assert_eq!(d, vec![1, 1, 1, 2, 2, 2]);
    let mut two = vec![2, 1];
    heapsort(&mut two);
    assert_eq!(two, vec![1, 2]);
}

#[test]
fn heapsort_matches_std_sort() {
    let mut v: Vec<i64> = (0..200i64).map(|i| (i * 7919 + 13) % 101 - 50).collect();
    let mut expected = v.clone();
    expected.sort();
    heapsort(&mut v);
    assert_eq!(v, expected);
}

#[test]
fn heapsort_twice_is_same() {
    let mut v = vec![4, 4, 0, -2, 17, 3];
    heapsort(&mut v);
    let once = v.clone();
    heapsort(&mut v);
    assert_eq!(v, once);
}

#[test]
fn heapsort_on_part_of_a_slice() {
    let mut v = vec![10, 3, 2, 1, 0];
    heapsort(&mut v[1..4]);
    assert_eq!(v, vec![10, 1, 2, 3, 0]);
}

#[derive(Clone, Copy, Debug)]
struct Keyed {
    key: i32,
    tag: u8,
}

impl PartialEq for Keyed {
    fn eq(&self, other: &Keyed) -> bool {
        self.key == other.key
    }
}

impl Eq for Keyed {}

impl PartialOrd for Keyed {
    fn partial_cmp(&self, other: &Keyed) -> Option<std::cmp::Ordering> {
        Some(self.cmp(other))
    }
}

impl Ord for Keyed {
    fn cmp(&self, other: &Keyed) -> std::cmp::Ordering {
        self.key.cmp(&other.key)
    }
}

#[test]
fn equal_children_send_the_right_one_up() {
    let items = vec![
        Keyed { key: 1, tag: 0 },
        Keyed { key: 3, tag: 1 },
        Keyed { key: 3, tag: 2 },
    ];
    let mut heap = Heap::heapify(items);
    let top = heap.peek().unwrap();
    assert_eq!(top.key, 3);
    assert_eq!(top.tag, 2);
    assert_eq!(heap.pop().unwrap().tag, 2);
    assert_eq!(heap.pop().unwrap().tag, 1);
    assert_eq!(heap.pop().unwrap().tag, 0);
}
