use algorithms::max_heap::MaxHeap;
use algorithms::min_heap::MinHeap;

#[test]
fn max_heap_test_new() {
    let xs = vec![4, 5, 1, 2, 4];
    let mut heap = MaxHeap::new().init(xs);
    assert_eq!(5, heap.len());
    assert_eq!(Some(&5), heap.maxmium());
    assert_eq!(Some(5), heap.pop_max());
    assert_eq!(Some(4), heap.pop_max());
    assert_eq!(Some(4), heap.pop_max());
    assert_eq!(Some(2), heap.pop_max());
    assert_eq!(Some(1), heap.pop_max());
    assert_eq!(None, heap.pop_max());
}

#[test]
fn max_heap_test_push_pop() {
    let mut heap = MaxHeap::new();
    assert_eq!(0, heap.len());
    heap.push(4);
    heap.push(5);
    heap.push(1);
    heap.push(2);
    heap.push(4);
    assert_eq!(5, heap.len());
    assert_eq!(Some(&5), heap.maxmium());
    assert_eq!(Some(5), heap.pop_max());
    assert_eq!(Some(4), heap.pop_max());
    assert_eq!(Some(4), heap.pop_max());
    assert_eq!(Some(2), heap.pop_max());
    assert_eq!(Some(1), heap.pop_max());
    assert_eq!(None, heap.pop_max());
}

#[test]
fn min_heap_test_new() {
    let xs = vec![4, 5, 1, 2, 4];
    let mut heap = MinHeap::new().init(xs);
    assert_eq!(5, heap.len());
    assert_eq!(Some(&1), heap.min());
    assert_eq!(Some(1), heap.pop_min());
    assert_eq!(Some(2), heap.pop_min());
    assert_eq!(Some(4), heap.pop_min());
    assert_eq!(Some(4), heap.pop_min());
    assert_eq!(Some(5), heap.pop_min());
    assert_eq!(None, heap.pop_min());
}

#[test]
fn min_heap_test_push_pop() {
    let mut heap = MinHeap::new();
    assert_eq!(0, heap.len());
    heap.push(4);
    heap.push(5);
    heap.push(1);
    heap.push(2);
    heap.push(4);
    assert_eq!(5, heap.len());
    assert_eq!(Some(&1), heap.min());
    assert_eq!(Some(1), heap.pop_min());
    assert_eq!(Some(2), heap.pop_min());
    assert_eq!(Some(4), heap.pop_min());
    assert_eq!(Some(4), heap.pop_min());
    assert_eq!(Some(5), heap.pop_min());
    assert_eq!(None, heap.pop_min());
}

#[test]
fn heaps_interleaved() {
    let mut max = MaxHeap::new();
    let mut min = MinHeap::new();
    assert!(max.is_empty() && min.is_empty());
    for x in [7, 3, 9, 3, 1] {
        max.push(x);
        min.push(x);
    }
    assert_eq!(max.pop_max(), Some(9));
    assert_eq!(min.pop_min(), Some(1));
    max.push(8);
    min.push(0);
    assert_eq!(max.maxmium(), Some(&8));
    assert_eq!(min.min(), Some(&0));
    assert_eq!(max.len(), 5);
    assert!(!min.is_empty());
}
