use fibonacci_heap::fib_heap::{FibonacciHeap, HeapError, Item};
use fibonacci_heap::heap_ops::{HeapOperations, PriorityItem};

fn drain(h: &mut FibonacciHeap) -> Vec<u64> {
    let mut out = Vec::new();
    while let Ok(k) = h.delete_min() {
        out.push(k);
    }
    out
}

#[test]
fn empty_heap_reports_empty() {
    let mut h = FibonacciHeap::new();
    assert!(h.is_empty());
    assert_eq!(h.len(), 0);
    assert_eq!(h.find_min(), Err(HeapError::EmptyHeap));
    assert_eq!(h.delete_min(), Err(HeapError::EmptyHeap));
}

#[test]
fn scenario_insert_delete_insert() {
    let mut h = FibonacciHeap::new();
    for k in [5u64, 3, 8, 1] {
        h.insert(k);
    }
    assert_eq!(h.find_min(), Ok(1));
    assert_eq!(h.delete_min(), Ok(1));
    assert_eq!(h.find_min(), Ok(3));
    h.insert(0);
    assert_eq!(h.find_min(), Ok(0));
    assert_eq!(h.delete_min(), Ok(0));
    assert_eq!(h.delete_min(), Ok(3));
    assert_eq!(h.delete_min(), Ok(5));
    assert_eq!(h.delete_min(), Ok(8));
    assert_eq!(h.delete_min(), Err(HeapError::EmptyHeap));
}

#[test]
fn scenario_sixteen_keys_consolidate() {
    let mut h = FibonacciHeap::new();
    for k in 1..=16u64 {
        h.insert(k);
    }
    assert_eq!(h.root_nodes().len(), 16);
    assert_eq!(h.delete_min(), Ok(1));
    assert_eq!(h.find_min(), Ok(2));
    assert_eq!(h.len(), 15);
    let roots = h.root_nodes();
    let mut degrees: Vec<usize> = roots.iter().map(|&r| h.degree(r)).collect();
    degrees.sort();
    // 15 nodes in binomial-shaped trees of distinct degrees: 1 + 2 + 4 + 8.
    assert_eq!(degrees, vec![0, 1, 2, 3]);
}

#[test]
fn extraction_is_sorted() {
    let mut h = FibonacciHeap::new();
    let keys = [42u64, 7, 19, 7, 100, 0, 63, 5, 5, 88, 23, 1];
    for k in keys {
        h.insert(k);
    }
    let mut expected = keys.to_vec();
    expected.sort();
    assert_eq!(drain(&mut h), expected);
    assert_eq!(h.delete_min(), Err(HeapError::EmptyHeap));
}

#[test]
fn decrease_key_rejects_increase() {
    let mut h = FibonacciHeap::new();
    let a = h.insert(10);
    let b = h.insert(20);
    assert_eq!(h.decrease_key(b, 25), Err(HeapError::KeyIncreaseRejected));
    assert_eq!(h.key_of(b), Some(20));
    assert_eq!(h.key_of(a), Some(10));
    assert_eq!(h.find_min(), Ok(10));
    assert_eq!(h.len(), 2);
    assert_eq!(h.decrease_key(b, 20), Ok(()));
    assert_eq!(drain(&mut h), vec![10, 20]);
}

#[test]
fn decrease_key_of_root_updates_min() {
    let mut h = FibonacciHeap::new();
    h.insert(10);
    let b = h.insert(20);
    assert_eq!(h.decrease_key(b, 4), Ok(()));
    assert_eq!(h.find_min(), Ok(4));
    assert_eq!(h.key_of(b), Some(4));
}

#[test]
fn decrease_key_cuts_and_cascades() {
    let mut h = FibonacciHeap::new();
    let mut handles = Vec::new();
    for k in 1..=17u64 {
        handles.push(h.insert(k * 10));
    }
    // Consolidation leaves one tree of 16 nodes.
    assert_eq!(h.delete_min(), Ok(10));
    assert_eq!(h.root_nodes().len(), 1);
    // Lower deep keys below their parents, one after another.
    for (i, &node) in handles.iter().enumerate().skip(1).rev() {
        assert_eq!(h.decrease_key(node, i as u64), Ok(()));
        assert_eq!(h.find_min(), Ok(i as u64));
    }
    assert_eq!(drain(&mut h), (1..=16u64).collect::<Vec<_>>());
}

#[test]
fn decrease_key_below_parent_keeps_other_keys() {
    let mut h = FibonacciHeap::new();
    let mut handles = Vec::new();
    for k in [3u64, 9, 6, 12, 15, 1] {
        handles.push(h.insert(k));
    }
    assert_eq!(h.delete_min(), Ok(1));
    assert_eq!(h.decrease_key(handles[3], 2), Ok(()));
    assert_eq!(h.find_min(), Ok(2));
    assert_eq!(h.key_of(handles[5]), None);
    assert_eq!(drain(&mut h), vec![2, 3, 6, 9, 15]);
}

#[test]
fn meld_yields_sorted_union() {
    let mut a = FibonacciHeap::new();
    let mut b = FibonacciHeap::new();
    for k in [5u64, 1, 9] {
        a.insert(k);
    }
    for k in [4u64, 2, 8, 2] {
        b.insert(k);
    }
    assert_eq!(b.delete_min(), Ok(2));
    let (la, lb) = (a.len(), b.len());
    let mut m = a.meld(b);
    assert_eq!(m.len(), la + lb);
    assert_eq!(m.find_min(), Ok(1));
    assert_eq!(drain(&mut m), vec![1, 2, 4, 5, 8, 9]);
}

#[test]
fn meld_with_empty_heaps() {
    let mut a = FibonacciHeap::new();
    a.insert(3);
    let m = a.meld(FibonacciHeap::new());
    assert_eq!(m.find_min(), Ok(3));
    let mut m2 = FibonacciHeap::new().meld(m);
    assert_eq!(m2.find_min(), Ok(3));
    assert_eq!(drain(&mut m2), vec![3]);
}

#[test]
fn meld_moves_handles_of_second_heap() {
    let mut a = FibonacciHeap::new();
    a.insert(30);
    a.insert(40);
    let mut b = FibonacciHeap::new();
    let hb = b.insert(50);
    let mut m = a.meld(b);
    let moved = hb + 2;
    assert_eq!(m.key_of(moved), Some(50));
    assert_eq!(m.decrease_key(moved, 10), Ok(()));
    assert_eq!(m.find_min(), Ok(10));
}

#[test]
fn item_reports_its_key() {
    let it = Item::new(77);
    assert_eq!(it.key(), 77);
    assert_eq!(it.get_key(), 77);
}

fn through_trait<H: HeapOperations>(mut h: H) -> Vec<u64> {
    h.insert(6);
    h.insert(2);
    let n = h.insert(9);
    let _ = HeapOperations::decrease_key(&mut h, n, 1);
    let mut out = Vec::new();
    while let Ok(k) = HeapOperations::delete_min(&mut h) {
        out.push(k);
    }
    out
}

#[test]
fn heap_operations_trait() {
    assert_eq!(through_trait(FibonacciHeap::new()), vec![1, 2, 6]);
}
