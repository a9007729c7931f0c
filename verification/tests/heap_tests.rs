//! The priority queue: push, decrease-key, pop and delete, cross-checked
//! against a sorted reference model.

use rusty_roads::fibonacci_heap::{DecreaseOutcome, FibonacciHeap};

#[test]
fn pop_on_empty_heap_is_none() {
    let mut heap: FibonacciHeap<u64> = FibonacciHeap::new();
    assert!(heap.is_empty());
    assert_eq!(heap.len(), 0);
    assert_eq!(heap.pop(), None);
}

#[test]
fn pops_come_out_in_key_order() {
    let mut heap: FibonacciHeap<u64> = FibonacciHeap::new();
    let keys = [41u64, 7, 29, 3, 3, 56, 18, 0, 99, 12];
    for (i, k) in keys.iter().enumerate() {
        heap.push(*k, i as u64);
    }
    assert_eq!(heap.len(), keys.len());
    let mut sorted = keys.to_vec();
    sorted.sort();
    for expect in sorted {
        let (k, _) = heap.pop().unwrap();
        assert_eq!(k, expect);
    }
    assert!(heap.is_empty());
}

#[test]
fn reference_multiset_replay() {
    // Replay a mixed push/decrease/pop trace against a sorted reference:
    // each pop must return the minimum of the keys currently present.
    let mut heap: FibonacciHeap<u64> = FibonacciHeap::new();
    let mut model: Vec<u64> = Vec::new();
    let mut handles = Vec::new();
    let mut seed: u64 = 0x2545_f491_4f6c_dd1d;
    for step in 0..200u64 {
        seed = seed.wrapping_mul(6364136223846793005).wrapping_add(1442695040888963407);
        let choice = seed >> 61;
        if choice < 4 || model.is_empty() {
            let key = (seed >> 20) % 1000;
            handles.push((heap.push(key, step), key));
            model.push(key);
        } else if choice < 6 {
            // Decrease some previously issued handle; stale ones report so.
            let pick = ((seed >> 13) as usize) % handles.len();
            let (h, old_key) = handles[pick];
            let new_key = old_key / 2;
            match heap.decrease_key(&h, new_key) {
                DecreaseOutcome::Decreased => {
                    let pos = model.iter().position(|k| *k == old_key).unwrap();
                    model.remove(pos);
                    model.push(new_key);
                    handles[pick] = (h, new_key);
                }
                DecreaseOutcome::WouldIncrease => {}
                DecreaseOutcome::Stale => {}
            }
        } else {
            let (k, _) = heap.pop().unwrap();
            let min = *model.iter().min().unwrap();
            assert_eq!(k, min);
            let pos = model.iter().position(|kk| *kk == k).unwrap();
            model.remove(pos);
        }
    }
    while let Some((k, _)) = heap.pop() {
        let min = *model.iter().min().unwrap();
        assert_eq!(k, min);
        let pos = model.iter().position(|kk| *kk == k).unwrap();
        model.remove(pos);
    }
    assert!(model.is_empty());
}

#[test]
fn decrease_key_reorders() {
    let mut heap: FibonacciHeap<u64> = FibonacciHeap::new();
    heap.push(10, 1);
    let h20 = heap.push(20, 2);
    heap.push(30, 3);
    assert_eq!(heap.decrease_key(&h20, 5), DecreaseOutcome::Decreased);
    assert_eq!(heap.pop(), Some((5, 2)));
    assert_eq!(heap.pop(), Some((10, 1)));
    assert_eq!(heap.pop(), Some((30, 3)));
}

#[test]
fn decrease_key_increase_is_noop() {
    let mut heap: FibonacciHeap<u64> = FibonacciHeap::new();
    let h = heap.push(10, 1);
    assert_eq!(heap.decrease_key(&h, 50), DecreaseOutcome::WouldIncrease);
    assert_eq!(heap.pop(), Some((10, 1)));
}

#[test]
fn decrease_key_on_popped_entry_is_stale() {
    let mut heap: FibonacciHeap<u64> = FibonacciHeap::new();
    let h = heap.push(10, 1);
    heap.push(20, 2);
    assert_eq!(heap.pop(), Some((10, 1)));
    assert_eq!(heap.decrease_key(&h, 1), DecreaseOutcome::Stale);
    assert_eq!(heap.pop(), Some((20, 2)));
}

#[test]
fn delete_removes_mid_heap_entry() {
    let mut heap: FibonacciHeap<u64> = FibonacciHeap::new();
    heap.push(10, 1);
    let h20 = heap.push(20, 2);
    heap.push(30, 3);
    // Force some structure first.
    assert_eq!(heap.pop(), Some((10, 1)));
    assert_eq!(heap.delete(h20), Some((20, 2)));
    assert_eq!(heap.delete(h20), None);
    assert_eq!(heap.pop(), Some((30, 3)));
    assert_eq!(heap.pop(), None);
}

#[test]
fn cascading_cuts_keep_order() {
    // Build enough entries that consolidation links trees, then cut deep
    // with decrease-key and check the order of everything that remains.
    let mut heap: FibonacciHeap<u64> = FibonacciHeap::new();
    let mut handles = Vec::new();
    for k in 0..32u64 {
        handles.push(heap.push(100 + k, k));
    }
    assert_eq!(heap.pop(), Some((100, 0)));
    // Consolidation has built trees; now decrease several inner keys.
    for (i, h) in handles.iter().enumerate().skip(16) {
        assert_eq!(heap.decrease_key(h, i as u64), DecreaseOutcome::Decreased);
    }
    let mut expect: Vec<u64> = (16..32u64).chain(101..116).collect();
    expect.sort();
    for e in expect {
        let (k, _) = heap.pop().unwrap();
        assert_eq!(k, e);
    }
    assert!(heap.is_empty());
}
