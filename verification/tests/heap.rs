use sif::binary_heap::BinaryHeap;
use sif::model::index::Index;
use sif::model::sparse::SparseMap;
use std::collections::HashMap;

fn new_heap() -> BinaryHeap<usize, u32, SparseMap<usize, Option<Index>>> {
    BinaryHeap::new(SparseMap::new(None))
}

#[test]
fn pop_on_empty_heap_is_none() {
    let mut heap = new_heap();
    assert_eq!(heap.pop(), None);
    assert!(heap.try_decrease(3, 7));
    assert_eq!(heap.pop(), Some((3, 7)));
    assert_eq!(heap.pop(), None);
}

#[test]
fn try_decrease_takes_only_lower_values() {
    let mut heap = new_heap();
    assert!(heap.try_decrease(1, 10));
    assert!(!heap.try_decrease(1, 10));
    assert!(!heap.try_decrease(1, 11));
    assert!(heap.try_decrease(1, 9));
    assert!(heap.try_decrease(2, 9));
    assert!(heap.try_decrease(2, 3));
    assert_eq!(heap.pop(), Some((2, 3)));
    assert_eq!(heap.pop(), Some((1, 9)));
    assert_eq!(heap.pop(), None);
}

#[test]
fn try_decrease_and_pop() {
    let mut state: u64 = 12345;
    for round in 0..40 {
        let mut items: Vec<(usize, u32)> = Vec::new();
        for _ in 0..(round * 7 % 60) {
            state = state.wrapping_mul(6364136223846793005).wrapping_add(1442695040888963407);
            let key = ((state >> 33) % 16) as usize;
            state = state.wrapping_mul(6364136223846793005).wrapping_add(1442695040888963407);
            let value = ((state >> 33) % 100) as u32;
            items.push((key, value));
        }
        let mut minimums: HashMap<usize, u32> = HashMap::new();
        for (k, v) in items.iter() {
            let entry = minimums.entry(*k).or_insert(*v);
            if *v < *entry {
                *entry = *v;
            }
        }
        let mut heap = new_heap();
        for (k, v) in items {
            heap.try_decrease(k, v);
        }
        let mut last = 0;
        let mut popped = 0;
        while let Some((key, value)) = heap.pop() {
            assert!(last <= value);
            last = value;
            assert_eq!(minimums.remove(&key), Some(value));
            popped += 1;
        }
        assert!(minimums.is_empty());
        assert!(popped <= 16);
    }
}
