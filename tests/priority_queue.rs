use data_structures::priority_queue::{is_min_heap, PriorityQueue};
use std::any::{Any, TypeId};

#[test]
fn priority_queue_instantiation() {
    assert_eq!(
        PriorityQueue::<u8>::new(1).type_id(),
        TypeId::of::<PriorityQueue<u8>>()
    );
    assert_eq!(
        PriorityQueue::<u16>::new(1).type_id(),
        TypeId::of::<PriorityQueue<u16>>()
    );
}

#[test]
fn priority_queue_default_instantiation() {
    let priority_queue = PriorityQueue::<u8>::default();

    assert_eq!(priority_queue.index_len(), 0);
    assert_eq!(priority_queue.as_slice().len(), 0);
    assert_eq!(priority_queue.size(), 0);
    assert!(priority_queue.is_empty());
}

#[test]
fn size_after_operations() {
    let mut pq: PriorityQueue<i32> = PriorityQueue::new(1);
    assert_eq!(pq.size(), 0);
    pq.add(42);
    assert_eq!(pq.size(), 1);
    pq.add(7);
    assert_eq!(pq.size(), 2);
    pq.poll();
    assert_eq!(pq.size(), 1);
    pq.clear();
    assert_eq!(pq.size(), 0);
}

#[test]
fn instantiation_from_slice() {
    let slice = &[3, 1, 4, 1, 5];
    let pq: PriorityQueue<i32> = PriorityQueue::from(&slice[..]);

    assert_eq!(pq.size(), 5);
    assert!(pq.contains(3));
    assert!(pq.contains(1));
    assert!(pq.contains(4));
    assert!(pq.contains(5));
}

#[test]
fn instantiation_from_invalid_heap_slice() {
    let slice = &[1, 8, 5, 3, 6, 9];
    let pq: PriorityQueue<i32> = PriorityQueue::from(&slice[..]);

    assert_eq!(pq.size(), 6);
    assert!(is_min_heap(0, pq.as_slice()));
}

#[test]
fn instantiation_from_repeated_values() {
    let slice = &[1; 6];
    let pq: PriorityQueue<i32> = PriorityQueue::from(&slice[..]);

    assert_eq!(pq.size(), 6);
    assert!(is_min_heap(0, pq.as_slice()));
}

#[test]
fn poll_empty_queue() {
    let mut pq: PriorityQueue<i32> = PriorityQueue::new(1);
    assert_eq!(pq.poll(), None);
}

#[test]
fn poll_single_element() {
    let mut pq: PriorityQueue<i32> = PriorityQueue::new(1);
    pq.add(42);
    assert_eq!(pq.size(), 1);
    assert_eq!(pq.poll(), Some(42));
    assert!(pq.is_empty());
}

#[test]
fn poll_instruction() {
    let mut pq = PriorityQueue::new(10);
    pq.add(10);
    pq.add(20);
    pq.add(5);

    assert_eq!(pq.poll(), Some(5));
    assert_eq!(pq.size(), 2);
    assert!(!pq.contains(5));
}

#[test]
fn size_check_after_operations() {
    let mut pq = PriorityQueue::new(10);
    pq.add(10);
    pq.add(20);
    pq.add(5);

    assert_eq!(pq.size(), 3);

    pq.poll();
    assert_eq!(pq.size(), 2);

    pq.clear();
    assert_eq!(pq.size(), 0);
}

#[test]
fn is_min_heap_success() {
    let mut pq = PriorityQueue::new(10);
    pq.add(1);
    pq.add(3);
    pq.add(6);
    pq.add(5);
    pq.add(9);
    pq.add(8);

    assert!(is_min_heap(0, pq.as_slice()));
}

#[test]
fn is_min_heap_failure_by_larger_left_leaf() {
    let heap = vec![1, 8, 5, 3, 6, 9];

    assert!(!is_min_heap(0, &heap));
}

#[test]
fn is_min_heap_failure_by_larger_right_leaf() {
    let heap = vec![1, 5, 1, 8, 3, 6, 9];

    assert!(!is_min_heap(0, &heap));
}

#[test]
fn remove_nonexistent_element() {
    let mut pq: PriorityQueue<i32> = PriorityQueue::new(1);
    pq.add(42);
    assert_eq!(pq.size(), 1);
    assert!(!pq.remove(99));
    assert!(!pq.is_empty());
    assert_eq!(pq.size(), 1);
}

#[test]
fn remove_existent_element() {
    let mut pq: PriorityQueue<i32> = PriorityQueue::new(1);
    pq.add(42);
    assert_eq!(pq.size(), 1);
    assert!(pq.remove(42));
    assert!(pq.is_empty());
    assert_eq!(pq.size(), 0);
}

#[test]
fn remove_element_maintains_heap_invariant() {
    let mut pq: PriorityQueue<i32> = PriorityQueue::new(1);
    pq.add(42);
    assert!(is_min_heap(0, pq.as_slice()));
    assert!(pq.remove(42));
    assert!(pq.is_empty());
    assert!(is_min_heap(0, pq.as_slice()));
}

#[test]
fn remove_where_right_element_is_smaller() {
    let pq_values = [42, 30, 43, 30, 31, 45, 44, 41];
    let mut pq: PriorityQueue<i32> = PriorityQueue::from(&pq_values[..]);

    assert_eq!(pq.size(), 8);
    assert!(pq.remove(43));
    assert!(!pq.is_empty());
    assert!(is_min_heap(2, pq.as_slice()));
    assert!(is_min_heap(1, pq.as_slice()));
}

#[test]
fn empty_check() {
    let mut pq = PriorityQueue::new(10);
    assert!(pq.is_empty());

    pq.add(10);
    assert!(!pq.is_empty());

    pq.clear();
    assert!(pq.is_empty());
}

#[test]
fn is_empty_after_operations() {
    let mut pq: PriorityQueue<i32> = PriorityQueue::new(1);
    assert!(pq.is_empty());
    pq.add(42);
    assert!(!pq.is_empty());
    pq.poll();
    assert!(pq.is_empty());
    pq.add(7);
    pq.clear();
    assert!(pq.is_empty());
}

#[test]
fn empty_peel_check() {
    let pq: PriorityQueue<i32> = PriorityQueue::default();

    assert_eq!(pq.peel(), None);
}

#[test]
fn single_item_peel_check() {
    let mut pq: PriorityQueue<i32> = PriorityQueue::default();
    let i = 1;
    pq.add(i);

    assert_eq!(pq.peel(), Some(&i));
}

#[test]
fn peel_check_after_collection_addition() {
    let mut pq: PriorityQueue<i32> = PriorityQueue::default();

    pq.add(3);
    pq.add(2);
    let i = 1;
    pq.add(i);

    assert_eq!(pq.peel(), Some(&i));
}

#[test]
fn peel_check_after_removal() {
    let mut pq: PriorityQueue<i32> = PriorityQueue::default();

    pq.add(3);
    let j = 2;
    pq.add(j);
    let i = 1;
    pq.add(i);
    pq.remove(i);

    assert_eq!(pq.peel(), Some(&j));
}

fn index_points_at_values(pq: &PriorityQueue<i32>) -> bool {
    pq.as_slice().iter().all(|v| pq.contains(*v))
}

#[test]
fn from_slice_peeks_least() {
    let pq: PriorityQueue<i32> = PriorityQueue::from(&[3, 1, 4, 1, 5][..]);
    assert_eq!(pq.size(), 5);
    assert_eq!(pq.peel(), Some(&1));
    assert!(is_min_heap(0, pq.as_slice()));
}

#[test]
fn from_empty_and_single_slices() {
    let empty: PriorityQueue<i32> = PriorityQueue::from(&[][..]);
    assert!(empty.is_empty());
    assert_eq!(empty.index_len(), 0);
    let single: PriorityQueue<i32> = PriorityQueue::from(&[7][..]);
    assert_eq!(single.size(), 1);
    assert_eq!(single.peel(), Some(&7));
    assert!(is_min_heap(0, single.as_slice()));
}

#[test]
fn polls_come_out_in_order() {
    let values = [9, 4, 7, 1, 8, 2, 2, 6, 3, 5, 0, 7];
    let mut pq = PriorityQueue::new(0);
    for v in values {
        pq.add(v);
        assert!(is_min_heap(0, pq.as_slice()));
    }
    let mut out = Vec::new();
    while let Some(v) = pq.poll() {
        assert!(is_min_heap(0, pq.as_slice()));
        out.push(v);
    }
    let mut sorted = values.to_vec();
    sorted.sort();
    assert_eq!(out, sorted);
    assert!(pq.is_empty());
}

#[test]
fn size_counts_adds_and_removals() {
    let mut pq = PriorityQueue::new(4);
    for v in [5u16, 3, 8, 1] {
        pq.add(v);
    }
    assert_eq!(pq.size(), 4);
    assert!(pq.remove(8));
    assert!(!pq.remove(8));
    assert_eq!(pq.size(), 3);
    assert_eq!(pq.poll(), Some(1));
    assert_eq!(pq.size(), 2);
}

#[test]
fn index_has_one_entry_per_distinct_value() {
    let mut pq = PriorityQueue::new(4);
    for v in [5, 3, 8, 1] {
        pq.add(v);
    }
    assert_eq!(pq.index_len(), pq.size());
    pq.add(3);
    assert_eq!(pq.size(), 5);
    assert_eq!(pq.index_len(), 4);
    assert!(index_points_at_values(&pq));
}

#[test]
fn removing_one_duplicate_keeps_the_other() {
    let values = [42, 30, 43, 30, 31, 45, 44, 41];
    let mut pq: PriorityQueue<i32> = PriorityQueue::from(&values[..]);
    assert!(pq.remove(30));
    assert!(pq.contains(30));
    assert_eq!(pq.size(), 7);
    assert!(is_min_heap(0, pq.as_slice()));
    assert!(index_points_at_values(&pq));
    assert!(pq.remove(30));
    assert!(!pq.contains(30));
    assert!(!pq.remove(30));
    assert!(is_min_heap(0, pq.as_slice()));
}

#[test]
fn remove_every_value_keeps_heap() {
    let values = [42, 30, 43, 30, 31, 45, 44, 41, 12, 50, 29];
    for target in values {
        let mut pq: PriorityQueue<i32> = PriorityQueue::from(&values[..]);
        assert!(pq.remove(target));
        assert_eq!(pq.size(), values.len() - 1);
        assert!(is_min_heap(0, pq.as_slice()));
        assert!(index_points_at_values(&pq));
    }
}

#[test]
fn remove_at_returns_slot_value() {
    let mut pq: PriorityQueue<i32> = PriorityQueue::from(&[4, 9, 6, 11, 10][..]);
    let at_two = pq.as_slice()[2];
    assert_eq!(pq.remove_at(2), Some(at_two));
    assert_eq!(pq.size(), 4);
    assert!(is_min_heap(0, pq.as_slice()));
    let mut empty: PriorityQueue<i32> = PriorityQueue::new(0);
    assert_eq!(empty.remove_at(0), None);
}

#[test]
fn removed_value_needing_swim() {
    // the last value moves into a slot under a larger parent and must go up
    let mut pq: PriorityQueue<i32> = PriorityQueue::from(&[1, 50, 2, 60, 70, 3, 4][..]);
    assert!(pq.remove(60));
    assert!(is_min_heap(0, pq.as_slice()));
    assert_eq!(pq.as_slice()[1], 4);
}

#[test]
fn validator_checks_subtrees() {
    let heap = [1, 8, 5, 3, 6, 9];
    assert!(!is_min_heap(1, &heap));
    assert!(is_min_heap(2, &heap));
    assert!(is_min_heap(6, &heap));
    assert!(is_min_heap(0, &[] as &[i32]));
}

#[test]
fn remove_sinks_into_smaller_right_child() {
    // added in heap order, so no value moves: the layout is the one written
    let mut pq: PriorityQueue<i32> = PriorityQueue::new(7);
    for v in [30, 31, 41, 43, 42, 45, 44] {
        pq.add(v);
    }
    assert_eq!(pq.as_slice(), &[30, 31, 41, 43, 42, 45, 44]);
    assert!(pq.remove(31));
    assert_eq!(pq.as_slice(), &[30, 42, 41, 43, 44, 45]);
    assert!(is_min_heap(0, pq.as_slice()));
    assert!(pq.contains(44));
    assert!(!pq.contains(31));
}

#[test]
fn drain_round_trip() {
    let values = [5, 3, 9, 3, 1, 8, 1, 7];
    let mut pq = PriorityQueue::new(0);
    for v in values {
        pq.add(v);
    }
    let out = pq.drain();
    assert_eq!(out, vec![1, 1, 3, 3, 5, 7, 8, 9]);
    assert!(pq.is_empty());
    assert_eq!(pq.poll(), None);
    assert_eq!(pq.index_len(), 0);
}

#[test]
fn drain_of_from_slice() {
    let mut pq: PriorityQueue<u8> = PriorityQueue::from(&[4, 2, 2, 0, 255][..]);
    assert_eq!(pq.drain(), vec![0, 2, 2, 4, 255]);
}
