use algos::arrays::{binary_search, bubble_sort, floor_sqrt, partition, quicksort, two_crystal_balls};
use algos::ring_buffer::RingBuffer;

#[test]
fn test_linear_search() {
    // test found
    let arr = [1, 2, 3, 4, 5];
    let target = 3;
    let low = 0;
    let high = arr.len();
    assert_eq!(binary_search(&arr, target, low, high), Some(2));

    let target = 5;
    assert_eq!(binary_search(&arr, target, low, high), Some(4));

    let target = 1;
    assert_eq!(binary_search(&arr, target, low, high), Some(0));

    // test not found
    let arr = [1, 2, 3, 4, 5];
    let target = 6;
    let low = 0;
    let high = arr.len() - 1;
    assert_eq!(binary_search(&arr, target, low, high), None);

    let target = 0;
    assert_eq!(binary_search(&arr, target, low, high), None);

    // test slice
    let arr = [1, 2, 3, 4, 5, 6, 7, 9, 10];
    let target = 5;
    let low = 2;
    let high = 6;
    assert_eq!(binary_search(&arr, target, low, high), Some(4));

    // test empty arr
    let arr: [i64; 0] = [];
    let target = 5;
    let low = 0;
    let high = arr.len();
    assert_eq!(binary_search(&arr, target, low, high), None);
}

#[test]
fn binary_search_outside_range_is_none() {
    let arr = [1, 2, 3, 4, 5];
    assert_eq!(binary_search(&arr, 1, 1, 5), None);
    assert_eq!(binary_search(&arr, 3, 3, 3), None);
    assert_eq!(binary_search(&arr, 3, 4, 2), None);
}

#[test]
fn test_two_crystal_balls() {
    let arr = [
        false, false, false, false, false, false, false, false, false, true,
    ];
    assert_eq!(two_crystal_balls(&arr), Some(9));

    let arr = [
        false, false, false, false, false, false, false, false, false, false,
    ];
    assert_eq!(two_crystal_balls(&arr), None);

    let arr = [
        false, false, false, false, false, true, true, true, true, true, true,
    ];
    assert_eq!(two_crystal_balls(&arr), Some(5));

    let arr = [
        true, true, true, true, true, true, true, true, true, true, true,
    ];
    assert_eq!(two_crystal_balls(&arr), Some(0));

    let arr: [bool; 0] = [];
    assert_eq!(two_crystal_balls(&arr), None);
}

#[test]
fn two_crystal_balls_single_and_last() {
    assert_eq!(two_crystal_balls(&[true]), Some(0));
    assert_eq!(two_crystal_balls(&[false]), None);
    let mut arr = vec![false; 100];
    arr[99] = true;
    assert_eq!(two_crystal_balls(&arr), Some(99));
}

#[test]
fn floor_sqrt_values() {
    assert_eq!(floor_sqrt(0), 0);
    assert_eq!(floor_sqrt(1), 1);
    assert_eq!(floor_sqrt(3), 1);
    assert_eq!(floor_sqrt(4), 2);
    assert_eq!(floor_sqrt(10), 3);
    assert_eq!(floor_sqrt(99), 9);
    assert_eq!(floor_sqrt(100), 10);
}

#[test]
fn test_bubble_sort() {
    // test worst case
    let mut arr = vec![5, 4, 3, 2, 1];
    bubble_sort(&mut arr);
    assert_eq!(arr, [1, 2, 3, 4, 5]);

    // test best case
    let mut arr = vec![1, 2, 3, 4, 5];
    bubble_sort(&mut arr);
    assert_eq!(arr, [1, 2, 3, 4, 5]);

    // test random
    let mut arr = vec![100, 5, 1, 6, 278, 53];
    bubble_sort(&mut arr);
    assert_eq!(arr, [1, 5, 6, 53, 100, 278]);

    // test empty
    let mut arr: Vec<i64> = vec![];
    bubble_sort(&mut arr);
    assert_eq!(arr, Vec::<i64>::new());
}

#[test]
fn bubble_sort_keeps_duplicates() {
    let mut arr = vec![3, -1, 3, 0, -1];
    bubble_sort(&mut arr);
    assert_eq!(arr, [-1, -1, 0, 3, 3]);
}

#[test]
fn test_quicksort() {
    let mut arr = vec![5, 4, 3, 2, 1];
    quicksort(&mut arr, 0, 4);
    assert_eq!(arr, [1, 2, 3, 4, 5]);

    arr = vec![1, 2, 3, 4, 5];
    quicksort(&mut arr, 0, 4);
    assert_eq!(arr, [1, 2, 3, 4, 5]);

    arr = vec![100, 5, 1, 6, 278];
    quicksort(&mut arr, 0, 4);
    assert_eq!(arr, [1, 5, 6, 100, 278]);
}

#[test]
fn quicksort_sub_range_only() {
    let mut arr = vec![9, 5, 4, 3, 0];
    quicksort(&mut arr, 1, 3);
    assert_eq!(arr, [9, 3, 4, 5, 0]);
}

#[test]
fn partition_places_pivot() {
    let mut arr = vec![7, 2, 9, 1, 5];
    let p = partition(&mut arr, 0, 4);
    assert_eq!(p, 2);
    assert_eq!(arr, [2, 1, 5, 7, 9]);
}

#[test]
fn test_ring_enque() {
    let mut rb = RingBuffer::<i64>::new(2);
    for i in 0..1000 {
        rb.enque(i);
    }
    assert_eq!(rb.size(), 1000);
    assert_eq!(rb.capacity(), 1024);
    assert_eq!(rb.size(), rb.storage().len());
    assert_eq!(rb.capacity(), rb.storage().capacity());
}

#[test]
fn ring_deque_in_order_across_wrap() {
    let mut rb = RingBuffer::<i64>::new(2);
    for i in 0..25 {
        rb.enque(i);
    }
    for i in 0..12 {
        assert_eq!(rb.deque(), i);
    }
    for i in 0..12 {
        rb.enque(i);
    }
    let expected_order = [
        12, 13, 14, 15, 16, 17, 18, 19, 20, 21, 22, 23, 24, 0, 1, 2, 3, 4, 5, 6, 7, 8, 9, 10, 11,
    ];
    for i in expected_order.iter() {
        assert_eq!(rb.deque(), *i);
    }
    assert_eq!(rb.size(), 0);
}

#[test]
fn ring_grows_only_when_full() {
    let mut rb = RingBuffer::<i64>::new(4);
    rb.enque(1);
    rb.enque(2);
    assert_eq!(rb.deque(), 1);
    rb.enque(3);
    rb.enque(4);
    rb.enque(5);
    assert_eq!(rb.capacity(), 4);
    rb.enque(6);
    assert_eq!(rb.capacity(), 8);
    for i in 2..7 {
        assert_eq!(rb.deque(), i);
    }
}
