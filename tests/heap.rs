use algos::heap::MinHeap;

#[test]
fn test_heap() {
    let mut heap = MinHeap::<i64> {
        length: 0,
        data: Vec::new(),
    };
    heap.insert(3);
    heap.insert(2);
    heap.insert(1);

    assert_eq!(heap.data[0], 1);
    assert_eq!(heap.data[1], 3);
    assert_eq!(heap.data[2], 2);

    assert_eq!(heap.delete(), 1);
    assert_eq!(heap.data[0], 2);
    assert_eq!(heap.data[1], 3);
    assert_eq!(heap.length, 2);
    assert_eq!(heap.delete(), 2);
    assert_eq!(heap.data[0], 3);
    assert_eq!(heap.length, 1);

    heap.insert(1);
    assert_eq!(heap.data[0], 1);
    assert_eq!(heap.data[1], 3);
    assert_eq!(heap.length, 2);

    heap.delete();
    heap.delete();

    assert_eq!(heap.length, 0);
    assert_eq!(heap.data.len(), 0);
}

#[test]
fn heap_deletes_in_ascending_order() {
    let mut heap = MinHeap::<i64> {
        length: 0,
        data: Vec::new(),
    };
    for v in [5, -2, 9, 0, 5, 7, -8, 3] {
        heap.insert(v);
    }
    let mut out = Vec::new();
    while heap.length > 0 {
        out.push(heap.delete());
    }
    assert_eq!(out, vec![-8, -2, 0, 3, 5, 5, 7, 9]);
}

#[test]
fn heap_new_empties() {
    let mut heap = MinHeap::<i64> {
        length: 0,
        data: Vec::new(),
    };
    heap.insert(4);
    heap.insert(1);
    heap.new();
    assert_eq!(heap.length, 0);
    assert!(heap.data.is_empty());
    heap.insert(6);
    assert_eq!(heap.delete(), 6);
}
