use heap::{Data, EmptyHeap, Heap, Node, NotFound};

#[test]
fn sorted_extraction_binary() {
    // priorities come out in non-decreasing order, whatever went in
    let mut heap = Heap::<u32, 2>::new();
    let input: Vec<(u32, u64)> = vec![
        (10, 9),
        (11, 3),
        (12, 7),
        (13, 3),
        (14, 1),
        (15, 8),
        (16, 0),
        (17, 5),
    ];
    for (v, p) in input {
        heap.insert(v, p);
    }
    let mut prios = Vec::new();
    while let Ok(v) = heap.top() {
        let p = match v {
            10 => 9,
            11 => 3,
            12 => 7,
            13 => 3,
            14 => 1,
            15 => 8,
            16 => 0,
            17 => 5,
            _ => unreachable!(),
        };
        prios.push(p);
    }
    assert_eq!(prios.len(), 8);
    for w in prios.windows(2) {
        assert!(w[0] <= w[1]);
    }
}

#[test]
fn size_conservation() {
    // after k inserts and j <= k extractions, len() == k - j
    let mut heap = Heap::<u32, 2>::new();
    let k: usize = 12;
    for i in 0..k {
        heap.insert(i as u32, (100 - i) as u64);
        assert_eq!(heap.len(), i + 1);
    }
    let j: usize = 7;
    for i in 0..j {
        assert!(heap.top().is_ok());
        assert_eq!(heap.len(), k - i - 1);
    }
    assert_eq!(heap.len(), k - j);
}

#[test]
fn ternary_scenarios() {
    // scenario 1 again, with arity 3: extraction order stays by priority
    let mut heap = Heap::<i32, 3>::new();
    heap.insert(4, 4);
    heap.insert(2, 2);
    heap.insert(3, 3);
    heap.insert(1, 1);
    assert_eq!(heap.top().unwrap(), 1);
    assert_eq!(heap.top().unwrap(), 2);
    assert_eq!(heap.top().unwrap(), 3);
    assert_eq!(heap.top().unwrap(), 4);

    // scenario 2 again, with arity 3: the entry with priority 0 reaches the root
    let data: Data<i32> = vec![
        Node {
            value: 1,
            priority: 1,
        },
        Node {
            value: 2,
            priority: 2,
        },
        Node {
            value: 3,
            priority: 3,
        },
        Node {
            value: 4,
            priority: 4,
        },
        Node {
            value: 5,
            priority: 5,
        },
        Node {
            value: 6,
            priority: 0,
        },
    ];
    let mut heap = Heap::<i32, 3>::new_from(data);
    assert_eq!(heap.peek(), Ok(&6));
    assert_eq!(heap.top().unwrap(), 6);
    assert_eq!(heap.top().unwrap(), 1);
    assert_eq!(heap.top().unwrap(), 2);
    assert_eq!(heap.top().unwrap(), 3);
    assert_eq!(heap.top().unwrap(), 4);
    assert_eq!(heap.top().unwrap(), 5);
}

#[test]
fn tie_break_last_child() {
    // both children of the root carry the same priority: the scan keeps the
    // later one, so the root swaps with index 2, not index 1
    let data: Data<i32> = vec![
        Node {
            value: 0,
            priority: 5,
        },
        Node {
            value: 1,
            priority: 1,
        },
        Node {
            value: 2,
            priority: 1,
        },
    ];
    let (index, priority) = heap::highest_priority_child::<i32, 2>(&data, 0).unwrap();
    assert_eq!(index, 2);
    assert_eq!(priority, 1);

    let mut data = data;
    heap::push_down::<i32, 2>(&mut data, 0);
    assert_eq!(data[0].value, 2);
    assert_eq!(data[2].value, 0);
    assert_eq!(data[1].value, 1);
}

#[test]
fn empty_heap_errors() {
    let mut heap = Heap::<i32, 2>::new();
    assert_eq!(heap.peek(), Err(EmptyHeap));
    assert_eq!(heap.top(), Err(EmptyHeap));
    assert_eq!(heap.len(), 0);
}

#[test]
fn not_found_errors() {
    let mut heap = Heap::<i32, 2>::new();
    assert_eq!(heap.remove(1), Err(NotFound));
    assert_eq!(heap.update(1, 0), Err(NotFound));
    heap.insert(1, 1);
    assert_eq!(heap.remove(2), Err(NotFound));
    assert_eq!(heap.update(2, 0), Err(NotFound));
    assert_eq!(heap.len(), 1);
    // the sole entry goes away only when its value matches
    assert_eq!(heap.remove(1), Ok(()));
    assert!(heap.is_empty());
}

#[test]
fn heapify_empty_and_single() {
    let mut data: Data<i32> = vec![];
    heap::heapify::<i32, 2>(&mut data);
    assert_eq!(data.len(), 0);

    let heap = Heap::<i32, 2>::new_from(vec![]);
    assert!(heap.is_empty());

    let mut heap = Heap::<i32, 2>::new_from(vec![Node {
        value: 9,
        priority: 4,
    }]);
    assert_eq!(heap.top().unwrap(), 9);
    assert_eq!(heap.top(), Err(EmptyHeap));
}

#[test]
fn remove_first_of_equal_values() {
    // two entries share the value: remove takes the first in array order and
    // leaves the other
    let mut heap = Heap::<i32, 2>::new();
    heap.insert(7, 1);
    heap.insert(7, 5);
    heap.insert(8, 3);
    assert_eq!(heap.remove(7), Ok(()));
    assert_eq!(heap.len(), 2);
    assert_eq!(heap.top().unwrap(), 8);
    assert_eq!(heap.top().unwrap(), 7);
}

#[test]
fn remove_deep_then_order_holds() {
    // removing a leaf-bound value must not break the order among the rest
    let mut heap = Heap::<u32, 2>::new();
    for (v, p) in [(1, 10), (2, 20), (3, 30), (4, 40), (5, 50), (6, 15)] {
        heap.insert(v, p);
    }
    assert_eq!(heap.remove(4), Ok(()));
    assert_eq!(heap.top().unwrap(), 1);
    assert_eq!(heap.top().unwrap(), 6);
    assert_eq!(heap.top().unwrap(), 2);
    assert_eq!(heap.top().unwrap(), 3);
    assert_eq!(heap.top().unwrap(), 5);
}

#[test]
fn remove_restores_upward() {
    // the entry swapped into the vacated slot here outranks its new parent,
    // so the removal must lift it toward the root, not only sink it
    let entries: Vec<(u32, u64)> = vec![
        (1, 1),
        (2, 2),
        (3, 20),
        (4, 3),
        (5, 4),
        (6, 21),
        (7, 22),
        (8, 5),
    ];
    let data: Data<u32> = entries
        .into_iter()
        .map(|(value, priority)| Node { value, priority })
        .collect();
    let mut heap = Heap::<u32, 2>::new_from(data);
    // value 6 (priority 21) sits under (3,20); the last entry (8,5) takes
    // its slot and has to climb over (3,20)
    assert_eq!(heap.remove(6), Ok(()));
    let order: Vec<u32> = std::iter::from_fn(|| heap.top().ok()).collect();
    assert_eq!(order, vec![1, 2, 4, 5, 8, 3, 7]);
}

#[test]
fn update_direction() {
    // lowering a priority brings the value forward, raising pushes it back
    let mut heap = Heap::<i32, 2>::new();
    heap.insert(1, 10);
    heap.insert(2, 20);
    heap.insert(3, 30);
    assert_eq!(heap.update(3, 5), Ok(()));
    assert_eq!(heap.peek(), Ok(&3));
    assert_eq!(heap.update(3, 25), Ok(()));
    assert_eq!(heap.top().unwrap(), 1);
    assert_eq!(heap.top().unwrap(), 2);
    assert_eq!(heap.top().unwrap(), 3);
}

#[test]
fn update_keeps_priority() {
    // an update to the same priority changes nothing observable
    let mut heap = Heap::<i32, 2>::new();
    heap.insert(1, 1);
    heap.insert(2, 2);
    assert_eq!(heap.update(2, 2), Ok(()));
    assert_eq!(heap.top().unwrap(), 1);
    assert_eq!(heap.top().unwrap(), 2);
}

#[test]
fn with_capacity_and_new_heap() {
    let mut heap = Heap::<i32, 2>::with_capacity(16);
    assert!(heap.is_empty());
    heap.insert(3, 3);
    heap.new_heap(vec![
        Node {
            value: 1,
            priority: 2,
        },
        Node {
            value: 2,
            priority: 1,
        },
    ]);
    assert_eq!(heap.len(), 2);
    assert_eq!(heap.top().unwrap(), 2);
    assert_eq!(heap.top().unwrap(), 1);
}
