use caplog::stable_list::{StableList, CHUNK_SIZE};

/// Test that an item pushed into StableList can then be retrieved via `get` and the iterator
#[test]
fn push_and_check_single_item() {
    let mut list = StableList::new();
    assert_eq!(list.get(0), None);
    list.push(1002);
    assert_eq!(list.get(0), Some(&1002));
    let mut iter = list.iter();
    assert_eq!(iter.next(&list), Some(&1002));
}

#[test]
fn push_and_check_full_chunk() {
    let mut list = StableList::new();
    assert_eq!(list.get(0), None);
    for i in 0..CHUNK_SIZE {
        list.push(100 + i);
    }
    for i in 0..CHUNK_SIZE {
        assert_eq!(list.get(i), Some(&(100 + i)));
    }
}

#[test]
fn push_and_check_multiple_chunks() {
    let mut list = StableList::new();
    assert_eq!(list.get(0), None);
    for i in 0..(CHUNK_SIZE * 2) {
        list.push(100 + i);
    }
    for i in 0..(CHUNK_SIZE * 2) {
        assert_eq!(list.get(i), Some(&(100 + i)));
    }
}

/// Test that populating the list then iterating over it works
#[test]
fn populate_and_iterate_simple() {
    let mut list = StableList::new();
    let mut iter = list.iter();
    let arb_values = CHUNK_SIZE * 2 + 1;
    for i in 0..arb_values {
        list.push(i * 10);
    }
    assert_eq!(list.len(), arb_values);
    let mut values_found = 0;
    let mut exp = 0;
    while let Some(val) = iter.next(&list) {
        assert_eq!(exp * 10, *val);
        exp += 1;
        values_found += 1;
    }
    assert_eq!(values_found, arb_values);
}

/// Test that iterator will return values again after returning None if new values are added to
/// base list
#[test]
fn iterator_resumption() {
    let mut list = StableList::new();
    let mut iter = list.iter();
    assert_eq!(list.len(), 0);
    assert_eq!(iter.next(&list), None);
    list.push(1000);
    assert_eq!(list.len(), 1);
    assert_eq!(iter.next(&list), Some(&1000));
}

/// Test that handing out multiple iterators at the same time works.
#[test]
fn multiple_iterators() {
    let mut list = StableList::<i32>::new();
    let mut iter_1 = list.iter();
    let mut iter_2 = list.iter();
    for i in 100..200 {
        list.push(i);
        let a = iter_1.next(&list);
        let b = iter_2.next(&list);
        assert_eq!(Some(&i), a);
        assert_eq!(Some(&i), b);
    }
}

/// Test that iterator can be bounded and retain resumption
#[test]
fn bounded_iterator_resumption() {
    let mut list = StableList::new();
    let mut iter = list.bounded_iter(0, Some(5));
    assert_eq!(iter.next(&list), None);
    for i in 1000..1010 {
        list.push(i);
    }
    assert_eq!(list.len(), 10);
    for i in 1000..1005 {
        assert_eq!(iter.next(&list), Some(&i));
    }
    assert_eq!(iter.next(&list), None);
}

/// Test that iterator can be started from a non-zero index
#[test]
fn bounded_iterator_non_zero_start() {
    let mut list = StableList::new();
    let mut iter = list.bounded_iter(5, None);
    assert_eq!(iter.next(&list), None);
    for i in 1000..1010 {
        list.push(i);
    }
    for i in 1005..1010 {
        assert_eq!(iter.next(&list), Some(&i));
    }
    assert_eq!(iter.next(&list), None);
}

/// Test that iterators started around CHUNK_SIZE don't encounter edge cases
#[test]
fn bounded_iterator_boundary_start() {
    let mut list = StableList::new();
    for i in 0..(CHUNK_SIZE * 2) {
        list.push(i * 2);
    }
    let expected = ((CHUNK_SIZE - 1)..=(CHUNK_SIZE + 1))
        .map(|v| v * 2)
        .collect::<Vec<usize>>();
    let mut lower_iter = list.bounded_iter(CHUNK_SIZE - 1, None);
    let mut middle_iter = list.bounded_iter(CHUNK_SIZE, None);
    let mut upper_iter = list.bounded_iter(CHUNK_SIZE + 1, None);
    let mut lower_vals: Vec<usize> = Vec::new();
    for _ in 0..3 {
        lower_vals.push(*lower_iter.next(&list).unwrap());
    }
    assert_eq!(expected, lower_vals);
    let mut middle_vals: Vec<usize> = Vec::new();
    for _ in 0..2 {
        middle_vals.push(*middle_iter.next(&list).unwrap());
    }
    assert_eq!(expected[1..], middle_vals[..]);
    assert_eq!(expected.get(2), upper_iter.next(&list));
}

/// Reading every index back around each chunk edge: one short of a chunk,
/// exactly one chunk, one past it, and two full chunks.
#[test]
fn push_and_check_chunk_edges() {
    for n in [CHUNK_SIZE - 1, CHUNK_SIZE, CHUNK_SIZE + 1, 2 * CHUNK_SIZE] {
        let mut list = StableList::new();
        for i in 0..n {
            list.push(100 + i);
        }
        assert_eq!(list.len(), n);
        for i in 0..n {
            assert_eq!(list.get(i), Some(&(100 + i)));
        }
        assert_eq!(list.get(n), None);
    }
}

/// The committed length starts at zero and grows by exactly one per push.
#[test]
fn len_monotonic_under_pushes() {
    let mut list = StableList::new();
    let mut prev = list.len();
    assert_eq!(prev, 0);
    for i in 0..(CHUNK_SIZE + 5) {
        list.push(i);
        let cur = list.len();
        assert_eq!(cur, prev + 1);
        prev = cur;
    }
}

/// Values read before further growth are unchanged after it.
#[test]
fn values_stable_across_growth() {
    let mut list = StableList::new();
    for i in 0..CHUNK_SIZE {
        list.push(i * 3);
    }
    let before = (0..CHUNK_SIZE)
        .map(|i| *list.get(i).unwrap())
        .collect::<Vec<usize>>();
    for i in 0..CHUNK_SIZE {
        list.push(i);
    }
    for i in 0..CHUNK_SIZE {
        assert_eq!(*list.get(i).unwrap(), before[i]);
    }
}

/// A bounded iterator whose window starts at or past its end yields nothing,
/// however much the list grows.
#[test]
fn bounded_iterator_degenerate_window() {
    let mut list = StableList::new();
    let mut empty = list.bounded_iter(3, Some(3));
    let mut backwards = list.bounded_iter(4, Some(2));
    for i in 0..10 {
        list.push(i);
    }
    assert_eq!(empty.next(&list), None);
    assert_eq!(backwards.next(&list), None);
    assert_eq!(empty.next(&list), None);
}
