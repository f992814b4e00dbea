use succinct_vec::SuccinctVec;

#[test]
fn empty_queries() {
    let mut a: SuccinctVec<u32> = Default::default();
    assert!(a.is_empty());
    assert_eq!(a.len(), 0);
    assert_eq!(a.pop(), None);
    assert_eq!(a.read(0), None);
    assert_eq!(a.last(), None);
    assert_eq!(a.last_mut(7), None);
    assert!(a.is_empty());
    a.simple_sanity_check();
}

#[test]
fn read_out_of_bounds() {
    let mut a: SuccinctVec<u32> = Default::default();
    for i in 0..5 {
        a.push(i);
    }
    assert_eq!(a.read(5), None);
    assert_eq!(a.read(1000), None);
    assert_eq!(*a.read(4).unwrap(), 4);
}

#[test]
fn capacity_exact_small() {
    // capacity by the scheme: blocks of sizes 1, 2, 2, 4, ... and the
    // retained spare block
    let mut a: SuccinctVec<u32> = Default::default();
    assert_eq!(a.capacity(), 1);
    a.push(0);
    assert_eq!(a.capacity(), 1);
    a.push(1);
    assert_eq!(a.capacity(), 3);
    a.push(2);
    assert_eq!(a.capacity(), 3);
    a.push(3);
    assert_eq!(a.capacity(), 5);
    for i in 4..8 {
        a.push(i);
    }
    assert_eq!(a.capacity(), 11);
}

#[test]
fn capacity_keeps_spare_after_pop() {
    let mut a: SuccinctVec<u32> = Default::default();
    a.push(0);
    a.push(1);
    // two blocks of sizes 1 and 2; popping empties the second, which is
    // retained as the spare and still counted
    a.pop();
    assert_eq!(a.len(), 1);
    assert_eq!(a.capacity(), 3);
}

#[test]
fn memory_bound_large() {
    // after a million pushes the wasted capacity is a small multiple of
    // sqrt(n), nowhere near a constant fraction of n
    let n: usize = 1_000_000;
    let mut a: SuccinctVec<usize> = Default::default();
    for i in 0..n {
        a.push(i);
    }
    assert_eq!(a.len(), n);
    let waste = a.capacity() - a.len();
    assert!(waste <= 4 * 1000);
    a.simple_sanity_check();
}

#[test]
fn round_trip_rebuild() {
    let mut a: SuccinctVec<usize> = Default::default();
    for i in 0..2500 {
        a.push(i * 7);
    }
    let contents = a.iter();
    let mut b: SuccinctVec<usize> = Default::default();
    for x in &contents {
        b.push(*x);
    }
    // same contents, and the same shape: equal lengths force equal block
    // structure, observable through the capacity
    assert_eq!(b.iter(), contents);
    assert_eq!(b.len(), a.len());
    assert_eq!(b.capacity(), a.capacity());
    b.simple_sanity_check();
}

#[test]
fn swap_replace_middle() {
    let mut a: SuccinctVec<u64> = Default::default();
    for i in 0..100 {
        a.push(i);
    }
    let old = a.swap_replace(37, 999);
    assert_eq!(old, 37);
    assert_eq!(*a.read(37).unwrap(), 999);
    assert_eq!(*a.read(36).unwrap(), 36);
    assert_eq!(*a.read(38).unwrap(), 38);
    assert_eq!(a.len(), 100);
}

#[test]
fn last_and_last_mut() {
    let mut a: SuccinctVec<u32> = Default::default();
    a.push(10);
    a.push(20);
    assert_eq!(*a.last().unwrap(), 20);
    let old = a.last_mut(25);
    assert_eq!(old, Some(20));
    assert_eq!(*a.last().unwrap(), 25);
    assert_eq!(a.pop(), Some(25));
    assert_eq!(a.pop(), Some(10));
}

#[test]
fn insert_at_len_is_push() {
    let mut a: SuccinctVec<usize> = Default::default();
    let mut v: Vec<usize> = Vec::new();
    for i in 0..300 {
        let at = a.len();
        a.insert(at, i);
        v.push(i);
    }
    assert_eq!(a.iter(), v);
    a.simple_sanity_check();
}

#[test]
fn remove_last_matches_pop() {
    let mut a: SuccinctVec<usize> = Default::default();
    let mut b: SuccinctVec<usize> = Default::default();
    for i in 0..200 {
        a.push(i);
        b.push(i);
    }
    for _ in 0..200 {
        let at = a.len() - 1;
        let x = a.remove(at);
        let y = b.pop().unwrap();
        assert_eq!(x, y);
        a.simple_sanity_check();
    }
    assert!(a.is_empty());
}

#[test]
fn interleaved_grow_shrink_boundary() {
    // push and pop around block boundaries to exercise the spare block
    let mut a: SuccinctVec<usize> = Default::default();
    let mut v: Vec<usize> = Vec::new();
    for round in 0..200 {
        for i in 0..round {
            a.push(i);
            v.push(i);
        }
        for _ in 0..(round / 2) {
            assert_eq!(a.pop(), v.pop());
        }
        a.simple_sanity_check();
    }
    assert_eq!(a.iter(), v);
}
