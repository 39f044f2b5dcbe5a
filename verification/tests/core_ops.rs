use rotated_vec::RotatedVec;

fn as_plain(v: &RotatedVec<i32>) -> Vec<i32> {
    v.clone().into_vec()
}

#[test]
fn new_is_empty() {
    let v: RotatedVec<i32> = RotatedVec::new();
    assert!(v.is_empty());
    assert_eq!(v.len(), 0);
    assert!(v.get(0).is_none());
}

#[test]
fn default_is_empty() {
    let v: RotatedVec<i32> = Default::default();
    assert!(v.is_empty());
}

#[test]
fn with_capacity_and_reserve() {
    let mut v: RotatedVec<i32> = RotatedVec::with_capacity(10);
    assert_eq!(v.len(), 0);
    assert!(v.capacity() >= 10);
    for i in 0..10 {
        v.push(i);
    }
    assert_eq!(v.len(), 10);
    v.reserve(100);
    assert!(v.capacity() >= 110);
    v.reserve_exact(200);
    assert!(v.capacity() >= 210);
    v.shrink_to_fit();
    assert!(v.capacity() >= 10);
    assert_eq!(as_plain(&v), (0..10).collect::<Vec<i32>>());
}

#[test]
fn get_and_get_mut() {
    let mut v: RotatedVec<i32> = RotatedVec::from_vec(vec![1, 2, 3]);
    assert_eq!(v.get(0), Some(&1));
    assert_eq!(v.get(2), Some(&3));
    assert_eq!(v.get(3), None);
    assert_eq!(v.get_mut(1, 42), Some(2));
    assert_eq!(v.get(1), Some(&42));
    assert_eq!(v.get_mut(3, 0), None);
    assert_eq!(as_plain(&v), vec![1, 42, 3]);
}

#[test]
fn insert_and_remove_inverse() {
    // inserting then removing at the same position returns the value and
    // restores the other elements' relative order
    let mut v: RotatedVec<i32> = RotatedVec::from_vec(vec![5, 6, 7, 8, 9, 10, 11]);
    let before = as_plain(&v);
    v.insert(2, 99);
    assert_eq!(*v.get(2).unwrap(), 99);
    assert_eq!(v.len(), 8);
    let out = v.remove(2);
    assert_eq!(out, 99);
    assert_eq!(v.len(), 7);
    assert_eq!(as_plain(&v), before);
}

#[test]
fn remove_returns_element_from_early_subarray() {
    // removal from a subarray before the last must return the removed
    // element itself, even though the cascade rearranges the backing store
    let mut v: RotatedVec<i32> = RotatedVec::from_vec(vec![1, 2, 3, 4, 5, 6, 7, 8, 9, 10]);
    assert_eq!(v.remove(0), 1);
    assert_eq!(v.remove(3), 5);
    assert_eq!(as_plain(&v), vec![2, 3, 4, 6, 7, 8, 9, 10]);
}

#[test]
fn push_equals_insert_at_len() {
    let mut a: RotatedVec<i32> = RotatedVec::from_vec(vec![3, 1, 4]);
    let mut b = a.clone();
    a.push(15);
    let len = b.len();
    b.insert(len, 15);
    assert_eq!(as_plain(&a), as_plain(&b));
}

#[test]
fn remove_sole_element_leaves_empty() {
    let mut v: RotatedVec<i32> = RotatedVec::new();
    v.push(7);
    assert_eq!(v.remove(0), 7);
    assert!(v.is_empty());
    assert_eq!(v.pop(), None);
}

#[test]
fn pop_empty_is_none() {
    let mut v: RotatedVec<i32> = RotatedVec::new();
    assert_eq!(v.pop(), None);
}

#[test]
fn clear_empties() {
    let mut v: RotatedVec<i32> = RotatedVec::from_vec(vec![1, 2, 3]);
    v.clear();
    assert!(v.is_empty());
    v.push(4);
    assert_eq!(as_plain(&v), vec![4]);
}

#[test]
fn contains_scans_all() {
    let mut v: RotatedVec<i32> = RotatedVec::new();
    v.push(0);
    v.push(1);
    assert!(v.contains(&1));
    assert!(!v.contains(&10));
    // also after rotations
    v.insert(0, -5);
    v.insert(1, 17);
    assert!(v.contains(&17) && v.contains(&-5) && v.contains(&0) && v.contains(&1));
}

#[test]
fn truncate_keeps_prefix() {
    let mut v: RotatedVec<i32> = RotatedVec::from_vec(vec![1, 2, 3, 4, 5]);
    v.truncate(2);
    assert_eq!(as_plain(&v), vec![1, 2]);
    let mut v: RotatedVec<i32> = RotatedVec::from_vec(vec![1, 2, 3]);
    v.truncate(8);
    assert_eq!(as_plain(&v), vec![1, 2, 3]);
    v.truncate(0);
    assert!(v.is_empty());
}

#[test]
fn truncate_after_rotation() {
    // force rotated subarrays first, then truncate through one of them
    let mut v: RotatedVec<i32> = RotatedVec::from_vec(vec![10, 20, 30, 40, 50, 60, 70, 80, 90]);
    v.insert(1, 15);
    v.insert(3, 25);
    let plain = as_plain(&v);
    let mut w = v.clone();
    w.truncate(6);
    assert_eq!(as_plain(&w), plain[..6].to_vec());
}

#[test]
fn append_moves_all() {
    let mut v: RotatedVec<i32> = RotatedVec::from_vec(vec![1, 2, 3]);
    let mut w: RotatedVec<i32> = RotatedVec::from_vec(vec![4, 5, 6]);
    v.append(&mut w);
    assert_eq!(as_plain(&v), vec![1, 2, 3, 4, 5, 6]);
    assert!(w.is_empty());
}

#[test]
fn append_rotated_sources() {
    // both containers rotated: the logical orders must still concatenate
    let mut v: RotatedVec<i32> = RotatedVec::from_vec(vec![1, 2, 3, 4, 5, 6, 7]);
    v.insert(1, 100);
    let mut w: RotatedVec<i32> = RotatedVec::from_vec(vec![8, 9, 10, 11, 12, 13]);
    w.insert(0, 200);
    let mut expected = as_plain(&v);
    expected.extend_from_slice(&as_plain(&w));
    v.append(&mut w);
    assert_eq!(as_plain(&v), expected);
    assert!(w.is_empty());
}

#[test]
fn extend_copies_values() {
    let mut v: RotatedVec<i32> = RotatedVec::from_vec(vec![1, 2, 3]);
    v.extend(&vec![4, 5]);
    assert_eq!(as_plain(&v), vec![1, 2, 3, 4, 5]);
    v.extend(&Vec::new());
    assert_eq!(as_plain(&v), vec![1, 2, 3, 4, 5]);
}

#[test]
fn sort_yields_ascending_and_exact() {
    let mut v: RotatedVec<i32> = RotatedVec::from_vec(vec![-5, 4, 1, -3, 2]);
    v.sort();
    assert_eq!(as_plain(&v), vec![-5, -3, 1, 2, 4]);
    let mut v: RotatedVec<i32> = RotatedVec::from_vec(vec![-5, 4, 1, -3, 2]);
    v.sort_unstable();
    assert_eq!(as_plain(&v), vec![-5, -3, 1, 2, 4]);
}

#[test]
fn sort_after_rotation_iterates_non_decreasing() {
    let mut v: RotatedVec<i32> = RotatedVec::from_vec(vec![9, 9, 3, 7, 7, 1, 5, 0, 2]);
    v.insert(2, 8);
    v.insert(5, 4);
    v.sort();
    let mut it = v.iter();
    let mut prev = i32::MIN;
    while let Some(&x) = it.next() {
        assert!(prev <= x);
        prev = x;
    }
    assert_eq!(v.len(), 11);
}

#[test]
fn round_trip_through_plain_vector() {
    // build a heavily rotated container, convert out and back, compare
    let mut v: RotatedVec<i32> = RotatedVec::new();
    for i in 0..40 {
        v.push(i);
    }
    for i in 0..10 {
        v.insert((i * 3) % (v.len() + 1), 100 + i as i32);
    }
    let plain = v.clone().into_vec();
    let rebuilt: RotatedVec<i32> = RotatedVec::from_vec(plain);
    assert_eq!(v.len(), rebuilt.len());
    for i in 0..v.len() {
        assert_eq!(v.get(i), rebuilt.get(i));
    }
}

#[test]
fn mirrors_plain_vector_under_mixed_ops() {
    // a deterministic mixed workload, mirrored in a plain vector
    let mut v: RotatedVec<u64> = RotatedVec::new();
    let mut model: Vec<u64> = Vec::new();
    for step in 0u64..200 {
        let pos = (step as usize * 7) % (model.len() + 1);
        v.insert(pos, step);
        model.insert(pos, step);
    }
    for step in 0u64..100 {
        let pos = (step as usize * 5) % model.len();
        assert_eq!(v.remove(pos), model.remove(pos));
    }
    assert_eq!(v.len(), model.len());
    for i in 0..model.len() {
        assert_eq!(*v.get(i).unwrap(), model[i]);
    }
}

#[test]
fn element_wise_equality() {
    let a: RotatedVec<i32> = RotatedVec::from_vec(vec![1, 2, 3, 4, 5]);
    // a rotated container with the same logical contents is still equal
    let mut b: RotatedVec<i32> = RotatedVec::from_vec(vec![1, 3, 4, 5]);
    b.insert(1, 2);
    assert!(a.eq_elems(&b));
    assert!(b.eq_elems(&a));
    let c: RotatedVec<i32> = RotatedVec::from_vec(vec![1, 2, 3, 4, 6]);
    assert!(!a.eq_elems(&c));
    let d: RotatedVec<i32> = RotatedVec::from_vec(vec![1, 2, 3, 4]);
    assert!(!a.eq_elems(&d));
}

#[test]
fn from_slice_copies() {
    let s: [i32; 4] = [9, 8, 7, 6];
    let v: RotatedVec<i32> = RotatedVec::from_slice(&s);
    assert_eq!(v.clone().into_vec(), vec![9, 8, 7, 6]);
}
