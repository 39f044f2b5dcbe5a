use rotated_vec::RotatedVec;

#[test]
fn insert_scenario() {
    // start from [1, 2, 3]; insert(1, 4) gives [1, 4, 2, 3];
    // insert(4, 5) gives [1, 4, 2, 3, 5]
    let mut v: RotatedVec<i32> = RotatedVec::from_vec(vec![1, 2, 3]);
    v.insert(1, 4);
    assert_eq!(v.clone().into_vec(), vec![1, 4, 2, 3]);
    v.insert(4, 5);
    assert_eq!(v.clone().into_vec(), vec![1, 4, 2, 3, 5]);
}

#[test]
fn swap_scenario() {
    // on an unrotated container, physical slots coincide with logical
    // positions: ["a", "b", "c", "d"] with swap(1, 3) gives ["a", "d", "c", "b"]
    let mut v: RotatedVec<&str> = RotatedVec::from_vec(vec!["a", "b", "c", "d"]);
    v.swap(1, 3);
    assert_eq!(v.get(0), Some(&"a"));
    assert_eq!(v.get(1), Some(&"d"));
    assert_eq!(v.get(2), Some(&"c"));
    assert_eq!(v.get(3), Some(&"b"));
}

#[test]
fn drain_from_front_scenario() {
    // push 1..=1000 in order, then remove(0) one thousand times: each removal
    // yields 1, 2, …, 1000 in order and the container ends empty
    let mut v: RotatedVec<u32> = RotatedVec::new();
    for i in 1..=1000u32 {
        v.push(i);
    }
    for i in 1..=1000u32 {
        assert_eq!(v.remove(0), i);
    }
    assert!(v.is_empty());
    assert_eq!(v.len(), 0);
    assert_eq!(v.pop(), None);
}

#[test]
fn lifo_push_pop_scenario() {
    // pops return values in exact reverse push order, ending empty
    let mut v: RotatedVec<u32> = RotatedVec::new();
    let values: Vec<u32> = vec![3, 1, 4, 1, 5, 9, 2, 6, 5, 3, 5, 8, 9, 7, 9, 3];
    for &x in &values {
        v.push(x);
    }
    for &x in values.iter().rev() {
        assert_eq!(v.pop(), Some(x));
    }
    assert!(v.is_empty());
}
