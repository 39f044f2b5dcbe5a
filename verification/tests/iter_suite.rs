use rand::distributions::Standard;
use rand::rngs::SmallRng;
use rand::Rng;
use rand::SeedableRng;
use rotated_vec::RotatedVec;

fn filled_random(num_elems: usize, seed: u64) -> RotatedVec<usize> {
    let rng: SmallRng = SeedableRng::seed_from_u64(seed);
    let mut rotated_vec: RotatedVec<usize> = RotatedVec::new();
    for v in rng.sample_iter(&Standard).take(num_elems) {
        rotated_vec.push(v);
    }
    rotated_vec
}

#[test]
fn push_pop() {
    let num_elems: usize = 1 << 10;
    let seed: u64 = u64::from_be_bytes(*b"cafebabe");
    let mut rotated_vec = filled_random(num_elems, seed);
    let rng: SmallRng = SeedableRng::seed_from_u64(seed);
    let iter = rng
        .sample_iter(&Standard)
        .take(num_elems)
        .collect::<Vec<usize>>()
        .into_iter()
        .rev();
    for v in iter {
        assert_eq!(rotated_vec.pop().unwrap(), v);
    }
    assert!(rotated_vec.is_empty());
}

#[test]
fn compare_iter() {
    let num_elems: usize = 1 << 10;
    let seed: u64 = u64::from_be_bytes(*b"cafebabe");
    let rotated_vec = filled_random(num_elems, seed);
    let mut iter = rotated_vec.iter();
    let mut i: usize = 0;
    while let Some(&v) = iter.next() {
        assert!(*rotated_vec.get(i).unwrap() == v);
        i += 1;
    }
    assert_eq!(i, num_elems);
}

#[test]
fn compare_into_iter() {
    let num_elems: usize = 1 << 10;
    let seed: u64 = u64::from_be_bytes(*b"cafebabe");
    let rotated_vec = filled_random(num_elems, seed);
    let mut iter = rotated_vec.clone().into_iter();
    for i in 0..num_elems {
        assert!(*rotated_vec.get(i).unwrap() == iter.next().unwrap());
    }
}

#[test]
fn test_iter_overrides() {
    let num_elems: usize = 1 << 10;
    let mut data: Vec<usize> = Vec::new();
    for v in 0usize..num_elems {
        data.push(v);
    }
    let rotated_vec: RotatedVec<usize> = RotatedVec::from_vec(data);
    let iter = rotated_vec.iter();
    // minimum and maximum over a copy of the iterator
    let mut min_iter = iter;
    let mut min_val: usize = usize::MAX;
    let mut max_val: usize = 0;
    while let Some(&v) = min_iter.next() {
        if v < min_val {
            min_val = v;
        }
        if v > max_val {
            max_val = v;
        }
    }
    assert!(min_val == *rotated_vec.get(0).unwrap());
    assert!(max_val == *rotated_vec.get(num_elems - 1).unwrap());
    assert!(*iter.last().unwrap() == *rotated_vec.get(num_elems - 1).unwrap());
    assert!(iter.count() == rotated_vec.len());
    assert!(*iter.last().unwrap() == *rotated_vec.get(num_elems - 1).unwrap());
    let step = num_elems / 10;
    let mut iter_nth = iter;
    assert!(*iter_nth.nth(step - 1).unwrap() == *rotated_vec.get(step - 1).unwrap());
    assert!(*iter_nth.nth(step - 1).unwrap() == *rotated_vec.get((2 * step) - 1).unwrap());
    let mut iter_nth_back = iter;
    let last_index = rotated_vec.len() - 1;
    assert!(
        *iter_nth_back.nth_back(step - 1).unwrap()
            == *rotated_vec.get(last_index - step + 1).unwrap()
    );
    assert!(
        *iter_nth_back.nth_back(step - 1).unwrap()
            == *rotated_vec.get(last_index - (2 * step) + 1).unwrap()
    );
    let mut iter_mixed = iter;
    for i in 0..(num_elems / 2) {
        assert!(*iter_mixed.next().unwrap() == *rotated_vec.get(i).unwrap());
        assert!(*iter_mixed.next_back().unwrap() == *rotated_vec.get(last_index - i).unwrap());
    }
    assert!(iter_mixed.next().is_none());
}

#[test]
fn iter_empty_and_size_hint() {
    let empty: RotatedVec<u32> = RotatedVec::new();
    let mut it = empty.iter();
    assert!(it.next().is_none());
    assert!(it.next_back().is_none());
    assert!(it.last().is_none());
    let v: RotatedVec<u32> = RotatedVec::from_vec(vec![7, 8, 9]);
    let mut it = v.iter();
    assert_eq!(it.size_hint(), (3, Some(3)));
    assert_eq!(it.len(), 3);
    assert_eq!(it.next(), Some(&7));
    assert_eq!(it.size_hint(), (2, Some(2)));
}

#[test]
fn iter_mut_indices() {
    // mutate every element through the index cursor, as a mutable iterator
    // would: [1, 2, 3] becomes [2, 3, 4]
    let mut v: RotatedVec<i32> = RotatedVec::from_vec(vec![1, 2, 3]);
    let mut cursor = v.iter_mut();
    while let Some(i) = cursor.next() {
        let old = *v.get(i).unwrap();
        let prev = v.get_mut(i, old + 1);
        assert_eq!(prev, Some(old));
    }
    assert_eq!(v.clone().into_vec(), vec![2, 3, 4]);
    // the rear end of the cursor works too, and the ends never meet twice
    let mut cursor = v.iter_mut();
    assert_eq!(cursor.next_back(), Some(2));
    assert_eq!(cursor.next(), Some(0));
    assert_eq!(cursor.next_back(), Some(1));
    assert_eq!(cursor.next(), None);
    assert_eq!(cursor.next_back(), None);
}
