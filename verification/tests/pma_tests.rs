use sparse_pma::pma::{PackedMemoryArray, Error};

#[test]
fn extends_track_ascending_inserts() {
    let mut pma = PackedMemoryArray::new(1, 92, 70, 8, 30);
    assert_eq!(pma.capacity, 1);
    let n: usize = 40;
    for k in 1..=n {
        pma.set(k, k as u64).unwrap();
    }
    assert!(pma.capacity >= n);
    assert!(pma.capacity <= 64);
    assert_eq!(pma.nnz(), n);
    for k in 1..=n {
        assert!(pma.contains_key(k));
        assert_eq!(pma.get(k), Some(k as u64));
    }
}

#[test]
fn iteration_is_strictly_ascending() {
    let mut pma = PackedMemoryArray::new(4, 92, 70, 8, 30);
    for &k in &[13usize, 2, 29, 5, 23, 11, 3, 19, 7, 17] {
        pma.set(k, 100 + k as u64).unwrap();
    }
    let pairs = pma.iter();
    assert_eq!(pairs.len(), 10);
    for w in pairs.windows(2) {
        assert!(w[0].0 < w[1].0);
    }
}

#[test]
fn lookups_see_the_last_write_and_nothing_else() {
    let mut pma = PackedMemoryArray::new(2, 92, 70, 8, 30);
    pma.set(4, 1).unwrap();
    pma.set(8, 2).unwrap();
    pma.set(4, 3).unwrap();
    assert_eq!(pma.get(4), Some(3));
    assert_eq!(pma.get(8), Some(2));
    assert_eq!(pma.get(6), None);
    assert!(!pma.contains_key(6));
    assert_eq!(pma.nnz(), 2);
}

#[test]
fn bulk_load_requires_ascending_keys() {
    let ok = PackedMemoryArray::from_vecs(vec![1, 4, 9], vec![10, 40, 90]);
    let pma = ok.unwrap();
    assert_eq!(pma.iter(), vec![(1, 10), (4, 40), (9, 90)]);
    assert_eq!(pma.nnz(), 3);

    let unsorted = PackedMemoryArray::from_vecs(vec![4, 1], vec![40, 10]);
    assert_eq!(unsorted.err(), Some(Error::InvalidInput));

    let duplicated = PackedMemoryArray::from_vecs(vec![4, 4], vec![40, 10]);
    assert_eq!(duplicated.err(), Some(Error::InvalidInput));

    let mismatched = PackedMemoryArray::from_vecs(vec![1], vec![]);
    assert_eq!(mismatched.err(), Some(Error::InvalidInput));
}

#[test]
fn capacity_stays_a_segment_multiple() {
    let mut pma = PackedMemoryArray::new(10, 92, 70, 8, 30);
    assert!(pma.capacity >= 10);
    assert_eq!(pma.capacity, pma.nb_segments * pma.segment_capacity);
    assert!(pma.nb_segments.is_power_of_two());
    for k in 1..=50usize {
        pma.set(k * 3, k as u64).unwrap();
    }
    assert_eq!(pma.capacity, pma.nb_segments * pma.segment_capacity);
    assert!(pma.nb_segments.is_power_of_two());
    assert_eq!(pma.nnz(), 50);
}

#[test]
fn descending_inserts_stay_sorted() {
    let mut pma = PackedMemoryArray::new(1, 92, 70, 8, 30);
    for k in (1..=30usize).rev() {
        pma.set(k, k as u64 * 2).unwrap();
    }
    let pairs = pma.iter();
    assert_eq!(pairs.len(), 30);
    for (i, &(k, v)) in pairs.iter().enumerate() {
        assert_eq!(k, i + 1);
        assert_eq!(v, (i as u64 + 1) * 2);
    }
}

#[test]
fn empty_bulk_load_is_empty() {
    let pma = PackedMemoryArray::from_vecs(vec![], vec![]).unwrap();
    assert_eq!(pma.nnz(), 0);
    assert_eq!(pma.iter(), vec![]);
    assert_eq!(pma.get(3), None);
}

#[test]
fn growth_spreads_pairs_evenly() {
    // A dense bulk load is full; the next insert doubles the capacity and
    // redistributes the three pairs to slots 0, 2 and 4 before placing
    // the new pair next to its sorted position.
    let mut pma = PackedMemoryArray::from_vecs(vec![1, 2, 3], vec![10, 20, 30]).unwrap();
    assert_eq!(pma.capacity, 3);
    pma.set(4, 40).unwrap();
    assert_eq!(pma.capacity, 6);
    assert_eq!(
        pma.array,
        vec![
            Some((1, 10)),
            None,
            Some((2, 20)),
            None,
            Some((3, 30)),
            Some((4, 40)),
        ]
    );
}
