use sparse_pma::vector::{dynamicsparsevec, shrink_size};
use sparse_pma::pma::Error;

fn sum(a: u64, b: u64) -> u64 {
    a + b
}

#[test]
fn round_trip_build_and_read() {
    let v = dynamicsparsevec(vec![1, 2, 3], vec![10, 20, 30], sum, None).unwrap();
    assert_eq!(v.length(), 3);
    assert_eq!(v.index(2), 20);
    assert_eq!(v.index(5), 0);
}

#[test]
fn duplicate_keys_are_combined() {
    let v = dynamicsparsevec(vec![2, 2, 5], vec![3, 4, 1], sum, None).unwrap();
    assert_eq!(v.iter(), vec![(2, 7), (5, 1)]);
}

#[test]
fn write_beyond_length_grows_it() {
    let mut v = dynamicsparsevec(vec![1, 2, 3], vec![10, 20, 30], sum, Some(3)).unwrap();
    assert_eq!(v.length(), 3);
    v.set(10, 99).unwrap();
    assert_eq!(v.length(), 10);
    assert!(v.iter().contains(&(10, 99)));
}

#[test]
fn mismatched_lengths_are_invalid() {
    let r = dynamicsparsevec(vec![1, 2], vec![1], sum, None);
    assert_eq!(r.err(), Some(Error::InvalidInput));
}

#[test]
fn accessors_agree() {
    let v = dynamicsparsevec(vec![7, 3, 9], vec![70, 30, 90], sum, None).unwrap();
    assert_eq!(v.nnz(), 3);
    assert_eq!(v.size(), (9,));
    assert_eq!(v.nonzeroinds(), vec![3, 7, 9]);
    assert_eq!(v.nonzeros(), vec![30, 70, 90]);
    assert_eq!(v.iter(), vec![(3, 30), (7, 70), (9, 90)]);
}

#[test]
fn length_defaults_to_greatest_key() {
    let v = dynamicsparsevec(vec![4, 12, 8], vec![1, 2, 3], sum, None).unwrap();
    assert_eq!(v.length(), 12);
    let empty = dynamicsparsevec(vec![], vec![], sum, None).unwrap();
    assert_eq!(empty.length(), 0);
    assert_eq!(empty.nnz(), 0);
}

#[test]
fn shrink_size_tightens_to_greatest_key() {
    let mut v = dynamicsparsevec(vec![1, 2, 3], vec![10, 20, 30], sum, Some(50)).unwrap();
    assert_eq!(v.length(), 50);
    shrink_size(&mut v);
    assert_eq!(v.length(), 3);
}

#[test]
fn vectors_compare_by_length_and_pairs() {
    let a = dynamicsparsevec(vec![1, 2], vec![5, 6], sum, None).unwrap();
    let b = dynamicsparsevec(vec![2, 1], vec![6, 5], sum, None).unwrap();
    let c = dynamicsparsevec(vec![1, 2], vec![5, 7], sum, None).unwrap();
    let d = dynamicsparsevec(vec![1, 2], vec![5, 6], sum, Some(9)).unwrap();
    assert!(a == b);
    assert!(a != c);
    assert!(a != d);
}

#[test]
fn overwrite_keeps_one_binding() {
    let mut v = dynamicsparsevec(vec![1, 2], vec![5, 6], sum, None).unwrap();
    v.set(2, 60).unwrap();
    assert_eq!(v.iter(), vec![(1, 5), (2, 60)]);
    assert_eq!(v.nnz(), 2);
}

#[test]
fn ascending_iteration_after_mixed_writes() {
    let mut v = dynamicsparsevec(vec![], vec![], sum, None).unwrap();
    for &k in &[9usize, 1, 7, 3, 8, 2, 6, 4, 5, 10] {
        v.set(k, (k as u64) * 11).unwrap();
    }
    let pairs = v.iter();
    assert_eq!(pairs.len(), 10);
    for w in pairs.windows(2) {
        assert!(w[0].0 < w[1].0);
    }
    for (k, val) in pairs {
        assert_eq!(val, (k as u64) * 11);
    }
}

#[test]
fn prepare_groups_and_folds_in_place() {
    let mut keys = vec![5usize, 2, 5, 1, 2];
    let mut values = vec![50u64, 20, 51, 10, 22];
    sparse_pma::vector::_prepare_keys_vals(&mut keys, &mut values, sum);
    assert_eq!(keys, vec![1, 2, 5]);
    assert_eq!(values, vec![10, 42, 101]);
}

#[test]
fn explicit_length_build_keeps_the_larger() {
    let v = sparse_pma::vector::_dynamicsparsevec(vec![1, 9], vec![4, 5], sum, 3).unwrap();
    assert_eq!(v.length(), 9);
    let w = sparse_pma::vector::_dynamicsparsevec(vec![1, 9], vec![4, 5], sum, 12).unwrap();
    assert_eq!(w.length(), 12);
}

#[test]
fn guess_length_reads_the_greatest_key() {
    let v = dynamicsparsevec(vec![6, 2], vec![1, 1], sum, None).unwrap();
    assert_eq!(sparse_pma::vector::_guess_length(&v.pma), 6);
}
