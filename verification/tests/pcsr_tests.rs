use sparse_pma::pcsr::{PackedCSC, MappedPackedCSC, semaphore_key};
use sparse_pma::pma::Error;

fn sum(a: u64, b: u64) -> u64 {
    a + b
}

#[test]
fn sentinel_key_is_the_default() {
    assert_eq!(semaphore_key(), 0);
}

#[test]
fn two_columns_build_with_sentinels() {
    let store = PackedCSC::new(vec![vec![1, 3], vec![2]], vec![vec![5, 7], vec![9]], sum).unwrap();
    assert_eq!(store.nb_partitions, 2);
    assert_eq!(
        store.pma.iter(),
        vec![(0, 0), (1, 5), (3, 7), (0, 1), (2, 9)]
    );
    assert_eq!(store.semaphores, vec![Some(0), Some(3)]);
}

#[test]
fn duplicate_rows_in_a_column_are_combined() {
    let store = PackedCSC::new(vec![vec![1, 1, 2]], vec![vec![5, 6, 9]], sum).unwrap();
    assert_eq!(store.pma.iter(), vec![(0, 0), (1, 11), (2, 9)]);
    assert_eq!(store.semaphores, vec![Some(0)]);
}

#[test]
fn column_store_rejects_mismatched_input() {
    let outer = PackedCSC::new(vec![vec![1]], vec![], sum);
    assert_eq!(outer.err(), Some(Error::InvalidInput));
    let inner = PackedCSC::new(vec![vec![1, 2]], vec![vec![5]], sum);
    assert_eq!(inner.err(), Some(Error::InvalidInput));
}

#[test]
fn mapped_store_keeps_column_identifiers() {
    let store = MappedPackedCSC::new(
        vec![vec![1, 3], vec![2]],
        vec![77u64, 88u64],
        vec![vec![5, 7], vec![9]],
        sum,
    )
    .unwrap();
    assert_eq!(store.col_keys, vec![Some(77), Some(88)]);
    assert_eq!(store.pcsc.nb_partitions, 2);
    assert_eq!(
        store.pcsc.pma.iter(),
        vec![(0, 0), (1, 5), (3, 7), (0, 1), (2, 9)]
    );
}
