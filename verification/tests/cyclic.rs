use exedra_exact::cyclic::cyclic_distinct;

#[test]
fn cyclic_distinct_only_collapses_adjacent_repetitions() {
    assert_eq!(cyclic_distinct([1, 1, 2, 3]), Ok(vec![1, 2, 3]));
    assert_eq!(cyclic_distinct([1, 2, 3, 1]), Ok(vec![1, 2, 3]));
    assert_eq!(cyclic_distinct([1, 2, 1, 3]), Err(()));
    assert_eq!(cyclic_distinct([1, 1, 2, 2]), Err(()));
}

#[test]
fn cyclic_distinct_keeps_four_distinct_tokens_in_order() {
    assert_eq!(cyclic_distinct([4_u64, 3, 2, 1]), Ok(vec![4, 3, 2, 1]));
    assert_eq!(cyclic_distinct([7_u64, 7, 7, 7]), Err(()));
    assert_eq!(cyclic_distinct([(1_u32, 0_u8), (2, 0), (2, 1), (1, 0)]), Ok(vec![(1, 0), (2, 0), (2, 1)]));
}
