use cp_lib::next_permutation::next_permutation;

#[test]
fn distinct() {
    let mut start: Vec<u64> = vec![1, 4, 6, 8];

    let next_state = vec![
        (vec![1, 4, 8, 6], true),
        (vec![1, 6, 4, 8], true),
        (vec![1, 6, 8, 4], true),
        (vec![1, 8, 4, 6], true),
        (vec![1, 8, 6, 4], true),
        (vec![4, 1, 6, 8], true),
        (vec![4, 1, 8, 6], true),
        (vec![4, 6, 1, 8], true),
        (vec![4, 6, 8, 1], true),
        (vec![4, 8, 1, 6], true),
        (vec![4, 8, 6, 1], true),
        (vec![6, 1, 4, 8], true),
        (vec![6, 1, 8, 4], true),
        (vec![6, 4, 1, 8], true),
        (vec![6, 4, 8, 1], true),
        (vec![6, 8, 1, 4], true),
        (vec![6, 8, 4, 1], true),
        (vec![8, 1, 4, 6], true),
        (vec![8, 1, 6, 4], true),
        (vec![8, 4, 1, 6], true),
        (vec![8, 4, 6, 1], true),
        (vec![8, 6, 1, 4], true),
        (vec![8, 6, 4, 1], true),
        (vec![1, 4, 6, 8], false),
    ];

    for (next_vec, ret) in next_state {
        assert_eq!(ret, next_permutation(&mut start));
        assert_eq!(next_vec, start);
    }
}

#[test]
fn non_distinct() {
    let mut start: Vec<u64> = vec![1, 4, 6, 6];

    let next_state = vec![
        (vec![1, 6, 4, 6], true),
        (vec![1, 6, 6, 4], true),
        (vec![4, 1, 6, 6], true),
        (vec![4, 6, 1, 6], true),
        (vec![4, 6, 6, 1], true),
        (vec![6, 1, 4, 6], true),
        (vec![6, 1, 6, 4], true),
        (vec![6, 4, 1, 6], true),
        (vec![6, 4, 6, 1], true),
        (vec![6, 6, 1, 4], true),
        (vec![6, 6, 4, 1], true),
        (vec![1, 4, 6, 6], false),
    ];

    for (next_vec, ret) in next_state {
        assert_eq!(ret, next_permutation(&mut start));
        assert_eq!(next_vec, start);
    }
}

#[test]
fn short_inputs_wrap() {
    let mut empty: Vec<u64> = vec![];
    assert!(!next_permutation(&mut empty));
    assert!(empty.is_empty());

    let mut single: Vec<u64> = vec![7];
    assert!(!next_permutation(&mut single));
    assert_eq!(single, vec![7]);

    let mut pair: Vec<u64> = vec![2, 1];
    assert!(!next_permutation(&mut pair));
    assert_eq!(pair, vec![1, 2]);
    assert!(next_permutation(&mut pair));
    assert_eq!(pair, vec![2, 1]);
}
