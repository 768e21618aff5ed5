use cp_lib::seg_tree::SegTree;

#[test]
fn point_insert() {
    let mut tree = SegTree::new(4, i32::MIN);
    tree.insert(1, 1);
    tree.insert(2, 5);
    tree.insert(2, 10);
    tree.insert(2, 2);
    tree.insert(3, 0);

    for (l, r, exp) in [
        (1, 1, 1),
        (2, 2, 10),
        (3, 3, 0),
        (4, 4, i32::MIN),
        (1, 2, 10),
        (2, 3, 10),
        (3, 4, 0),
        (1, 3, 10),
        (2, 4, 10),
        (1, 4, 10),
    ] {
        assert_eq!(tree.query(l, r), exp);
    }
}

#[test]
fn range_insert() {
    let mut tree = SegTree::new(4, i32::MIN);
    tree.insert_range(1, 3, 1);
    tree.insert_range(2, 4, 2);
    tree.insert_range(2, 3, 5);
    tree.insert_range(1, 4, 1);
    tree.insert_range(2, 4, 3);

    for (l, r, exp) in [
        (1, 1, 1),
        (2, 2, 5),
        (3, 3, 5),
        (4, 4, 3),
        (1, 2, 5),
        (2, 3, 5),
        (3, 4, 5),
        (1, 3, 5),
        (2, 4, 5),
        (1, 4, 5),
    ] {
        assert_eq!(tree.query(l, r), exp);
    }
}

#[test]
fn point_aggregate_in_order() {
    // the value at a position folds every update applied there
    let mut tree = SegTree::new(3, i32::MIN);
    tree.insert(2, 5);
    tree.insert(2, 7);
    tree.insert(2, 3);
    assert_eq!(tree.query(2, 2), 7);
    assert_eq!(tree.query(1, 1), i32::MIN);
}

#[test]
fn range_and_point_update_agree() {
    let mut by_point = SegTree::new(5, i32::MIN);
    let mut by_range = SegTree::new(5, i32::MIN);
    by_point.insert(3, 42);
    by_range.insert_range(3, 3, 42);
    for l in 1..=5usize {
        for r in l..=5usize {
            assert_eq!(by_point.query(l, r), by_range.query(l, r));
        }
    }
}

#[test]
fn repeated_query_is_stable() {
    let mut tree = SegTree::new(4, i32::MIN);
    tree.insert_range(1, 3, 9);
    let first = tree.query(2, 4);
    let second = tree.query(2, 4);
    assert_eq!(first, second);
    assert_eq!(first, 9);
}

#[test]
fn update_is_local() {
    let mut tree = SegTree::new(6, i32::MIN);
    tree.insert_range(1, 6, 1);
    let before = tree.query(4, 6);
    tree.insert(2, 100);
    assert_eq!(tree.query(4, 6), before);
    assert_eq!(tree.query(1, 3), 100);
}

#[test]
fn out_of_range_query_is_default() {
    let mut tree = SegTree::new(4, i32::MIN);
    tree.insert_range(1, 4, 7);
    assert_eq!(tree.query(5, 8), i32::MIN);
    assert_eq!(tree.query(3, 0), i32::MIN);
    assert_eq!(tree.query(3, 2), i32::MIN);
    assert_eq!(tree.query(3, 9), 7);
}

#[test]
fn single_position_tree() {
    let mut tree = SegTree::new(1, i32::MIN);
    assert_eq!(tree.query(1, 1), i32::MIN);
    tree.insert(1, -3);
    assert_eq!(tree.query(1, 1), -3);
    tree.insert_range(1, 1, 4);
    assert_eq!(tree.query(1, 1), 4);
    assert_eq!(tree.query(2, 5), i32::MIN);
}
