use algoritmoi::fenwick::FenwickTree;

#[test]
fn fresh_tree_reads_zero() {
    let t = FenwickTree::new(8);
    assert_eq!(t.len(), 8);
    assert_eq!(t.sum(), 0);
    for i in 0..8 {
        assert_eq!(t.get(i), 0);
    }
    assert_eq!(t.sum_to(5), 0);
}

#[test]
fn increment_and_prefix_sums() {
    let mut t = FenwickTree::new(5);
    t.increment(2, 3);
    t.increment(4, 7);
    assert_eq!(t.sum_to(3), 3);
    assert_eq!(t.sum(), 10);
    assert_eq!(t.get(4), 7);
}

#[test]
fn increment_changes_only_its_index() {
    let mut t = FenwickTree::new(6);
    t.increment(1, 5);
    t.increment(3, -2);
    let before: Vec<i64> = (0..6).map(|i| t.get(i)).collect();
    t.increment(3, 10);
    for i in 0..6 {
        if i == 3 {
            assert_eq!(t.get(i), before[i] + 10);
        } else {
            assert_eq!(t.get(i), before[i]);
        }
    }
    assert_eq!(t.sum_to(3), before[0] + before[1] + before[2]);
    assert_eq!(t.sum_to(4), before[0] + before[1] + before[2] + before[3] + 10);
}

#[test]
fn set_then_get_round_trip() {
    let mut t = FenwickTree::new(4);
    t.increment(2, 9);
    t.set(2, -4);
    assert_eq!(t.get(2), -4);
    t.set(2, 11);
    assert_eq!(t.get(2), 11);
    t.set(0, 1);
    assert_eq!(t.get(0), 1);
    assert_eq!(t.sum(), 12);
}

#[test]
fn range_sums_are_additive() {
    let mut t = FenwickTree::new(7);
    for i in 0..7 {
        t.set(i, (i as i64) * (i as i64) - 3);
    }
    let (a, b, c) = (1, 4, 7);
    assert_eq!(
        t.sum_from_to(a, b) + t.sum_from_to(b, c),
        t.sum_from_to(a, c)
    );
    // clamped past the end, like sum_to
    assert_eq!(t.sum_from_to(0, 100), t.sum());
}
