use ar_mintin::ostree::OSTree;

#[test]
fn fresh_tree_is_empty() {
    let t = OSTree::new(4);
    assert_eq!(t.sum(), 0);
    for i in 0..4 {
        assert_eq!(t.value_at(i), 0);
    }
}

#[test]
fn capacity_rounds_up_to_power_of_two() {
    // five slots fit only in a tree of eight leaves
    let mut t = OSTree::new(5);
    for i in 0..8 {
        t.assign(i, 1);
    }
    assert_eq!(t.sum(), 8);
}

#[test]
fn sum_tracks_assignments() {
    let mut t = OSTree::new(4);
    t.assign(0, 3);
    t.assign(1, 4);
    t.assign(2, 5);
    assert_eq!(t.sum(), 12);
    t.assign(1, 0);
    assert_eq!(t.sum(), 8);
    t.assign(0, 1);
    assert_eq!(t.sum(), 6);
    // the total always equals the sum over the leaves
    let mut acc = 0;
    for i in 0..4 {
        acc += t.value_at(i);
    }
    assert_eq!(t.sum(), acc);
}

#[test]
fn value_at_reads_back_assignments() {
    let mut t = OSTree::new(4);
    t.assign(2, 7);
    assert_eq!(t.value_at(2), 7);
    assert_eq!(t.value_at(0), 0);
    t.assign(2, 1);
    assert_eq!(t.value_at(2), 1);
}

#[test]
fn rank_maps_offsets_to_leaves() {
    let mut t = OSTree::new(4);
    t.assign(0, 3);
    t.assign(1, 0);
    t.assign(2, 5);
    t.assign(3, 2);
    // cumulative intervals: [0,3) -> 0, [3,8) -> 2, [8,10) -> 3
    for v in 0..3 {
        assert_eq!(t.rank(v), 0);
    }
    for v in 3..8 {
        assert_eq!(t.rank(v), 2);
    }
    for v in 8..10 {
        assert_eq!(t.rank(v), 3);
    }
}

#[test]
fn rank_never_returns_a_zero_weight() {
    let mut t = OSTree::new(8);
    t.assign(1, 1);
    t.assign(5, 1);
    for v in 0..2 {
        let r = t.rank(v);
        assert!(t.value_at(r) > 0);
    }
    assert_eq!(t.rank(0), 1);
    assert_eq!(t.rank(1), 5);
}

#[test]
fn multiply_scales_everything() {
    let mut t = OSTree::new(4);
    t.assign(0, 2);
    t.assign(3, 5);
    t.multiply(100);
    assert_eq!(t.value_at(0), 200);
    assert_eq!(t.value_at(3), 500);
    assert_eq!(t.sum(), 700);
}

#[test]
fn multiply_by_zero_clears() {
    let mut t = OSTree::new(2);
    t.assign(0, 9);
    t.multiply(0);
    assert_eq!(t.sum(), 0);
    assert_eq!(t.value_at(0), 0);
}
