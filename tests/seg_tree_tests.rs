use seg_tree::{SegTree, SegTreeError};

#[test]
fn test_build() {
    let seg_tree = SegTree::new(0, 10).unwrap();
    assert_eq!(seg_tree.get_range(), (0, 10));
    assert_eq!(seg_tree.get_val(), 0);
}

#[test]
fn test_invalid_build() {
    assert!(matches!(SegTree::new(10, 0), Err(SegTreeError::InvalidRange)));
}

#[test]
fn test_revise() {
    let mut seg_tree = SegTree::new(0, 10).unwrap();
    assert_eq!(seg_tree.revise(2, 10), Ok(()));
    assert_eq!(seg_tree.ask(2, 3), Ok(10));
}

#[test]
fn test_invalid_revise() {
    let mut seg_tree = SegTree::new(0, 10).unwrap();
    assert_eq!(seg_tree.revise(10, 10), Err(SegTreeError::IndexOutOfRange));
}

#[test]
fn test_ask() {
    let mut seg_tree = SegTree::new(0, 10).unwrap();
    for i in 0..10 {
        seg_tree.revise(i, i as i32).unwrap();
    }
    assert_eq!(seg_tree.ask(0, 10), Ok(45)); // Sum of 0 to 9
    assert_eq!(seg_tree.ask(0, 5), Ok(10)); // Sum of 0 to 4
    assert_eq!(seg_tree.ask(5, 10), Ok(35)); // Sum of 5 to 9
    assert_eq!(seg_tree.ask(3, 7), Ok(18)); // Sum of 3 to 6
}

#[test]
fn test_invalid_ask() {
    let seg_tree = SegTree::new(0, 10).unwrap();
    assert_eq!(seg_tree.ask(10, 0), Err(SegTreeError::InvalidQueryRange));
}

#[test]
fn empty_interval_is_refused() {
    assert!(matches!(SegTree::new(5, 5), Err(SegTreeError::InvalidRange)));
    assert!(matches!(SegTree::new(0, 0), Err(SegTreeError::InvalidRange)));
}

#[test]
fn fresh_tree_sums_to_zero() {
    let seg_tree = SegTree::new(0, 10).unwrap();
    assert_eq!(seg_tree.ask(0, 10), Ok(0));
    assert_eq!(seg_tree.ask(4, 9), Ok(0));
}

#[test]
fn single_update_touches_one_index() {
    let mut seg_tree = SegTree::new(0, 10).unwrap();
    seg_tree.revise(2, 10).unwrap();
    assert_eq!(seg_tree.ask(2, 3), Ok(10));
    assert_eq!(seg_tree.ask(0, 2), Ok(0));
    assert_eq!(seg_tree.ask(3, 10), Ok(0));
    assert_eq!(seg_tree.get_val(), 10);
}

#[test]
fn update_replaces_value() {
    let mut seg_tree = SegTree::new(0, 10).unwrap();
    seg_tree.revise(3, 5).unwrap();
    seg_tree.revise(3, 2).unwrap();
    assert_eq!(seg_tree.ask(3, 4), Ok(2));
    assert_eq!(seg_tree.ask(0, 10), Ok(2));
}

#[test]
fn repeated_update_changes_nothing_more() {
    let mut once = SegTree::new(0, 9).unwrap();
    let mut twice = SegTree::new(0, 9).unwrap();
    for i in 0..9 {
        once.revise(i, 3 * i as i32 - 7).unwrap();
        twice.revise(i, 3 * i as i32 - 7).unwrap();
    }
    once.revise(4, 11).unwrap();
    twice.revise(4, 11).unwrap();
    twice.revise(4, 11).unwrap();
    for l in 0..9 {
        for r in (l + 1)..=9 {
            assert_eq!(once.ask(l, r), twice.ask(l, r));
        }
    }
}

#[test]
fn every_range_matches_direct_sum() {
    let values: [i32; 7] = [4, -3, 9, 0, -12, 5, 8];
    let mut seg_tree = SegTree::new(0, 7).unwrap();
    for (i, v) in values.iter().enumerate() {
        seg_tree.revise(i, *v).unwrap();
    }
    for l in 0..7 {
        for r in (l + 1)..=7 {
            let direct: i32 = values[l..r].iter().sum();
            assert_eq!(seg_tree.ask(l, r), Ok(direct));
        }
    }
    assert_eq!(seg_tree.get_val(), 11);
}

#[test]
fn interval_not_starting_at_zero() {
    let mut seg_tree = SegTree::new(5, 10).unwrap();
    assert_eq!(seg_tree.get_range(), (5, 10));
    seg_tree.revise(5, 1).unwrap();
    seg_tree.revise(9, 100).unwrap();
    assert_eq!(seg_tree.ask(5, 10), Ok(101));
    assert_eq!(seg_tree.ask(6, 9), Ok(0));
    assert_eq!(seg_tree.revise(4, 1), Err(SegTreeError::IndexOutOfRange));
    assert_eq!(seg_tree.ask(4, 6), Err(SegTreeError::InvalidQueryRange));
    assert_eq!(seg_tree.ask(9, 11), Err(SegTreeError::InvalidQueryRange));
    assert_eq!(seg_tree.ask(7, 7), Err(SegTreeError::InvalidQueryRange));
    assert_eq!(seg_tree.ask(5, 10), Ok(101));
}

#[test]
fn refused_update_leaves_values() {
    let mut seg_tree = SegTree::new(0, 4).unwrap();
    seg_tree.revise(1, 6).unwrap();
    assert_eq!(seg_tree.revise(4, 50), Err(SegTreeError::IndexOutOfRange));
    assert_eq!(seg_tree.ask(0, 4), Ok(6));
    assert_eq!(seg_tree.get_val(), 6);
}

#[test]
fn single_index_tree() {
    let mut seg_tree = SegTree::new(5, 6).unwrap();
    assert_eq!(seg_tree.get_range(), (5, 6));
    seg_tree.revise(5, -7).unwrap();
    assert_eq!(seg_tree.ask(5, 6), Ok(-7));
    assert_eq!(seg_tree.get_val(), -7);
}

#[test]
fn interval_at_top_of_index_type() {
    let hi = usize::MAX;
    let mut seg_tree = SegTree::new(hi - 5, hi).unwrap();
    seg_tree.revise(hi - 1, 3).unwrap();
    seg_tree.revise(hi - 5, 4).unwrap();
    assert_eq!(seg_tree.ask(hi - 5, hi), Ok(7));
    assert_eq!(seg_tree.ask(hi - 1, hi), Ok(3));
    assert_eq!(seg_tree.revise(hi - 6, 1), Err(SegTreeError::IndexOutOfRange));
}

#[test]
fn extreme_values() {
    let mut seg_tree = SegTree::new(0, 3).unwrap();
    seg_tree.revise(0, i32::MAX).unwrap();
    assert_eq!(seg_tree.ask(0, 3), Ok(i32::MAX));
    seg_tree.revise(0, i32::MIN).unwrap();
    assert_eq!(seg_tree.ask(0, 1), Ok(i32::MIN));
    assert_eq!(seg_tree.ask(1, 3), Ok(0));
}

#[test]
fn larger_tree() {
    let n: usize = 1000;
    let mut seg_tree = SegTree::new(0, n).unwrap();
    for i in 0..n {
        seg_tree.revise(i, (i % 10) as i32).unwrap();
    }
    assert_eq!(seg_tree.ask(0, n), Ok(4500));
    assert_eq!(seg_tree.ask(10, 20), Ok(45));
    assert_eq!(seg_tree.ask(995, 1000), Ok(35));
}
