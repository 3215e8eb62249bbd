use kdtree::kd_tree::{KdError, KdTree};

fn three_points() -> KdTree<String> {
    let mut tree: KdTree<String> = KdTree::new();
    tree.insert(vec![0, 0], "a".to_string()).unwrap();
    tree.insert(vec![5, 5], "b".to_string()).unwrap();
    tree.insert(vec![5, 0], "c".to_string()).unwrap();
    tree
}

#[test]
fn scenario_two_dimensional() {
    let mut tree = three_points();
    assert_eq!(tree.len(), 3);
    assert_eq!(tree.get(&vec![5, 0]), Some(&"c".to_string()));

    let hits = tree.range_query(&vec![0, 0], &vec![5, 5]);
    assert_eq!(hits.len(), 3);
    assert!(hits.iter().any(|(c, v)| *c == &vec![0, 0] && *v == &"a".to_string()));
    assert!(hits.iter().any(|(c, v)| *c == &vec![5, 5] && *v == &"b".to_string()));
    assert!(hits.iter().any(|(c, v)| *c == &vec![5, 0] && *v == &"c".to_string()));

    let (c, v, d) = tree.nearest(&vec![4, 1]).unwrap();
    assert_eq!(c, &vec![5, 0]);
    assert_eq!(v, &"c".to_string());
    assert_eq!(d, 2);

    assert_eq!(tree.remove(&vec![5, 5]), Some("b".to_string()));
    assert_eq!(tree.get(&vec![5, 5]), None);
    assert_eq!(tree.len(), 2);
}

#[test]
fn get_returns_last_assigned_value() {
    let mut tree: KdTree<u32> = KdTree::new();
    tree.insert(vec![1, 2, 3], 10).unwrap();
    tree.insert(vec![4, 5, 6], 20).unwrap();
    tree.insert(vec![7, 8, 9], 30).unwrap();
    assert_eq!(tree.get(&vec![1, 2, 3]), Some(&10));
    assert_eq!(tree.get(&vec![4, 5, 6]), Some(&20));
    assert_eq!(tree.get(&vec![7, 8, 9]), Some(&30));

    // overwriting is an update, never a duplicate
    tree.insert(vec![4, 5, 6], 99).unwrap();
    assert_eq!(tree.get(&vec![4, 5, 6]), Some(&99));
    assert_eq!(tree.len(), 3);
}

#[test]
fn get_absent_coordinate() {
    let mut tree: KdTree<u32> = KdTree::new();
    assert_eq!(tree.get(&vec![0, 0]), None);
    tree.insert(vec![1, 1], 1).unwrap();
    tree.insert(vec![2, 2], 2).unwrap();
    assert_eq!(tree.get(&vec![1, 2]), None);
    assert_eq!(tree.get(&vec![1]), None);
    assert_eq!(tree.get(&vec![1, 1, 1]), None);
}

#[test]
fn full_box_round_trip() {
    let mut tree: KdTree<i32> = KdTree::with_capacity(4);
    let points = vec![
        (vec![3, -7], 0),
        (vec![-2, 4], 1),
        (vec![0, 0], 2),
        (vec![9, 9], 3),
        (vec![-8, -8], 4),
    ];
    for (c, v) in points.iter() {
        tree.insert(c.clone(), *v).unwrap();
    }
    let lo = vec![i32::MIN, i32::MIN];
    let hi = vec![i32::MAX, i32::MAX];
    let hits = tree.range_query(&lo, &hi);
    assert_eq!(hits.len(), points.len());
    for (c, v) in points.iter() {
        assert_eq!(hits.iter().filter(|(hc, _)| *hc == c).count(), 1);
        assert!(hits.iter().any(|(hc, hv)| *hc == c && *hv == v));
    }
}

#[test]
fn range_box_excludes_outside_points() {
    let mut tree: KdTree<u8> = KdTree::new();
    tree.insert(vec![1, 1], 1).unwrap();
    tree.insert(vec![5, 5], 2).unwrap();
    tree.insert(vec![10, 1], 3).unwrap();
    let hits = tree.range_query(&vec![0, 0], &vec![6, 6]);
    assert_eq!(hits.len(), 2);
    assert!(!hits.iter().any(|(c, _)| *c == &vec![10, 1]));
}

#[test]
fn nearest_exact_match_has_distance_zero() {
    let mut tree: KdTree<&str> = KdTree::new();
    tree.insert(vec![2, 3, 4], "p").unwrap();
    tree.insert(vec![-5, 0, 1], "q").unwrap();
    let (c, v, d) = tree.nearest(&vec![-5, 0, 1]).unwrap();
    assert_eq!(c, &vec![-5, 0, 1]);
    assert_eq!(v, &"q");
    assert_eq!(d, 0);
}

#[test]
fn nearest_on_empty_tree() {
    let tree: KdTree<u64> = KdTree::new();
    assert!(tree.nearest(&vec![1, 2]).is_none());
}

#[test]
fn nearest_with_extreme_components() {
    let mut tree: KdTree<u8> = KdTree::new();
    tree.insert(vec![i32::MIN, i32::MIN], 1).unwrap();
    tree.insert(vec![i32::MAX, i32::MAX], 2).unwrap();
    let (_, v, d) = tree.nearest(&vec![i32::MAX, i32::MAX - 1]).unwrap();
    assert_eq!(v, &2);
    assert_eq!(d, 1);
}

#[test]
fn remove_then_get_is_absent() {
    let mut tree: KdTree<u16> = KdTree::new();
    tree.insert(vec![1, 0], 1).unwrap();
    tree.insert(vec![2, 0], 2).unwrap();
    tree.insert(vec![3, 0], 3).unwrap();
    assert_eq!(tree.len(), 3);
    assert_eq!(tree.remove(&vec![2, 0]), Some(2));
    assert_eq!(tree.get(&vec![2, 0]), None);
    assert_eq!(tree.len(), 2);
    // removing an absent coordinate changes nothing
    assert_eq!(tree.remove(&vec![2, 0]), None);
    assert_eq!(tree.len(), 2);
    assert_eq!(tree.get(&vec![1, 0]), Some(&1));
    assert_eq!(tree.get(&vec![3, 0]), Some(&3));
}

#[test]
fn remove_everything_then_reuse() {
    let mut tree: KdTree<u8> = KdTree::new();
    tree.insert(vec![4], 4).unwrap();
    tree.insert(vec![1], 1).unwrap();
    tree.insert(vec![9], 9).unwrap();
    assert_eq!(tree.remove(&vec![1]), Some(1));
    assert_eq!(tree.remove(&vec![9]), Some(9));
    assert_eq!(tree.remove(&vec![4]), Some(4));
    assert_eq!(tree.len(), 0);
    assert!(tree.nearest(&vec![0]).is_none());
    // an emptied tree accepts a fresh dimensionality
    tree.insert(vec![1, 2, 3], 7).unwrap();
    assert_eq!(tree.get(&vec![1, 2, 3]), Some(&7));
}

#[test]
fn rebuild_preserves_points() {
    let mut tree: KdTree<String> = KdTree::with_capacity(2);
    for x in 0..10 {
        tree.insert(vec![x, -x], format!("v{}", x)).unwrap();
    }
    for x in 0..5 {
        assert!(tree.remove(&vec![2 * x, -2 * x]).is_some());
    }
    let grown = tree.capacity();
    tree.rebuild().unwrap();
    assert_eq!(tree.len(), 5);
    for x in 0..10 {
        if x % 2 == 1 {
            assert_eq!(tree.get(&vec![x, -x]), Some(&format!("v{}", x)));
        } else {
            assert_eq!(tree.get(&vec![x, -x]), None);
        }
    }
    // the store was resized from scratch
    assert!(tree.capacity() <= grown);
}

#[test]
fn rebuild_of_emptied_tree_resets_store() {
    let mut tree: KdTree<u8> = KdTree::with_capacity(3);
    for x in 0..12 {
        tree.insert(vec![x, x], 0).unwrap();
    }
    assert!(tree.capacity() > 12);
    for x in 0..12 {
        assert!(tree.remove(&vec![x, x]).is_some());
    }
    tree.rebuild().unwrap();
    assert_eq!(tree.len(), 0);
    assert_eq!(tree.capacity(), kdtree::kd_tree::DEFAULT_CAPACITY);
}

#[test]
fn dimension_mismatch_is_reported() {
    let mut tree: KdTree<u8> = KdTree::new();
    tree.insert(vec![1, 2], 1).unwrap();
    assert_eq!(tree.insert(vec![1, 2, 3], 2), Err(KdError::DimensionMismatch));
    assert_eq!(tree.insert(vec![1], 3), Err(KdError::DimensionMismatch));
    // the failed calls changed nothing
    assert_eq!(tree.len(), 1);
    assert_eq!(tree.get(&vec![1, 2]), Some(&1));
}

#[test]
fn duplicate_components_split_on_later_axis() {
    // equal on axis 0, so the collision splits on axis 1
    let mut tree: KdTree<&str> = KdTree::new();
    tree.insert(vec![7, 1], "low").unwrap();
    tree.insert(vec![7, 9], "high").unwrap();
    assert_eq!(tree.get(&vec![7, 1]), Some(&"low"));
    assert_eq!(tree.get(&vec![7, 9]), Some(&"high"));
    let (c, _, d) = tree.nearest(&vec![7, 8]).unwrap();
    assert_eq!(c, &vec![7, 9]);
    assert_eq!(d, 1);
}

#[test]
fn capacity_grows_monotonically() {
    let mut tree: KdTree<u8> = KdTree::with_capacity(1);
    assert_eq!(tree.capacity(), 1);
    for x in 0..20 {
        tree.insert(vec![x], 0).unwrap();
    }
    assert!(tree.capacity() >= 20);
    let cap = tree.capacity();
    for x in 0..20 {
        tree.remove(&vec![x]);
    }
    // removal never shrinks the store
    assert_eq!(tree.capacity(), cap);
}
