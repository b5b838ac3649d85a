use mazth::bound::AxisAlignedBBox;
use mazth::i_bound::IBound;
use mazth::i_shape::ShapeType;

use spatial_accel::bvh::Bvh;
use spatial_accel::bvh::BvhBranch;
use spatial_accel::bvh::NodeBvh;
use spatial_accel::bvh::SplitStrategy;
use spatial_accel::geom::ObjectBound;
use spatial_accel::i_spatial_accel::ISpatialAccel;
use spatial_accel::partition::heuristic_partition;
use spatial_accel::partition::median_partition;
use spatial_accel::BvhError;

fn sphere(x: f64, y: f64, z: f64, r: f64) -> AxisAlignedBBox {
    AxisAlignedBBox::init(ShapeType::Sphere, &[x, y, z, r])
}

fn point(x: f64, y: f64, z: f64) -> AxisAlignedBBox {
    AxisAlignedBBox::init(ShapeType::Point, &[x, y, z])
}

fn supported(b: &AxisAlignedBBox) -> ObjectBound {
    ObjectBound::AxisAligned(b.clone())
}

fn leaf_count(n: &NodeBvh<u64>) -> usize {
    match (&n.left, &n.right) {
        (BvhBranch::Empty, BvhBranch::Empty) => 1,
        _ => {
            let l = match &n.left {
                BvhBranch::Child(c) => leaf_count(c),
                BvhBranch::Empty => 0,
            };
            let r = match &n.right {
                BvhBranch::Child(c) => leaf_count(c),
                BvhBranch::Empty => 0,
            };
            l + r
        }
    }
}

/// Checks that every internal node's bound is the componentwise min/max
/// union of its two children's bounds, exactly.
fn check_union_invariant(n: &NodeBvh<u64>) {
    if let (BvhBranch::Child(l), BvhBranch::Child(r)) = (&n.left, &n.right) {
        for i in 0..3 {
            assert_eq!(
                n.bound._bound_lower[i],
                l.bound._bound_lower[i].min(r.bound._bound_lower[i])
            );
            assert_eq!(
                n.bound._bound_upper[i],
                l.bound._bound_upper[i].max(r.bound._bound_upper[i])
            );
        }
        check_union_invariant(l);
        check_union_invariant(r);
    }
}

fn build_spheres(strategy: SplitStrategy, n: u64) -> Bvh<u64> {
    let mut a: Bvh<u64> = Bvh::init(8, strategy);
    let mut objs = vec![];
    for i in 0..n {
        objs.push((i, supported(&sphere(i as f64, i as f64, i as f64, 0.4))));
    }
    a.build_all(objs).unwrap();
    a
}

#[test]
fn test_round_trip_union_query() {
    for strategy in [SplitStrategy::HeuristicBinning, SplitStrategy::CentroidMedian] {
        let a = build_spheres(strategy, 7);
        // the union of all input bounds, computed the same way the index
        // computes unions
        let bounds: Vec<AxisAlignedBBox> = (0..7)
            .map(|i| sphere(i as f64, i as f64, i as f64, 0.4))
            .collect();
        let refs: Vec<&dyn IBound> = bounds.iter().map(|b| b as &dyn IBound).collect();
        let mut u: AxisAlignedBBox = Default::default();
        u.get_union(&refs[..]);
        let mut got = a.query_intersect(&supported(&u)).unwrap();
        got.sort();
        assert_eq!(got, (0..7).collect::<Vec<u64>>());
    }
}

#[test]
fn test_leaf_count_equals_input_count() {
    for strategy in [SplitStrategy::HeuristicBinning, SplitStrategy::CentroidMedian] {
        for n in [1u64, 2, 5, 16, 33] {
            let a = build_spheres(strategy, n);
            match &a.root {
                BvhBranch::Child(node) => assert_eq!(leaf_count(node), n as usize),
                BvhBranch::Empty => panic!("tree not built"),
            }
        }
    }
}

#[test]
fn test_internal_bounds_are_unions() {
    for strategy in [SplitStrategy::HeuristicBinning, SplitStrategy::CentroidMedian] {
        let a = build_spheres(strategy, 13);
        match &a.root {
            BvhBranch::Child(node) => check_union_invariant(node),
            BvhBranch::Empty => panic!("tree not built"),
        }
    }
}

#[test]
fn test_disjoint_query_is_empty() {
    let a = build_spheres(SplitStrategy::CentroidMedian, 6);
    let far = point(100.0, 100.0, 100.0);
    assert_eq!(a.query_intersect(&supported(&far)).unwrap().len(), 0);
    assert_eq!(a.query_intersect_single(&supported(&far)).unwrap().len(), 0);
}

#[test]
fn test_query_single_stops_at_one() {
    let a = build_spheres(SplitStrategy::CentroidMedian, 6);
    let q = sphere(3.5, 3.5, 3.5, 0.5);
    let all = a.query_intersect(&supported(&q)).unwrap();
    assert!(all.len() > 1);
    let one = a.query_intersect_single(&supported(&q)).unwrap();
    assert_eq!(one.len(), 1);
    assert!(all.contains(&one[0]));
}

#[test]
fn test_single_object_leaf_keeps_its_bound() {
    let b = sphere(2.0, 3.0, 4.0, 5.0);
    let node = NodeBvh::build_node(
        30,
        SplitStrategy::HeuristicBinning,
        vec![(7u64, supported(&b))],
    )
    .unwrap();
    assert!(matches!(node.left, BvhBranch::Empty));
    assert!(matches!(node.right, BvhBranch::Empty));
    assert_eq!(node.obj, Some(7u64));
    assert_eq!(node.bound._bound_lower, b._bound_lower);
    assert_eq!(node.bound._bound_upper, b._bound_upper);
}

#[test]
fn test_zero_bin_count_is_rejected() {
    let mut a: Bvh<u64> = Bvh::init(0, SplitStrategy::HeuristicBinning);
    let objs = vec![(0u64, supported(&sphere(0.0, 0.0, 0.0, 1.0)))];
    assert_eq!(a.build_all(objs), Err(BvhError::InvalidConfiguration));
}

#[test]
fn test_unsupported_build_leaves_index_unchanged() {
    let mut a = build_spheres(SplitStrategy::CentroidMedian, 4);
    let q = point(0.0, 0.0, 0.0);
    let before = a.query_intersect(&supported(&q)).unwrap();
    assert!(before.len() >= 1);
    let bad = vec![
        (9u64, supported(&sphere(0.0, 0.0, 0.0, 1.0))),
        (10u64, ObjectBound::Other),
    ];
    assert_eq!(a.build_all(bad), Err(BvhError::UnsupportedBoundKind));
    let after = a.query_intersect(&supported(&q)).unwrap();
    assert_eq!(before, after);
}

#[test]
fn test_unsupported_query_is_rejected() {
    let a = build_spheres(SplitStrategy::CentroidMedian, 3);
    assert_eq!(
        a.query_intersect(&ObjectBound::Other),
        Err(BvhError::UnsupportedBoundKind)
    );
    assert_eq!(
        a.query_intersect_single(&ObjectBound::Other),
        Err(BvhError::UnsupportedBoundKind)
    );
}

#[test]
fn test_heuristic_partition_splits_by_bin() {
    // entries in reverse spatial order, so handing anything back unchanged
    // or falling back to a stable sort would place them differently
    let objs = vec![
        (0u64, sphere(10.0, 10.0, 10.0, 1.0)),
        (1u64, sphere(0.0, 0.0, 0.0, 1.0)),
    ];
    let u = AxisAlignedBBox::init(ShapeType::Rect, &[-1.0, -1.0, -1.0, 11.0, 11.0, 11.0]);
    let (left, right) = heuristic_partition(objs, &u, 12);
    assert_eq!(left.iter().map(|e| e.0).collect::<Vec<u64>>(), vec![1]);
    assert_eq!(right.iter().map(|e| e.0).collect::<Vec<u64>>(), vec![0]);
}

#[test]
fn test_median_partition_orders_by_centroid() {
    let objs = vec![
        (0u64, sphere(10.0, 10.0, 10.0, 1.0)),
        (1u64, sphere(-3.0, -3.0, -3.0, 1.0)),
        (2u64, sphere(5.0, 5.0, 5.0, 1.0)),
    ];
    let u = AxisAlignedBBox::init(ShapeType::Rect, &[-4.0, -4.0, -4.0, 11.0, 11.0, 11.0]);
    let (left, right) = median_partition(objs, &u, 8);
    assert_eq!(left.iter().map(|e| e.0).collect::<Vec<u64>>(), vec![1]);
    assert_eq!(right.iter().map(|e| e.0).collect::<Vec<u64>>(), vec![2, 0]);
}

#[test]
fn test_degenerate_centroids_fall_back_to_balanced_split() {
    // five entries with one and the same centroid: the binning assignment
    // puts them all on one side, and the median fallback rebalances
    let objs: Vec<(u64, AxisAlignedBBox)> =
        (0..5).map(|i| (i, sphere(2.0, 2.0, 2.0, 1.5))).collect();
    let u = sphere(2.0, 2.0, 2.0, 1.5);
    let (left, right) = heuristic_partition(objs, &u, 10);
    assert_eq!(left.len(), 2);
    assert_eq!(right.len(), 3);
}

#[test]
fn test_heuristic_construction_and_query() {
    // the binning strategy over the same diagonal spheres the median
    // strategy is tested with: query results must agree exactly
    let mut a: Bvh<u64> = Bvh::init(30, SplitStrategy::HeuristicBinning);
    let mut objs = vec![];
    for i in 0..20 {
        objs.push((i as u64, supported(&sphere(i as f64, i as f64, i as f64, 5.0))));
    }
    a.build_all(objs).unwrap();
    let mut near = a.query_intersect(&supported(&point(0.0, 0.0, 0.0))).unwrap();
    near.sort();
    assert_eq!(near, vec![0, 1, 2, 3, 4, 5]);
    let mut far = a.query_intersect(&supported(&point(19.0, 19.0, 19.0))).unwrap();
    far.sort();
    assert_eq!(far, vec![14, 15, 16, 17, 18, 19]);
    assert_eq!(
        a.query_intersect(&supported(&point(-5.1, -5.1, -5.1))).unwrap().len(),
        0
    );
}

#[test]
fn test_spatial_accel_trait_surface() {
    let mut a: Bvh<u64> = Bvh::init(6, SplitStrategy::CentroidMedian);
    let accel: &mut dyn ISpatialAccel<u64> = &mut a;
    accel
        .build_all(vec![
            (0u64, supported(&sphere(0.0, 0.0, 0.0, 1.0))),
            (1u64, supported(&sphere(4.0, 4.0, 4.0, 1.0))),
        ])
        .unwrap();
    let hit = accel.query_intersect(&supported(&point(4.0, 4.0, 4.0))).unwrap();
    assert_eq!(hit, vec![1]);
    let one = accel
        .query_intersect_single(&supported(&point(0.0, 0.0, 0.0)))
        .unwrap();
    assert_eq!(one, vec![0]);
}

#[test]
fn test_empty_build_gives_empty_queries() {
    let mut a: Bvh<u64> = Bvh::init(4, SplitStrategy::HeuristicBinning);
    a.build_all(vec![]).unwrap();
    let q = point(0.0, 0.0, 0.0);
    assert_eq!(a.query_intersect(&supported(&q)).unwrap().len(), 0);
}
