use mazth::bound::AxisAlignedBBox;
use mazth::bound_sphere::BoundSphere;
use mazth::i_bound::BoundType;
use mazth::i_bound::IBound;
use mazth::i_shape::IShape;
use mazth::i_shape::ShapeType;
use mazth::point::Point3;
use mazth::triprism::TriPrism;

use spatial_accel::bvh::Bvh;
use spatial_accel::bvh::SplitStrategy;
use spatial_accel::geom::ObjectBound;

/// Tags a bound for the index by its reported shape kind, as the index's
/// boundary does: only the axis-aligned box kind is carried over.
fn to_object_bound(b: &dyn IBound) -> ObjectBound {
    match b.get_type() {
        BoundType::AxisAlignBox => {
            let d = b.get_bound_data();
            ObjectBound::AxisAligned(AxisAlignedBBox {
                _bound_lower: [d[0], d[1], d[2]],
                _bound_upper: [d[3], d[4], d[5]],
            })
        }
        _ => ObjectBound::Other,
    }
}

#[test]
fn test_bvh_median_supported_bounds() {
    let mut a: Bvh<u64> = Bvh::init(10, SplitStrategy::CentroidMedian); //bin count of 10
    let aabb = AxisAlignedBBox::init(ShapeType::Sphere, &[0f64, 0f64, 0f64, 5f64]);
    let objs = vec![(0u64, to_object_bound(&aabb))];
    match a.build_all(objs) {
        Ok(()) => (),
        _ => {
            panic!("unexpected result for supported bound type");
        }
    }
}

#[test]
fn test_bvh_median_unsupported_bounds() {
    let mut a: Bvh<u64> = Bvh::init(10, SplitStrategy::CentroidMedian);
    let aabb = BoundSphere::init(ShapeType::Sphere, &[0f64, 0f64, 0f64, 5f64]);
    let objs = vec![(0u64, to_object_bound(&aabb))];
    match a.build_all(objs) {
        Err(_) => (),
        _ => {
            panic!("unexpected result for unsupported bound type");
        }
    }
}

#[test]
fn test_bvh_median_construction_and_query() {
    let mut a: Bvh<u64> = Bvh::init(30, SplitStrategy::CentroidMedian);
    let mut bounds = vec![];
    for i in 0..20 {
        let aabb = AxisAlignedBBox::init(
            ShapeType::Sphere,
            &[f64::from(i), f64::from(i), f64::from(i), 5f64],
        );
        bounds.push(aabb);
    }
    let mut objs = vec![];
    for i in 0..20 {
        objs.push((i as u64, to_object_bound(&bounds[i])));
    }

    match a.build_all(objs) {
        Ok(()) => (),
        _ => {
            panic!("unexpected result for supported bound type");
        }
    }

    //query within
    {
        let i = 0f64;
        let query = AxisAlignedBBox::init(ShapeType::Point, &[i, i, i]);
        match a.query_intersect(&to_object_bound(&query)) {
            Ok(o) => {
                assert!(o.len() == 6, "bvh query_intersect return length unexpected");
                for j in o {
                    assert!(j <= 5, "bvh query_intersect return index unexpected");
                }
            }
            _ => (),
        }
    }
    {
        let i = 19f64;
        let query = AxisAlignedBBox::init(ShapeType::Point, &[i, i, i]);
        match a.query_intersect(&to_object_bound(&query)) {
            Ok(o) => {
                assert!(o.len() == 6, "bvh query_intersect return length unexpected");
                for j in o {
                    assert!(j >= 14, "bvh query_intersect return index unexpected");
                }
            }
            _ => (),
        }
    }
    {
        let i = -5f64;
        let query = AxisAlignedBBox::init(ShapeType::Point, &[i, i, i]);
        match a.query_intersect(&to_object_bound(&query)) {
            Ok(o) => {
                assert!(o.len() == 1, "bvh query_intersect return length unexpected");
                for j in o {
                    assert!(j == 0, "bvh query_intersect return index unexpected");
                }
            }
            _ => (),
        }
    }

    //query not present
    {
        let i = -5.1f64;
        let query = AxisAlignedBBox::init(ShapeType::Point, &[i, i, i]);
        match a.query_intersect(&to_object_bound(&query)) {
            Ok(o) => {
                assert!(o.len() == 0, "bvh query_intersect return length unexpected");
            }
            _ => (),
        }
    }
    {
        let i = 26f64;
        let query = AxisAlignedBBox::init(ShapeType::Point, &[i, i, i]);
        match a.query_intersect(&to_object_bound(&query)) {
            Ok(o) => {
                assert!(o.len() == 0, "bvh query_intersect return length unexpected");
            }
            _ => (),
        }
    }
}

#[test]
fn test_bvh_median_tri_prism_point_intersection() {
    let mut a: Bvh<TriPrism> = Bvh::init(30, SplitStrategy::CentroidMedian);

    let triprism_base_verts = [0., 0., 0., 1., 0., 0., 1., 1., 0.];

    let tp = TriPrism::init(&triprism_base_verts, 1.);

    let mut bounds = vec![];

    let aabb = tp._bound.clone();
    bounds.push(aabb);

    let objs = vec![(tp.clone(), to_object_bound(&bounds[0]))];

    match a.build_all(objs) {
        Ok(()) => (),
        _ => {
            panic!("unexpected result for supported bound type");
        }
    }

    //query present
    {
        let b = Point3::init(&[0.5, 0.5, 0.5]);
        let query = b._bound.clone();

        match a.query_intersect(&to_object_bound(&query)) {
            Ok(o) => {
                assert!(o.len() > 0, "bvh query_intersect return length unexpected");
                let intersected = o.iter().any(|x| x.get_intersect(&b).0);
                assert_eq!(intersected, true);
            }
            _ => (),
        }
    }
    //query not present
    {
        let b = Point3::init(&[0.5, 0.51, 0.5]);
        let query = b._bound.clone();

        match a.query_intersect(&to_object_bound(&query)) {
            Ok(o) => {
                let intersected = o.iter().any(|x| x.get_intersect(&b).0);
                assert_eq!(intersected, false);
            }
            _ => (),
        }
    }
}
