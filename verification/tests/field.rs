//! Runtime checks of the scalar field: influence, gradient, extents and
//! the surface projector.

use metaballs::fixed::{SCALE, THRESHOLD, TOLERANCE};
use metaballs::geom::Vec3;
use metaballs::metaball::{Metaball, MetaballShape};

fn ball(x: i64, y: i64, z: i64) -> Metaball {
    Metaball { pos: Vec3 { x, y, z } }
}

#[test]
fn influence_is_one_at_the_source() {
    let b = ball(0, 0, 0);
    assert_eq!(b.influence(&Vec3 { x: 0, y: 0, z: 0 }), SCALE);
}

#[test]
fn influence_at_half_squared_distance() {
    // r^2 = 0.5: influence is (1 - 0.5)^2 = 0.25.
    let b = ball(0, 0, 0);
    assert_eq!(b.influence(&Vec3 { x: 700, y: 100, z: 0 }), 250);
}

#[test]
fn influence_vanishes_at_and_beyond_unit_distance() {
    let b = ball(0, 0, 0);
    assert_eq!(b.influence(&Vec3 { x: 1000, y: 0, z: 0 }), 0);
    assert_eq!(b.influence(&Vec3 { x: 1001, y: 0, z: 0 }), 0);
    assert_eq!(b.influence(&Vec3 { x: 2000, y: -3000, z: 500 }), 0);
}

#[test]
fn influence_stays_within_unit_interval() {
    let b = ball(200, -300, 400);
    let mut x: i64 = -1500;
    while x <= 1500 {
        let v = b.influence(&Vec3 { x, y: 0, z: 0 });
        assert!(0 <= v && v <= SCALE);
        x += 37;
    }
}

#[test]
fn influence_and_gradient_fade_at_support_boundary() {
    // Just inside the boundary (r^2 = 0.98) both are already tiny.
    let b = ball(0, 0, 0);
    let p = Vec3 { x: 990, y: 0, z: 0 };
    assert_eq!(b.influence(&p), 0);
    let g = b.gradient(&p);
    assert!(g.x.abs() <= 4 * 20 && g.y == 0 && g.z == 0);
}

#[test]
fn gradient_of_single_source_is_exact_derivative() {
    // At delta (0.5, 0, 0): -4 * 0.5 * (1 - 0.25) = -1.5.
    let b = ball(0, 0, 0);
    let g = b.gradient(&Vec3 { x: 500, y: 0, z: 0 });
    assert_eq!((g.x, g.y, g.z), (-1500, 0, 0));
}

#[test]
fn gradient_is_zero_outside_support() {
    let b = ball(0, 0, 0);
    let g = b.gradient(&Vec3 { x: 1200, y: 0, z: 0 });
    assert_eq!((g.x, g.y, g.z), (0, 0, 0));
}

#[test]
fn composite_influence_sums_sources() {
    let shape = MetaballShape { points: vec![ball(0, 0, 0), ball(700, 100, 0)] };
    let p = Vec3 { x: 700, y: 100, z: 0 };
    // 0.25 from the far source plus 1.0 from the one at p.
    assert_eq!(shape.influence(&p), 250 + SCALE);
}

#[test]
fn composite_gradient_points_toward_dominating_source() {
    let shape = MetaballShape { points: vec![ball(0, 0, 0)] };
    let g = shape.gradient(&Vec3 { x: 600, y: 0, z: 0 });
    assert_eq!(g, Some(Vec3 { x: -1000, y: 0, z: 0 }));
}

#[test]
fn composite_gradient_is_degenerate_between_equal_sources() {
    let shape = MetaballShape { points: vec![ball(-500, 0, 0), ball(500, 0, 0)] };
    assert_eq!(shape.gradient(&Vec3 { x: 0, y: 0, z: 0 }), None);
}

#[test]
fn composite_gradient_of_empty_scene_is_degenerate() {
    let shape = MetaballShape { points: vec![] };
    assert_eq!(shape.gradient(&Vec3 { x: 123, y: -456, z: 789 }), None);
}

#[test]
fn extents_default_to_unit_box_for_empty_scene() {
    let shape = MetaballShape { points: vec![] };
    for dim in 0..3 {
        assert_eq!(shape.extent_min(dim), -SCALE);
        assert_eq!(shape.extent_max(dim), SCALE);
    }
}

#[test]
fn bounding_box_pads_source_extremes_by_support_radius() {
    let shape = MetaballShape {
        points: vec![ball(-2000, 500, 0), ball(3000, -1500, 250)],
    };
    let bb = shape.bounding_box();
    assert_eq!((bb.mins.x, bb.mins.y, bb.mins.z), (-3000, -2500, -1000));
    assert_eq!((bb.maxs.x, bb.maxs.y, bb.maxs.z), (4000, 1500, 1250));
}

#[test]
fn points_of_nonzero_influence_lie_in_bounding_box() {
    let shape = MetaballShape {
        points: vec![ball(-900, 0, 0), ball(1200, 300, -100)],
    };
    let bb = shape.bounding_box();
    let mut x: i64 = -3000;
    while x <= 3000 {
        let p = Vec3 { x, y: 150, z: 0 };
        if shape.influence(&p) > 0 {
            assert!(bb.mins.x <= p.x && p.x <= bb.maxs.x);
            assert!(bb.mins.y <= p.y && p.y <= bb.maxs.y);
            assert!(bb.mins.z <= p.z && p.z <= bb.maxs.z);
        }
        x += 61;
    }
}

#[test]
fn projector_reaches_the_isosurface() {
    let shape = MetaballShape { points: vec![ball(0, 0, 0)] };
    let p = shape.project_onto(Vec3 { x: 600, y: 0, z: 0 });
    let residual = shape.influence(&p) - THRESHOLD;
    assert!(residual.abs() <= TOLERANCE);
    assert_eq!((p.y, p.z), (0, 0));
}

#[test]
fn projector_is_idempotent_on_surface_points() {
    // (0.541, 0, 0) is within tolerance of the isosurface already.
    let shape = MetaballShape { points: vec![ball(0, 0, 0)] };
    let p = Vec3 { x: 541, y: 0, z: 0 };
    assert!((shape.influence(&p) - THRESHOLD).abs() <= TOLERANCE);
    let once = shape.project_onto(p);
    assert_eq!(once, p);
    let twice = shape.project_onto(once);
    assert_eq!(twice, once);
}

#[test]
fn projector_stalls_gracefully_at_degenerate_gradient() {
    // The field extremum at the source has a zero gradient: the point is
    // returned unchanged as a best-effort result.
    let shape = MetaballShape { points: vec![ball(0, 0, 0)] };
    let p = Vec3 { x: 0, y: 0, z: 0 };
    assert_eq!(shape.project_onto(p), p);
}

#[test]
fn field_is_quiet_at_the_working_range_extremes() {
    // A source at the coordinate limit and a query at the far end of the
    // admitted range: no overflow, zero influence.
    let b = ball(1000000, -1000000, 1000000);
    let far = Vec3 { x: -1000000000, y: 1000000000, z: -1000000000 };
    assert_eq!(b.influence(&far), 0);
    let g = b.gradient(&far);
    assert_eq!((g.x, g.y, g.z), (0, 0, 0));
}

#[test]
fn well_formedness_check_accepts_and_rejects() {
    let good = MetaballShape { points: vec![ball(1000000, 0, 0)] };
    assert!(good.is_well_formed());
    let bad = MetaballShape { points: vec![ball(1000001, 0, 0)] };
    assert!(!bad.is_well_formed());
}
