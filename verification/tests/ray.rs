//! Runtime checks of ray/isosurface intersection.

use metaballs::fixed::{SCALE, THRESHOLD};
use metaballs::geom::Vec3;
use metaballs::metaball::{Metaball, MetaballShape};
use metaballs::raycast::{raycast, Ray};

fn single_source() -> MetaballShape {
    MetaballShape { points: vec![Metaball { pos: Vec3 { x: 0, y: 0, z: 0 } }] }
}

#[test]
fn empty_scene_never_hits() {
    let shape = MetaballShape { points: vec![] };
    let ray = Ray {
        origin: Vec3 { x: -5000, y: 0, z: 0 },
        dir: Vec3 { x: SCALE, y: 0, z: 0 },
    };
    assert_eq!(raycast(&shape, &ray), None);
}

#[test]
fn axis_ray_hits_at_the_analytic_radius() {
    // The isosurface radius is sqrt(1 - sqrt(0.5)) ~ 0.5412; the march
    // step is 0.05, so the hit lands at -0.5 exactly.
    let ray = Ray {
        origin: Vec3 { x: -5000, y: 0, z: 0 },
        dir: Vec3 { x: SCALE, y: 0, z: 0 },
    };
    let hit = raycast(&single_source(), &ray);
    assert_eq!(hit, Some(Vec3 { x: -500, y: 0, z: 0 }));
    let p = hit.unwrap();
    let d = ((p.x * p.x + p.y * p.y + p.z * p.z) as f64).sqrt();
    assert!((d - 541.2).abs() <= 50.0);
}

#[test]
fn hit_point_is_inside_the_isosurface() {
    let shape = single_source();
    let ray = Ray {
        origin: Vec3 { x: -5000, y: 200, z: -100 },
        dir: Vec3 { x: SCALE, y: 0, z: 0 },
    };
    let hit = raycast(&shape, &ray).unwrap();
    assert!(shape.influence(&hit) >= THRESHOLD);
}

#[test]
fn diagonal_ray_hits_the_surface() {
    let ray = Ray {
        origin: Vec3 { x: -3000, y: -3000, z: 0 },
        dir: Vec3 { x: SCALE, y: SCALE, z: 0 },
    };
    let hit = raycast(&single_source(), &ray);
    assert_eq!(hit, Some(Vec3 { x: -353, y: -353, z: 0 }));
}

#[test]
fn ray_missing_all_support_spheres_reports_no_hit() {
    let ray = Ray {
        origin: Vec3 { x: -5000, y: 3000, z: 0 },
        dir: Vec3 { x: SCALE, y: 0, z: 0 },
    };
    assert_eq!(raycast(&single_source(), &ray), None);
}

#[test]
fn ray_pointing_away_reports_no_hit() {
    let ray = Ray {
        origin: Vec3 { x: -5000, y: 0, z: 0 },
        dir: Vec3 { x: -SCALE, y: 0, z: 0 },
    };
    assert_eq!(raycast(&single_source(), &ray), None);
}

#[test]
fn ray_starting_inside_hits_immediately() {
    let ray = Ray {
        origin: Vec3 { x: 0, y: 0, z: 0 },
        dir: Vec3 { x: SCALE, y: 0, z: 0 },
    };
    let hit = raycast(&single_source(), &ray);
    assert_eq!(hit, Some(Vec3 { x: 50, y: 0, z: 0 }));
}

#[test]
fn nearer_source_is_hit_first() {
    let shape = MetaballShape {
        points: vec![
            Metaball { pos: Vec3 { x: 3000, y: 0, z: 0 } },
            Metaball { pos: Vec3 { x: 0, y: 0, z: 0 } },
        ],
    };
    let ray = Ray {
        origin: Vec3 { x: -5000, y: 0, z: 0 },
        dir: Vec3 { x: SCALE, y: 0, z: 0 },
    };
    let hit = raycast(&shape, &ray).unwrap();
    assert!(hit.x < 1000);
}

#[test]
fn raycast_agrees_with_triangulated_surface() {
    // Both extraction paths place the surface near the analytic radius.
    let shape = single_source();
    let hit = raycast(
        &shape,
        &Ray { origin: Vec3 { x: -5000, y: 0, z: 0 }, dir: Vec3 { x: SCALE, y: 0, z: 0 } },
    )
    .unwrap();
    let cells = metaballs::meta_iso::surface_cells(&shape, 600);
    let reach = cells.iter().map(|c| (c.center.x - c.half.x).abs()).max().unwrap();
    let hit_d = ((hit.x * hit.x) as f64).sqrt();
    assert!((hit_d - 541.2).abs() <= 50.0);
    assert!(((reach as f64) - 541.2).abs() <= 500.0);
}
