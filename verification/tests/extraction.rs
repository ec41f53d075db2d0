//! Runtime checks of octree surface extraction, in both cube-cell and
//! triangulated modes.

use metaballs::fixed::THRESHOLD;
use metaballs::geom::Vec3;
use metaballs::metaball::{Metaball, MetaballShape};
use metaballs::meta_iso::{metaballs_to_trimesh, surface_cells, triangulate};

fn single_source() -> MetaballShape {
    MetaballShape { points: vec![Metaball { pos: Vec3 { x: 0, y: 0, z: 0 } }] }
}

#[test]
fn empty_scene_yields_no_geometry() {
    let shape = MetaballShape { points: vec![] };
    assert!(triangulate(&shape, 500).is_empty());
    assert!(surface_cells(&shape, 500).is_empty());
    assert!(metaballs_to_trimesh(&shape, 500).is_empty());
}

#[test]
fn cube_mode_finds_the_eight_inner_cells() {
    // Bounding box [-1, 1]^3, two levels of subdivision: 64 leaves of
    // size 0.5, centers at (+-0.25, +-0.75)^3.  Only the eight innermost
    // centers reach the threshold.
    let cells = surface_cells(&single_source(), 600);
    assert_eq!(cells.len(), 8);
    for c in cells.iter() {
        assert_eq!(c.half, Vec3 { x: 250, y: 250, z: 250 });
        assert_eq!(c.center.x.abs(), 250);
        assert_eq!(c.center.y.abs(), 250);
        assert_eq!(c.center.z.abs(), 250);
    }
}

#[test]
fn cube_mode_cells_carry_threshold_influence() {
    let shape = single_source();
    let cells = surface_cells(&shape, 600);
    for c in cells.iter() {
        assert!(shape.influence(&c.center) >= THRESHOLD);
    }
}

#[test]
fn cube_mode_cells_stay_inside_the_bounding_volume() {
    let shape = MetaballShape {
        points: vec![
            Metaball { pos: Vec3 { x: -700, y: 300, z: 0 } },
            Metaball { pos: Vec3 { x: 500, y: -200, z: 100 } },
        ],
    };
    let bb = shape.bounding_box();
    for c in surface_cells(&shape, 300).iter() {
        assert!(bb.mins.x <= c.center.x - c.half.x && c.center.x + c.half.x <= bb.maxs.x);
        assert!(bb.mins.y <= c.center.y - c.half.y && c.center.y + c.half.y <= bb.maxs.y);
        assert!(bb.mins.z <= c.center.z - c.half.z && c.center.z + c.half.z <= bb.maxs.z);
    }
}

#[test]
fn cube_mode_cell_centers_track_the_analytic_sphere() {
    // The isosurface of one source is the sphere of radius
    // sqrt(1 - sqrt(0.5)) ~ 0.5412; every extracted center lies within
    // one cell size of it.
    let cells = surface_cells(&single_source(), 600);
    for c in cells.iter() {
        let d = ((c.center.x * c.center.x + c.center.y * c.center.y + c.center.z * c.center.z)
            as f64)
            .sqrt();
        assert!((d - 541.2).abs() <= 500.0);
    }
}

#[test]
fn triangulation_emits_outward_faces_only() {
    // Eight surface cells, each with its three outward faces surviving
    // the cull: 3 faces x 2 triangles x 8 cells.
    let tris = triangulate(&single_source(), 600);
    assert_eq!(tris.len(), 48);
}

#[test]
fn triangulation_of_empty_interior_cell_is_culled() {
    // A coarser resolution leaves a single leaf covering the whole
    // bounding box; its center is the source, all six face samples are
    // outside support, so all faces survive.
    let tris = triangulate(&single_source(), 2500);
    assert_eq!(tris.len(), 12);
}

#[test]
fn mesh_vertices_flatten_triangles_in_order() {
    let shape = single_source();
    let tris = triangulate(&shape, 600);
    let verts = metaballs_to_trimesh(&shape, 600);
    assert_eq!(verts.len(), 3 * tris.len());
    for (i, t) in tris.iter().enumerate() {
        assert_eq!(verts[3 * i], t.a);
        assert_eq!(verts[3 * i + 1], t.b);
        assert_eq!(verts[3 * i + 2], t.c);
    }
}

#[test]
fn extraction_is_deterministic() {
    let a = single_source();
    let b = single_source();
    assert_eq!(triangulate(&a, 600), triangulate(&b, 600));
    assert_eq!(surface_cells(&a, 600), surface_cells(&b, 600));
    assert_eq!(triangulate(&a, 600), triangulate(&a, 600));
}

#[test]
fn grid_scene_extracts_deterministically() {
    let mut points = Vec::new();
    for x in 0..3 {
        for y in 0..3 {
            for z in 0..3 {
                points.push(Metaball {
                    pos: Vec3 { x: 300 * x - 300, y: 300 * y - 300, z: 300 * z - 300 },
                });
            }
        }
    }
    let a = MetaballShape { points: points.clone() };
    let b = MetaballShape { points };
    assert!(a.is_well_formed());
    let ta = triangulate(&a, 500);
    let tb = triangulate(&b, 500);
    assert!(!ta.is_empty());
    assert_eq!(ta, tb);
}

#[test]
fn two_blob_scene_grows_the_surface() {
    let pair = MetaballShape {
        points: vec![
            Metaball { pos: Vec3 { x: -400, y: 0, z: 0 } },
            Metaball { pos: Vec3 { x: 400, y: 0, z: 0 } },
        ],
    };
    let single = surface_cells(&single_source(), 400);
    let merged = surface_cells(&pair, 400);
    assert!(merged.len() > single.len());
    for c in merged.iter() {
        assert!(pair.influence(&c.center) >= THRESHOLD);
    }
}
