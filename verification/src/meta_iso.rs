//! Octree isosurface extraction: recursive subdivision of the bounding
//! volume down to a resolution, with cube-cell (coarse) and triangulated
//! (voxel-skin) surface output, and flattening of the mesh vertices.

use vstd::prelude::*;
use crate::fixed::{SCALE, THRESHOLD, MAX_COORD, sdiv, div_trunc};
use crate::geom::{Vec3, Aabb, Triangle, Cell, in_range};
use crate::metaball::{
    Metaball, MetaballShape, MAX_PROJECT_STEPS, total_influence, project_loop, extent_min_spec,
    extent_max_spec, lemma_extent_bounds,
};

verus! {

/// Depth cap of the octree recursion, guarding against a `min_size` far
/// below the bounding volume's extent.
pub const MAX_OCTREE_DEPTH: usize = 32;

/// Working range of octree cell coordinates; the padded bounding volume
/// of any well-formed shape lies far inside it.
pub const BOUNDS_RANGE: i64 = 2000000;

/// The box is ordered per axis and within the octree's working range.
pub open spec fn wf_aabb(bb: Aabb) -> bool {
    &&& bb.mins.x <= bb.maxs.x
    &&& bb.mins.y <= bb.maxs.y
    &&& bb.mins.z <= bb.maxs.z
    &&& in_range(bb.mins, BOUNDS_RANGE as int)
    &&& in_range(bb.maxs, BOUNDS_RANGE as int)
}

/// The midpoint of an axis interval, truncated toward zero.
pub open spec fn mid_of(a: int, b: int) -> int {
    sdiv(a + b, 2)
}

/// The center of a box.
pub open spec fn center_of(bb: Aabb) -> Vec3 {
    Vec3 {
        x: mid_of(bb.mins.x as int, bb.maxs.x as int) as i64,
        y: mid_of(bb.mins.y as int, bb.maxs.y as int) as i64,
        z: mid_of(bb.mins.z as int, bb.maxs.z as int) as i64,
    }
}

/// The half-extents of a box.
pub open spec fn half_of(bb: Aabb) -> Vec3 {
    Vec3 {
        x: sdiv(bb.maxs.x - bb.mins.x, 2) as i64,
        y: sdiv(bb.maxs.y - bb.mins.y, 2) as i64,
        z: sdiv(bb.maxs.z - bb.mins.z, 2) as i64,
    }
}

/// The largest axis extent of a box.
pub open spec fn extent_of(bb: Aabb) -> int {
    let ex = bb.maxs.x - bb.mins.x;
    let ey = bb.maxs.y - bb.mins.y;
    let ez = bb.maxs.z - bb.mins.z;
    if ex >= ey && ex >= ez {
        ex
    } else if ey >= ez {
        ey
    } else {
        ez
    }
}

/// Octant `i` (0 to 7) of a box: each axis keeps its lower or upper half
/// as the corresponding bit of `i` is clear or set (x highest bit).
pub open spec fn octant_of(bb: Aabb, i: int) -> Aabb {
    let c = center_of(bb);
    Aabb {
        mins: Vec3 {
            x: if i / 4 % 2 == 0 {
                bb.mins.x
            } else {
                c.x
            },
            y: if i / 2 % 2 == 0 {
                bb.mins.y
            } else {
                c.y
            },
            z: if i % 2 == 0 {
                bb.mins.z
            } else {
                c.z
            },
        },
        maxs: Vec3 {
            x: if i / 4 % 2 == 0 {
                c.x
            } else {
                bb.maxs.x
            },
            y: if i / 2 % 2 == 0 {
                c.y
            } else {
                bb.maxs.y
            },
            z: if i % 2 == 0 {
                c.z
            } else {
                bb.maxs.z
            },
        },
    }
}

/// A cube corner: the center offset by the half-extents, each axis toward
/// the positive side where its flag is set.
pub open spec fn corner(c: Vec3, h: Vec3, px: bool, py: bool, pz: bool) -> Vec3 {
    Vec3 {
        x: if px {
            (c.x + h.x) as i64
        } else {
            (c.x - h.x) as i64
        },
        y: if py {
            (c.y + h.y) as i64
        } else {
            (c.y - h.y) as i64
        },
        z: if pz {
            (c.z + h.z) as i64
        } else {
            (c.z - h.z) as i64
        },
    }
}

/// The outward sample point of face `f` (0 to 5, in the order -x, +x, -y,
/// +y, -z, +z): one full extent beyond the face along its axis.
pub open spec fn face_sample(c: Vec3, h: Vec3, f: int) -> Vec3 {
    if f == 0 {
        Vec3 { x: (c.x - 2 * h.x) as i64, y: c.y, z: c.z }
    } else if f == 1 {
        Vec3 { x: (c.x + 2 * h.x) as i64, y: c.y, z: c.z }
    } else if f == 2 {
        Vec3 { x: c.x, y: (c.y - 2 * h.y) as i64, z: c.z }
    } else if f == 3 {
        Vec3 { x: c.x, y: (c.y + 2 * h.y) as i64, z: c.z }
    } else if f == 4 {
        Vec3 { x: c.x, y: c.y, z: (c.z - 2 * h.z) as i64 }
    } else {
        Vec3 { x: c.x, y: c.y, z: (c.z + 2 * h.z) as i64 }
    }
}

/// The first triangle of face `f`, wound with its normal outward.
pub open spec fn face_tri_a(c: Vec3, h: Vec3, f: int) -> Triangle {
    if f == 0 {
        Triangle {
            a: corner(c, h, false, false, false),
            b: corner(c, h, false, false, true),
            c: corner(c, h, false, true, false),
        }
    } else if f == 1 {
        Triangle {
            a: corner(c, h, true, false, false),
            b: corner(c, h, true, true, false),
            c: corner(c, h, true, false, true),
        }
    } else if f == 2 {
        Triangle {
            a: corner(c, h, false, false, false),
            b: corner(c, h, true, false, false),
            c: corner(c, h, false, false, true),
        }
    } else if f == 3 {
        Triangle {
            a: corner(c, h, false, true, false),
            b: corner(c, h, false, true, true),
            c: corner(c, h, true, true, false),
        }
    } else if f == 4 {
        Triangle {
            a: corner(c, h, false, false, false),
            b: corner(c, h, false, true, false),
            c: corner(c, h, true, false, false),
        }
    } else {
        Triangle {
            a: corner(c, h, false, false, true),
            b: corner(c, h, true, false, true),
            c: corner(c, h, false, true, true),
        }
    }
}

/// The second triangle of face `f`.
pub open spec fn face_tri_b(c: Vec3, h: Vec3, f: int) -> Triangle {
    if f == 0 {
        Triangle {
            a: corner(c, h, false, true, false),
            b: corner(c, h, false, false, true),
            c: corner(c, h, false, true, true),
        }
    } else if f == 1 {
        Triangle {
            a: corner(c, h, true, true, false),
            b: corner(c, h, true, true, true),
            c: corner(c, h, true, false, true),
        }
    } else if f == 2 {
        Triangle {
            a: corner(c, h, true, false, false),
            b: corner(c, h, true, false, true),
            c: corner(c, h, false, false, true),
        }
    } else if f == 3 {
        Triangle {
            a: corner(c, h, true, true, false),
            b: corner(c, h, false, true, true),
            c: corner(c, h, true, true, true),
        }
    } else if f == 4 {
        Triangle {
            a: corner(c, h, true, false, false),
            b: corner(c, h, false, true, false),
            c: corner(c, h, true, true, false),
        }
    } else {
        Triangle {
            a: corner(c, h, true, false, true),
            b: corner(c, h, true, true, true),
            c: corner(c, h, false, true, true),
        }
    }
}

/// A triangle with each vertex pulled onto the isosurface.
pub open spec fn proj_tri(s: Seq<Metaball>, t: Triangle) -> Triangle {
    Triangle {
        a: project_loop(s, t.a, MAX_PROJECT_STEPS as nat),
        b: project_loop(s, t.b, MAX_PROJECT_STEPS as nat),
        c: project_loop(s, t.c, MAX_PROJECT_STEPS as nat),
    }
}

/// The surviving, projected triangles of face `f`: the face is culled
/// where the field is still at or above threshold one extent outward.
pub open spec fn face_tris(s: Seq<Metaball>, c: Vec3, h: Vec3, f: int) -> Seq<Triangle> {
    if total_influence(s, face_sample(c, h, f)) < THRESHOLD {
        seq![proj_tri(s, face_tri_a(c, h, f)), proj_tri(s, face_tri_b(c, h, f))]
    } else {
        Seq::empty()
    }
}

/// The triangles of faces `f` to 5, concatenated in face order.
pub open spec fn faces_from(s: Seq<Metaball>, c: Vec3, h: Vec3, f: int) -> Seq<Triangle>
    decreases 6 - f,
{
    if f < 0 || f >= 6 {
        Seq::empty()
    } else {
        face_tris(s, c, h, f) + faces_from(s, c, h, f + 1)
    }
}

/// A leaf's triangles: the culled voxel skin of a surface-containing
/// cell, empty elsewhere.
pub open spec fn leaf_tris(s: Seq<Metaball>, bb: Aabb) -> Seq<Triangle> {
    if total_influence(s, center_of(bb)) >= THRESHOLD {
        faces_from(s, center_of(bb), half_of(bb), 0)
    } else {
        Seq::empty()
    }
}

/// The triangles extracted from `bb`: subdivide down to `min_size` (while
/// depth lasts), then emit each surface-containing leaf's skin.
pub open spec fn spec_triangles(s: Seq<Metaball>, bb: Aabb, min_size: int, fuel: nat) -> Seq<
    Triangle,
>
    decreases fuel, 0int,
{
    if fuel > 0 && extent_of(bb) > min_size {
        spec_tri_octants(s, bb, min_size, (fuel - 1) as nat, 0)
    } else {
        leaf_tris(s, bb)
    }
}

/// The concatenated triangles of octants `i` to 7.
pub open spec fn spec_tri_octants(
    s: Seq<Metaball>,
    bb: Aabb,
    min_size: int,
    fuel: nat,
    i: int,
) -> Seq<Triangle>
    decreases fuel, 9 - i,
{
    if i < 0 || i >= 8 {
        Seq::empty()
    } else {
        spec_triangles(s, octant_of(bb, i), min_size, fuel) + spec_tri_octants(
            s,
            bb,
            min_size,
            fuel,
            i + 1,
        )
    }
}

/// The surface cells extracted from `bb` (coarse cube mode).
pub open spec fn spec_cells(s: Seq<Metaball>, bb: Aabb, min_size: int, fuel: nat) -> Seq<Cell>
    decreases fuel, 0int,
{
    if fuel > 0 && extent_of(bb) > min_size {
        spec_cell_octants(s, bb, min_size, (fuel - 1) as nat, 0)
    } else if total_influence(s, center_of(bb)) >= THRESHOLD {
        seq![Cell { center: center_of(bb), half: half_of(bb) }]
    } else {
        Seq::empty()
    }
}

/// The concatenated surface cells of octants `i` to 7.
pub open spec fn spec_cell_octants(
    s: Seq<Metaball>,
    bb: Aabb,
    min_size: int,
    fuel: nat,
    i: int,
) -> Seq<Cell>
    decreases fuel, 9 - i,
{
    if i < 0 || i >= 8 {
        Seq::empty()
    } else {
        spec_cells(s, octant_of(bb, i), min_size, fuel) + spec_cell_octants(
            s,
            bb,
            min_size,
            fuel,
            i + 1,
        )
    }
}

/// The padded bounding volume of a source sequence.
pub open spec fn root_box(s: Seq<Metaball>) -> Aabb {
    Aabb {
        mins: Vec3 {
            x: extent_min_spec(s, 0) as i64,
            y: extent_min_spec(s, 1) as i64,
            z: extent_min_spec(s, 2) as i64,
        },
        maxs: Vec3 {
            x: extent_max_spec(s, 0) as i64,
            y: extent_max_spec(s, 1) as i64,
            z: extent_max_spec(s, 2) as i64,
        },
    }
}

/// The whole extraction: the octree walked over the padded bounding
/// volume at resolution `min_size`.
pub open spec fn spec_triangulate(s: Seq<Metaball>, min_size: int) -> Seq<Triangle> {
    spec_triangles(s, root_box(s), min_size, MAX_OCTREE_DEPTH as nat)
}

/// The whole cube-mode extraction.
pub open spec fn spec_surface_cells(s: Seq<Metaball>, min_size: int) -> Seq<Cell> {
    spec_cells(s, root_box(s), min_size, MAX_OCTREE_DEPTH as nat)
}

/// The mesh vertex soup: each triangle's corners in order.
pub open spec fn flatten_tris(ts: Seq<Triangle>) -> Seq<Vec3>
    decreases ts.len(),
{
    if ts.len() == 0 {
        Seq::empty()
    } else {
        flatten_tris(ts.drop_last()) + seq![ts.last().a, ts.last().b, ts.last().c]
    }
}

/// The midpoint lies between ordered endpoints.
proof fn lemma_mid_between(a: int, b: int)
    requires
        a <= b,
    ensures
        a <= mid_of(a, b) <= b,
{
    vstd::arithmetic::div_mod::lemma_div_multiples_vanish(a, 2);
    vstd::arithmetic::div_mod::lemma_div_multiples_vanish(b, 2);
    vstd::arithmetic::div_mod::lemma_div_multiples_vanish(-a, 2);
    vstd::arithmetic::div_mod::lemma_div_multiples_vanish(-b, 2);
    if a + b >= 0 {
        vstd::arithmetic::div_mod::lemma_div_is_ordered(2 * a, a + b, 2);
        vstd::arithmetic::div_mod::lemma_div_is_ordered(a + b, 2 * b, 2);
    } else {
        vstd::arithmetic::div_mod::lemma_div_is_ordered(-(a + b), 2 * (-a), 2);
        vstd::arithmetic::div_mod::lemma_div_is_ordered(2 * (-b), -(a + b), 2);
    }
}

/// Every octant of a well-formed box is well formed, and the parent's
/// center lies inside the parent.
proof fn lemma_octant_wf(bb: Aabb, i: int)
    requires
        wf_aabb(bb),
        0 <= i < 8,
    ensures
        wf_aabb(octant_of(bb, i)),
        in_range(center_of(bb), BOUNDS_RANGE as int),
{
    lemma_mid_between(bb.mins.x as int, bb.maxs.x as int);
    lemma_mid_between(bb.mins.y as int, bb.maxs.y as int);
    lemma_mid_between(bb.mins.z as int, bb.maxs.z as int);
}

/// The exec center of a box.
fn center_exec(bb: &Aabb) -> (r: Vec3)
    requires
        wf_aabb(*bb),
    ensures
        r == center_of(*bb),
        in_range(r, BOUNDS_RANGE as int),
{
    proof {
        lemma_mid_between(bb.mins.x as int, bb.maxs.x as int);
        lemma_mid_between(bb.mins.y as int, bb.maxs.y as int);
        lemma_mid_between(bb.mins.z as int, bb.maxs.z as int);
    }
    Vec3 {
        x: div_trunc(bb.mins.x + bb.maxs.x, 2),
        y: div_trunc(bb.mins.y + bb.maxs.y, 2),
        z: div_trunc(bb.mins.z + bb.maxs.z, 2),
    }
}

/// The exec half-extents of a box.
fn half_exec(bb: &Aabb) -> (r: Vec3)
    requires
        wf_aabb(*bb),
    ensures
        r == half_of(*bb),
        0 <= r.x <= 2 * BOUNDS_RANGE,
        0 <= r.y <= 2 * BOUNDS_RANGE,
        0 <= r.z <= 2 * BOUNDS_RANGE,
{
    Vec3 {
        x: div_trunc(bb.maxs.x - bb.mins.x, 2),
        y: div_trunc(bb.maxs.y - bb.mins.y, 2),
        z: div_trunc(bb.maxs.z - bb.mins.z, 2),
    }
}

/// The exec largest axis extent.
fn extent_exec(bb: &Aabb) -> (r: i64)
    requires
        wf_aabb(*bb),
    ensures
        r == extent_of(*bb),
{
    let ex = bb.maxs.x - bb.mins.x;
    let ey = bb.maxs.y - bb.mins.y;
    let ez = bb.maxs.z - bb.mins.z;
    if ex >= ey && ex >= ez {
        ex
    } else if ey >= ez {
        ey
    } else {
        ez
    }
}

/// The exec octant constructor.
fn octant_exec(bb: &Aabb, i: usize) -> (r: Aabb)
    requires
        wf_aabb(*bb),
        i < 8,
    ensures
        r == octant_of(*bb, i as int),
        wf_aabb(r),
{
    proof {
        lemma_octant_wf(*bb, i as int);
    }
    let c = center_exec(bb);
    let mx = if i / 4 % 2 == 0 { bb.mins.x } else { c.x };
    let my = if i / 2 % 2 == 0 { bb.mins.y } else { c.y };
    let mz = if i % 2 == 0 { bb.mins.z } else { c.z };
    let hx = if i / 4 % 2 == 0 { c.x } else { bb.maxs.x };
    let hy = if i / 2 % 2 == 0 { c.y } else { bb.maxs.y };
    let hz = if i % 2 == 0 { c.z } else { bb.maxs.z };
    Aabb { mins: Vec3 { x: mx, y: my, z: mz }, maxs: Vec3 { x: hx, y: hy, z: hz } }
}

/// Extracts the voxel-skin triangles of the field inside `bounds` at
/// resolution `min_size`, spending at most `fuel` levels of subdivision.
fn triangulate_bounded(metas: &MetaballShape, bounds: &Aabb, min_size: i64, fuel: usize) -> (r:
    Vec<Triangle>)
    requires
        metas.wf(),
        wf_aabb(*bounds),
        min_size >= 1,
    ensures
        r@ == spec_triangles(metas.points@, *bounds, min_size as int, fuel as nat),
    decreases fuel,
{
    let mut out: Vec<Triangle> = Vec::new();
    let ext = extent_exec(bounds);
    if fuel > 0 && ext > min_size {
        let mut i: usize = 0;
        while i < 8
            invariant
                i <= 8,
                metas.wf(),
                wf_aabb(*bounds),
                min_size >= 1,
                fuel >= 1,
                spec_tri_octants(metas.points@, *bounds, min_size as int, (fuel - 1) as nat, 0)
                    =~= out@ + spec_tri_octants(
                    metas.points@,
                    *bounds,
                    min_size as int,
                    (fuel - 1) as nat,
                    i as int,
                ),
            decreases 8 - i,
        {
            let oct = octant_exec(bounds, i);
            let mut sub = triangulate_bounded(metas, &oct, min_size, fuel - 1);
            proof {
                assert(spec_tri_octants(
                    metas.points@,
                    *bounds,
                    min_size as int,
                    (fuel - 1) as nat,
                    i as int,
                ) == spec_triangles(
                    metas.points@,
                    octant_of(*bounds, i as int),
                    min_size as int,
                    (fuel - 1) as nat,
                ) + spec_tri_octants(
                    metas.points@,
                    *bounds,
                    min_size as int,
                    (fuel - 1) as nat,
                    i as int + 1,
                ));
            }
            out.append(&mut sub);
            i = i + 1;
        }
        proof {
            assert(out@ + spec_tri_octants(
                metas.points@,
                *bounds,
                min_size as int,
                (fuel - 1) as nat,
                8,
            ) =~= out@);
        }
        out
    } else {
        let c = center_exec(bounds);
        let infl = metas.influence(&c);
        if infl >= THRESHOLD {
            let h = half_exec(bounds);
            let mut f: usize = 0;
            while f < 6
                invariant
                    f <= 6,
                    metas.wf(),
                    wf_aabb(*bounds),
                    c == center_of(*bounds),
                    h == half_of(*bounds),
                    in_range(c, BOUNDS_RANGE as int),
                    0 <= h.x <= 2 * BOUNDS_RANGE,
                    0 <= h.y <= 2 * BOUNDS_RANGE,
                    0 <= h.z <= 2 * BOUNDS_RANGE,
                    faces_from(metas.points@, c, h, 0) =~= out@ + faces_from(
                        metas.points@,
                        c,
                        h,
                        f as int,
                    ),
                decreases 6 - f,
            {
                let smp = face_sample_exec(&c, &h, f);
                let sv = metas.influence(&smp);
                if sv < THRESHOLD {
                    let ta = face_tri_exec(&c, &h, f, false);
                    let tb = face_tri_exec(&c, &h, f, true);
                    let pa = Triangle {
                        a: metas.project_onto(ta.a),
                        b: metas.project_onto(ta.b),
                        c: metas.project_onto(ta.c),
                    };
                    let pb = Triangle {
                        a: metas.project_onto(tb.a),
                        b: metas.project_onto(tb.b),
                        c: metas.project_onto(tb.c),
                    };
                    proof {
                        assert(pa == proj_tri(metas.points@, face_tri_a(c, h, f as int)));
                        assert(pb == proj_tri(metas.points@, face_tri_b(c, h, f as int)));
                    }
                    out.push(pa);
                    out.push(pb);
                }
                f = f + 1;
            }
            proof {
                assert(out@ + faces_from(metas.points@, c, h, 6) =~= out@);
                assert(leaf_tris(metas.points@, *bounds) == faces_from(metas.points@, c, h, 0));
            }
            out
        } else {
            out
        }
    }
}

/// The exec outward face sample point.
fn face_sample_exec(c: &Vec3, h: &Vec3, f: usize) -> (r: Vec3)
    requires
        f < 6,
        in_range(*c, BOUNDS_RANGE as int),
        0 <= h.x <= 2 * BOUNDS_RANGE,
        0 <= h.y <= 2 * BOUNDS_RANGE,
        0 <= h.z <= 2 * BOUNDS_RANGE,
    ensures
        r == face_sample(*c, *h, f as int),
        in_range(r, 5 * BOUNDS_RANGE as int),
{
    if f == 0 {
        Vec3 { x: c.x - 2 * h.x, y: c.y, z: c.z }
    } else if f == 1 {
        Vec3 { x: c.x + 2 * h.x, y: c.y, z: c.z }
    } else if f == 2 {
        Vec3 { x: c.x, y: c.y - 2 * h.y, z: c.z }
    } else if f == 3 {
        Vec3 { x: c.x, y: c.y + 2 * h.y, z: c.z }
    } else if f == 4 {
        Vec3 { x: c.x, y: c.y, z: c.z - 2 * h.z }
    } else {
        Vec3 { x: c.x, y: c.y, z: c.z + 2 * h.z }
    }
}

/// The exec face triangle: the first of the face's pair where `second`
/// is false, else the second.
fn face_tri_exec(c: &Vec3, h: &Vec3, f: usize, second: bool) -> (r: Triangle)
    requires
        f < 6,
        in_range(*c, BOUNDS_RANGE as int),
        0 <= h.x <= 2 * BOUNDS_RANGE,
        0 <= h.y <= 2 * BOUNDS_RANGE,
        0 <= h.z <= 2 * BOUNDS_RANGE,
    ensures
        !second ==> r == face_tri_a(*c, *h, f as int),
        second ==> r == face_tri_b(*c, *h, f as int),
        in_range(r.a, 3 * BOUNDS_RANGE as int),
        in_range(r.b, 3 * BOUNDS_RANGE as int),
        in_range(r.c, 3 * BOUNDS_RANGE as int),
{
    let nnn = corner_exec(c, h, false, false, false);
    let nnp = corner_exec(c, h, false, false, true);
    let npn = corner_exec(c, h, false, true, false);
    let npp = corner_exec(c, h, false, true, true);
    let pnn = corner_exec(c, h, true, false, false);
    let pnp = corner_exec(c, h, true, false, true);
    let ppn = corner_exec(c, h, true, true, false);
    let ppp = corner_exec(c, h, true, true, true);
    if f == 0 {
        if !second {
            Triangle { a: nnn, b: nnp, c: npn }
        } else {
            Triangle { a: npn, b: nnp, c: npp }
        }
    } else if f == 1 {
        if !second {
            Triangle { a: pnn, b: ppn, c: pnp }
        } else {
            Triangle { a: ppn, b: ppp, c: pnp }
        }
    } else if f == 2 {
        if !second {
            Triangle { a: nnn, b: pnn, c: nnp }
        } else {
            Triangle { a: pnn, b: pnp, c: nnp }
        }
    } else if f == 3 {
        if !second {
            Triangle { a: npn, b: npp, c: ppn }
        } else {
            Triangle { a: ppn, b: npp, c: ppp }
        }
    } else if f == 4 {
        if !second {
            Triangle { a: nnn, b: npn, c: pnn }
        } else {
            Triangle { a: pnn, b: npn, c: ppn }
        }
    } else {
        if !second {
            Triangle { a: nnp, b: pnp, c: npp }
        } else {
            Triangle { a: pnp, b: ppp, c: npp }
        }
    }
}

/// The exec cube corner.
fn corner_exec(c: &Vec3, h: &Vec3, px: bool, py: bool, pz: bool) -> (r: Vec3)
    requires
        in_range(*c, BOUNDS_RANGE as int),
        0 <= h.x <= 2 * BOUNDS_RANGE,
        0 <= h.y <= 2 * BOUNDS_RANGE,
        0 <= h.z <= 2 * BOUNDS_RANGE,
    ensures
        r == corner(*c, *h, px, py, pz),
        in_range(r, 3 * BOUNDS_RANGE as int),
{
    Vec3 {
        x: if px { c.x + h.x } else { c.x - h.x },
        y: if py { c.y + h.y } else { c.y - h.y },
        z: if pz { c.z + h.z } else { c.z - h.z },
    }
}

/// Extracts the coarse cube cells of the field inside `bounds`.
fn cells_bounded(metas: &MetaballShape, bounds: &Aabb, min_size: i64, fuel: usize) -> (r: Vec<
    Cell,
>)
    requires
        metas.wf(),
        wf_aabb(*bounds),
        min_size >= 1,
    ensures
        r@ == spec_cells(metas.points@, *bounds, min_size as int, fuel as nat),
    decreases fuel,
{
    let mut out: Vec<Cell> = Vec::new();
    let ext = extent_exec(bounds);
    if fuel > 0 && ext > min_size {
        let mut i: usize = 0;
        while i < 8
            invariant
                i <= 8,
                metas.wf(),
                wf_aabb(*bounds),
                min_size >= 1,
                fuel >= 1,
                spec_cell_octants(metas.points@, *bounds, min_size as int, (fuel - 1) as nat, 0)
                    =~= out@ + spec_cell_octants(
                    metas.points@,
                    *bounds,
                    min_size as int,
                    (fuel - 1) as nat,
                    i as int,
                ),
            decreases 8 - i,
        {
            let oct = octant_exec(bounds, i);
            let mut sub = cells_bounded(metas, &oct, min_size, fuel - 1);
            proof {
                assert(spec_cell_octants(
                    metas.points@,
                    *bounds,
                    min_size as int,
                    (fuel - 1) as nat,
                    i as int,
                ) == spec_cells(
                    metas.points@,
                    octant_of(*bounds, i as int),
                    min_size as int,
                    (fuel - 1) as nat,
                ) + spec_cell_octants(
                    metas.points@,
                    *bounds,
                    min_size as int,
                    (fuel - 1) as nat,
                    i as int + 1,
                ));
            }
            out.append(&mut sub);
            i = i + 1;
        }
        proof {
            assert(out@ + spec_cell_octants(
                metas.points@,
                *bounds,
                min_size as int,
                (fuel - 1) as nat,
                8,
            ) =~= out@);
        }
        out
    } else {
        let c = center_exec(bounds);
        let infl = metas.influence(&c);
        if infl >= THRESHOLD {
            let h = half_exec(bounds);
            out.push(Cell { center: c, half: h });
            proof {
                assert(out@ =~= seq![Cell { center: center_of(*bounds), half: half_of(*bounds) }]);
            }
            out
        } else {
            out
        }
    }
}

/// Triangulates the isosurface of `metas` at resolution `min_size`: the
/// octree is walked over the padded bounding volume and each surviving
/// face triangle is projected onto the surface.
pub fn triangulate(metas: &MetaballShape, min_size: i64) -> (r: Vec<Triangle>)
    requires
        metas.wf(),
        min_size >= 1,
    ensures
        r@ == spec_triangulate(metas.points@, min_size as int),
{
    let bb = metas.bounding_box();
    proof {
        lemma_extent_bounds(metas.points@, 0);
        lemma_extent_bounds(metas.points@, 1);
        lemma_extent_bounds(metas.points@, 2);
        assert(bb == root_box(metas.points@));
    }
    triangulate_bounded(metas, &bb, min_size, MAX_OCTREE_DEPTH)
}

/// Extracts the coarse cube-cell cover of the surface region: every leaf
/// cell whose center influence reaches the threshold.
pub fn surface_cells(metas: &MetaballShape, min_size: i64) -> (r: Vec<Cell>)
    requires
        metas.wf(),
        min_size >= 1,
    ensures
        r@ == spec_surface_cells(metas.points@, min_size as int),
{
    let bb = metas.bounding_box();
    proof {
        lemma_extent_bounds(metas.points@, 0);
        lemma_extent_bounds(metas.points@, 1);
        lemma_extent_bounds(metas.points@, 2);
        assert(bb == root_box(metas.points@));
    }
    cells_bounded(metas, &bb, min_size, MAX_OCTREE_DEPTH)
}

/// Flattens the triangulation into a vertex soup for a mesh sink: three
/// consecutive vertices per triangle, in triangle order.
pub fn metaballs_to_trimesh(metas: &MetaballShape, min_size: i64) -> (r: Vec<Vec3>)
    requires
        metas.wf(),
        min_size >= 1,
    ensures
        r@ == flatten_tris(spec_triangulate(metas.points@, min_size as int)),
        r@.len() == 3 * spec_triangulate(metas.points@, min_size as int).len(),
{
    let tris = triangulate(metas, min_size);
    let mut out: Vec<Vec3> = Vec::new();
    let mut i: usize = 0;
    proof {
        lemma_flatten_len(tris@);
    }
    while i < tris.len()
        invariant
            i <= tris@.len(),
            out@ == flatten_tris(tris@.subrange(0, i as int)),
            out@.len() == 3 * i,
        decreases tris@.len() - i,
    {
        let t = tris[i];
        out.push(t.a);
        out.push(t.b);
        out.push(t.c);
        proof {
            let pre = tris@.subrange(0, i as int);
            let post = tris@.subrange(0, i as int + 1);
            assert(post.drop_last() =~= pre);
            assert(post.last() == tris@[i as int]);
        }
        i = i + 1;
    }
    proof {
        assert(tris@.subrange(0, tris@.len() as int) =~= tris@);
        lemma_flatten_len(tris@);
    }
    out
}

/// The vertex soup holds exactly three vertices per triangle.
pub proof fn lemma_flatten_len(ts: Seq<Triangle>)
    ensures
        flatten_tris(ts).len() == 3 * ts.len(),
    decreases ts.len(),
{
    if ts.len() > 0 {
        lemma_flatten_len(ts.drop_last());
    }
}

/// Empty-scene behavior: with no sources the field is zero everywhere,
/// so extraction emits no triangle and no cell at any box, resolution
/// and depth.
pub proof fn lemma_empty_scene_triangles(bb: Aabb, min_size: int, fuel: nat)
    ensures
        spec_triangles(Seq::<Metaball>::empty(), bb, min_size, fuel) == Seq::<Triangle>::empty(),
        spec_cells(Seq::<Metaball>::empty(), bb, min_size, fuel) == Seq::<Cell>::empty(),
    decreases fuel, 0int,
{
    if fuel > 0 && extent_of(bb) > min_size {
        lemma_empty_scene_octants(bb, min_size, (fuel - 1) as nat, 0);
    }
}

/// The octant half of the empty-scene induction.
proof fn lemma_empty_scene_octants(bb: Aabb, min_size: int, fuel: nat, i: int)
    ensures
        spec_tri_octants(Seq::<Metaball>::empty(), bb, min_size, fuel, i) == Seq::<
            Triangle,
        >::empty(),
        spec_cell_octants(Seq::<Metaball>::empty(), bb, min_size, fuel, i) == Seq::<Cell>::empty(),
    decreases fuel, 9 - i,
{
    if 0 <= i < 8 {
        lemma_empty_scene_triangles(octant_of(bb, i), min_size, fuel);
        lemma_empty_scene_octants(bb, min_size, fuel, i + 1);
        assert(spec_tri_octants(Seq::<Metaball>::empty(), bb, min_size, fuel, i) =~= Seq::<
            Triangle,
        >::empty());
        assert(spec_cell_octants(Seq::<Metaball>::empty(), bb, min_size, fuel, i) =~= Seq::<
            Cell,
        >::empty());
    }
}

/// Octree soundness for the cube mode: every emitted cell center carries
/// at least threshold influence, so the coarse cover never reports an
/// empty region.
pub proof fn lemma_cells_are_on_surface(
    s: Seq<Metaball>,
    bb: Aabb,
    min_size: int,
    fuel: nat,
    k: int,
)
    requires
        0 <= k < spec_cells(s, bb, min_size, fuel).len(),
    ensures
        total_influence(s, spec_cells(s, bb, min_size, fuel)[k].center) >= THRESHOLD,
    decreases fuel, 0int,
{
    if fuel > 0 && extent_of(bb) > min_size {
        lemma_cell_octants_on_surface(s, bb, min_size, (fuel - 1) as nat, 0, k);
    }
}

/// The octant half of the cube-mode soundness induction.
proof fn lemma_cell_octants_on_surface(
    s: Seq<Metaball>,
    bb: Aabb,
    min_size: int,
    fuel: nat,
    i: int,
    k: int,
)
    requires
        0 <= k < spec_cell_octants(s, bb, min_size, fuel, i).len(),
    ensures
        total_influence(s, spec_cell_octants(s, bb, min_size, fuel, i)[k].center) >= THRESHOLD,
    decreases fuel, 9 - i,
{
    if 0 <= i < 8 {
        let head = spec_cells(s, octant_of(bb, i), min_size, fuel);
        if k < head.len() {
            lemma_cells_are_on_surface(s, octant_of(bb, i), min_size, fuel, k);
        } else {
            lemma_cell_octants_on_surface(s, bb, min_size, fuel, i + 1, k - head.len());
        }
    }
}

/// A cell reported for a box stays inside that box, on every axis.
pub open spec fn cell_within(cell: Cell, bb: Aabb) -> bool {
    &&& bb.mins.x <= cell.center.x - cell.half.x
    &&& cell.center.x + cell.half.x <= bb.maxs.x
    &&& bb.mins.y <= cell.center.y - cell.half.y
    &&& cell.center.y + cell.half.y <= bb.maxs.y
    &&& bb.mins.z <= cell.center.z - cell.half.z
    &&& cell.center.z + cell.half.z <= bb.maxs.z
}

/// Along one axis, a box's truncated center and half-extent never reach
/// past its ends.
proof fn lemma_leaf_axis_within(a: int, b: int)
    requires
        a <= b,
    ensures
        a <= mid_of(a, b) - sdiv(b - a, 2),
        mid_of(a, b) + sdiv(b - a, 2) <= b,
{
    crate::fixed::lemma_sdiv2_near(a + b);
    crate::fixed::lemma_sdiv2_near(b - a);
}

/// The octree's leaf cells lie inside the box they were extracted from.
pub proof fn lemma_cells_within_bounds(
    s: Seq<Metaball>,
    bb: Aabb,
    min_size: int,
    fuel: nat,
    k: int,
)
    requires
        wf_aabb(bb),
        0 <= k < spec_cells(s, bb, min_size, fuel).len(),
    ensures
        cell_within(spec_cells(s, bb, min_size, fuel)[k], bb),
    decreases fuel, 0int,
{
    if fuel > 0 && extent_of(bb) > min_size {
        lemma_cell_octants_within(s, bb, min_size, (fuel - 1) as nat, 0, k);
    } else {
        lemma_leaf_axis_within(bb.mins.x as int, bb.maxs.x as int);
        lemma_leaf_axis_within(bb.mins.y as int, bb.maxs.y as int);
        lemma_leaf_axis_within(bb.mins.z as int, bb.maxs.z as int);
    }
}

/// The octant half of the containment induction.
proof fn lemma_cell_octants_within(
    s: Seq<Metaball>,
    bb: Aabb,
    min_size: int,
    fuel: nat,
    i: int,
    k: int,
)
    requires
        wf_aabb(bb),
        0 <= k < spec_cell_octants(s, bb, min_size, fuel, i).len(),
    ensures
        cell_within(spec_cell_octants(s, bb, min_size, fuel, i)[k], bb),
    decreases fuel, 9 - i,
{
    if 0 <= i < 8 {
        let oct = octant_of(bb, i);
        let head = spec_cells(s, oct, min_size, fuel);
        lemma_octant_wf(bb, i);
        if k < head.len() {
            lemma_cells_within_bounds(s, oct, min_size, fuel, k);
            lemma_mid_between(bb.mins.x as int, bb.maxs.x as int);
            lemma_mid_between(bb.mins.y as int, bb.maxs.y as int);
            lemma_mid_between(bb.mins.z as int, bb.maxs.z as int);
        } else {
            lemma_cell_octants_within(s, bb, min_size, fuel, i + 1, k - head.len());
        }
    }
}

/// The point lies in the closed box.
pub open spec fn inside_box(bb: Aabb, p: Vec3) -> bool {
    &&& bb.mins.x <= p.x <= bb.maxs.x
    &&& bb.mins.y <= p.y <= bb.maxs.y
    &&& bb.mins.z <= p.z <= bb.maxs.z
}

/// The octant of `bb` that keeps `p`: the upper half of each axis only
/// where `p` lies strictly beyond the center.
pub open spec fn octant_index(bb: Aabb, p: Vec3) -> int {
    let c = center_of(bb);
    (if p.x > c.x {
        4int
    } else {
        0int
    }) + (if p.y > c.y {
        2int
    } else {
        0int
    }) + (if p.z > c.z {
        1int
    } else {
        0int
    })
}

/// The leaf box of the subdivision of `bb` that contains `p`.
pub open spec fn leaf_of(bb: Aabb, p: Vec3, min_size: int, fuel: nat) -> Aabb
    decreases fuel,
{
    if fuel > 0 && extent_of(bb) > min_size {
        leaf_of(octant_of(bb, octant_index(bb, p)), p, min_size, (fuel - 1) as nat)
    } else {
        bb
    }
}

/// A point of a box stays inside the octant `octant_index` names for it.
proof fn lemma_octant_keeps_point(bb: Aabb, p: Vec3)
    requires
        wf_aabb(bb),
        inside_box(bb, p),
    ensures
        0 <= octant_index(bb, p) < 8,
        inside_box(octant_of(bb, octant_index(bb, p)), p),
{
    lemma_mid_between(bb.mins.x as int, bb.maxs.x as int);
    lemma_mid_between(bb.mins.y as int, bb.maxs.y as int);
    lemma_mid_between(bb.mins.z as int, bb.maxs.z as int);
    let c = center_of(bb);
    let j = octant_index(bb, p);
    if p.x > c.x {
        if p.y > c.y {
            if p.z > c.z {
                assert(j == 7);
            } else {
                assert(j == 6);
            }
        } else {
            if p.z > c.z {
                assert(j == 5);
            } else {
                assert(j == 4);
            }
        }
    } else {
        if p.y > c.y {
            if p.z > c.z {
                assert(j == 3);
            } else {
                assert(j == 2);
            }
        } else {
            if p.z > c.z {
                assert(j == 1);
            } else {
                assert(j == 0);
            }
        }
    }
}

/// A cell reported for one octant is reported for the whole box.
proof fn lemma_cell_octants_contains(
    s: Seq<Metaball>,
    bb: Aabb,
    min_size: int,
    fuel: nat,
    i: int,
    j: int,
    cell: Cell,
)
    requires
        0 <= i <= j < 8,
        spec_cells(s, octant_of(bb, j), min_size, fuel).contains(cell),
    ensures
        spec_cell_octants(s, bb, min_size, fuel, i).contains(cell),
    decreases 8 - i,
{
    let head = spec_cells(s, octant_of(bb, i), min_size, fuel);
    let tail = spec_cell_octants(s, bb, min_size, fuel, i + 1);
    if i == j {
        let w = choose|w: int| 0 <= w < head.len() && head[w] == cell;
        assert((head + tail)[w] == cell);
    } else {
        lemma_cell_octants_contains(s, bb, min_size, fuel, i + 1, j, cell);
        let w = choose|w: int| 0 <= w < tail.len() && tail[w] == cell;
        assert((head + tail)[head.len() + w] == cell);
    }
}

/// Octree coverage, the half the center-sampling heuristic supports:
/// every point of the queried box lies inside its leaf box, and whenever
/// that leaf's center sample reaches the threshold, the leaf's cell is
/// among the extracted cells.  (A point whose leaf center samples below
/// the threshold can be missed; that is the heuristic's documented
/// limitation, so such points are excluded here.)
pub proof fn lemma_octree_coverage(s: Seq<Metaball>, bb: Aabb, p: Vec3, min_size: int, fuel: nat)
    requires
        wf_aabb(bb),
        inside_box(bb, p),
    ensures
        inside_box(leaf_of(bb, p, min_size, fuel), p),
        total_influence(s, center_of(leaf_of(bb, p, min_size, fuel))) >= THRESHOLD
            ==> spec_cells(s, bb, min_size, fuel).contains(
            Cell {
                center: center_of(leaf_of(bb, p, min_size, fuel)),
                half: half_of(leaf_of(bb, p, min_size, fuel)),
            },
        ),
    decreases fuel,
{
    if fuel > 0 && extent_of(bb) > min_size {
        let j = octant_index(bb, p);
        lemma_octant_keeps_point(bb, p);
        lemma_octant_wf(bb, j);
        lemma_octree_coverage(s, octant_of(bb, j), p, min_size, (fuel - 1) as nat);
        let leaf = leaf_of(bb, p, min_size, fuel);
        if total_influence(s, center_of(leaf)) >= THRESHOLD {
            lemma_cell_octants_contains(
                s,
                bb,
                min_size,
                (fuel - 1) as nat,
                0,
                j,
                Cell { center: center_of(leaf), half: half_of(leaf) },
            );
        }
    } else {
        if total_influence(s, center_of(bb)) >= THRESHOLD {
            let cell = Cell { center: center_of(bb), half: half_of(bb) };
            assert(spec_cells(s, bb, min_size, fuel)[0] == cell);
        }
    }
}

/// The same coverage statement at the public entry point: a point of
/// at-least-threshold influence lies in the bounding volume's leaf box,
/// and that leaf's cell is extracted whenever its center also reaches
/// the threshold.
pub proof fn lemma_surface_cells_cover(s: Seq<Metaball>, p: Vec3, min_size: int)
    requires
        forall|i: int|
            0 <= i < s.len() ==> crate::geom::in_range((#[trigger] s[i]).pos, MAX_COORD as int),
        total_influence(s, p) >= THRESHOLD,
    ensures
        inside_box(leaf_of(root_box(s), p, min_size, MAX_OCTREE_DEPTH as nat), p),
        total_influence(
            s,
            center_of(leaf_of(root_box(s), p, min_size, MAX_OCTREE_DEPTH as nat)),
        ) >= THRESHOLD ==> spec_surface_cells(s, min_size).contains(
            Cell {
                center: center_of(leaf_of(root_box(s), p, min_size, MAX_OCTREE_DEPTH as nat)),
                half: half_of(leaf_of(root_box(s), p, min_size, MAX_OCTREE_DEPTH as nat)),
            },
        ),
{
    lemma_extent_bounds(s, 0);
    lemma_extent_bounds(s, 1);
    lemma_extent_bounds(s, 2);
    crate::metaball::lemma_bounding_volume_contains(s, p, 0);
    crate::metaball::lemma_bounding_volume_contains(s, p, 1);
    crate::metaball::lemma_bounding_volume_contains(s, p, 2);
    lemma_octree_coverage(s, root_box(s), p, min_size, MAX_OCTREE_DEPTH as nat);
}

/// Determinism: extraction is a pure function of the source sequence and
/// the resolution; equal source sequences yield identical triangle and
/// cell sequences, with no hidden state.
pub proof fn lemma_extraction_deterministic(s1: Seq<Metaball>, s2: Seq<Metaball>, min_size: int)
    requires
        s1 == s2,
    ensures
        spec_triangulate(s1, min_size) == spec_triangulate(s2, min_size),
        spec_surface_cells(s1, min_size) == spec_surface_cells(s2, min_size),
{
}

} // verus!
