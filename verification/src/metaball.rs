//! The scalar field: radial sources with unit compact support, their
//! composite influence and gradient, the bounding volume of the source
//! set, and gradient-descent projection onto the isosurface.

use vstd::prelude::*;
use crate::fixed::{
    SCALE, THRESHOLD, TOLERANCE, PROJECT_DIVISOR, MAX_SOURCES, MAX_COORD, QUERY_RANGE, sdiv,
    div_trunc, lemma_sdiv_bound, lemma_sdiv_ordered,
};
use crate::geom::{Vec3, Aabb, in_range, dist_sq, coord, spec_normalize};

verus! {

/// Largest admitted magnitude of a point handed to the surface projector.
pub const PROJECT_RANGE: i64 = 100000000;

/// Iteration cap of the surface projector's gradient descent.
pub const MAX_PROJECT_STEPS: usize = 100;

/// One radial source: influence 1.0 at its position, falling smoothly to
/// zero at unit distance.
#[derive(Clone, Copy, PartialEq, Eq, Structural, Debug)]
pub struct Metaball {
    pub pos: Vec3,
}

/// A composite field: the ordered collection of sources whose influences
/// sum.  The order never changes results but keeps extraction reproducible.
#[derive(Debug)]
pub struct MetaballShape {
    pub points: Vec<Metaball>,
}

/// The squared source distance of `p`, rescaled to fixed-point units
/// (`SCALE` stands for a squared distance of 1.0).
pub open spec fn r2_units(b: Metaball, p: Vec3) -> int {
    sdiv(dist_sq(p, b.pos), SCALE as int)
}

/// One source's influence at `p`: `(1 - r^2)^2` inside unit support, zero
/// outside, in fixed-point units.
pub open spec fn influence_one(b: Metaball, p: Vec3) -> int {
    let r2 = r2_units(b, p);
    if r2 > SCALE {
        0
    } else {
        sdiv((SCALE - r2) * (SCALE - r2), SCALE as int)
    }
}

/// One source's gradient at `p`: `-4 * (p - pos) * (1 - r^2)` inside unit
/// support, zero outside; the exact derivative of `influence_one`'s smooth
/// branch, in fixed-point units.
pub open spec fn grad_one(b: Metaball, p: Vec3) -> (int, int, int) {
    let r2 = r2_units(b, p);
    if r2 > SCALE {
        (0, 0, 0)
    } else {
        (
            sdiv(-4 * (p.x - b.pos.x) * (SCALE - r2), SCALE as int),
            sdiv(-4 * (p.y - b.pos.y) * (SCALE - r2), SCALE as int),
            sdiv(-4 * (p.z - b.pos.z) * (SCALE - r2), SCALE as int),
        )
    }
}

/// The composite influence at `p`: the sum over the sources, in order.
pub open spec fn total_influence(s: Seq<Metaball>, p: Vec3) -> int
    decreases s.len(),
{
    if s.len() == 0 {
        0
    } else {
        total_influence(s.drop_last(), p) + influence_one(s.last(), p)
    }
}

/// One source's contribution to the weighted gradient sum: its gradient
/// scaled by its own influence.
pub open spec fn grad_contrib(b: Metaball, p: Vec3) -> (int, int, int) {
    let g = grad_one(b, p);
    let w = influence_one(b, p);
    (sdiv(g.0 * w, SCALE as int), sdiv(g.1 * w, SCALE as int), sdiv(g.2 * w, SCALE as int))
}

/// The influence-weighted gradient sum at `p`, before normalization.
pub open spec fn weighted_gradient(s: Seq<Metaball>, p: Vec3) -> (int, int, int)
    decreases s.len(),
{
    if s.len() == 0 {
        (0, 0, 0)
    } else {
        let w = weighted_gradient(s.drop_last(), p);
        let c = grad_contrib(s.last(), p);
        (w.0 + c.0, w.1 + c.1, w.2 + c.2)
    }
}

/// The composite gradient at `p`: the weighted sum scaled to unit length,
/// or nothing where that sum vanishes.
pub open spec fn spec_gradient(s: Seq<Metaball>, p: Vec3) -> Option<Vec3> {
    let w = weighted_gradient(s, p);
    spec_normalize(Vec3 { x: w.0 as i64, y: w.1 as i64, z: w.2 as i64 })
}

/// The least source coordinate along `dim`; zero for an empty set.
pub open spec fn low_coord(s: Seq<Metaball>, dim: int) -> int
    decreases s.len(),
{
    if s.len() == 0 {
        0
    } else if s.len() == 1 {
        coord(s[0].pos, dim)
    } else {
        let m = low_coord(s.drop_last(), dim);
        let c = coord(s.last().pos, dim);
        if c < m {
            c
        } else {
            m
        }
    }
}

/// The greatest source coordinate along `dim`; zero for an empty set.
pub open spec fn high_coord(s: Seq<Metaball>, dim: int) -> int
    decreases s.len(),
{
    if s.len() == 0 {
        0
    } else if s.len() == 1 {
        coord(s[0].pos, dim)
    } else {
        let m = high_coord(s.drop_last(), dim);
        let c = coord(s.last().pos, dim);
        if c > m {
            c
        } else {
            m
        }
    }
}

/// The lower bounding-volume face along `dim`: least source coordinate
/// padded by the unit support radius.
pub open spec fn extent_min_spec(s: Seq<Metaball>, dim: int) -> int {
    low_coord(s, dim) - SCALE
}

/// The upper bounding-volume face along `dim`.
pub open spec fn extent_max_spec(s: Seq<Metaball>, dim: int) -> int {
    high_coord(s, dim) + SCALE
}

/// One projection step: move against the threshold residual along the
/// unit gradient, damped by `PROJECT_DIVISOR`; stand still where the
/// gradient is degenerate.
pub open spec fn project_step(s: Seq<Metaball>, p: Vec3) -> Vec3 {
    let diff = total_influence(s, p) - THRESHOLD;
    match spec_gradient(s, p) {
        Option::None => p,
        Option::Some(g) => Vec3 {
            x: (p.x - sdiv(diff * g.x, (PROJECT_DIVISOR * SCALE) as int)) as i64,
            y: (p.y - sdiv(diff * g.y, (PROJECT_DIVISOR * SCALE) as int)) as i64,
            z: (p.z - sdiv(diff * g.z, (PROJECT_DIVISOR * SCALE) as int)) as i64,
        },
    }
}

/// The projector's fixed-point iteration: step until the influence residual
/// is within tolerance, the iteration budget runs out, a step stalls, or a
/// step would leave the working range; then return the best-effort point.
pub open spec fn project_loop(s: Seq<Metaball>, p: Vec3, fuel: nat) -> Vec3
    decreases fuel,
{
    let diff = total_influence(s, p) - THRESHOLD;
    if -TOLERANCE <= diff <= TOLERANCE {
        p
    } else if fuel == 0 {
        p
    } else {
        let q = project_step(s, p);
        if q == p {
            p
        } else if !in_range(q, PROJECT_RANGE as int) {
            p
        } else {
            project_loop(s, q, (fuel - 1) as nat)
        }
    }
}

impl Metaball {
    /// This source's influence at `pt`, in fixed-point units.
    pub fn influence(&self, pt: &Vec3) -> (r: i64)
        requires
            in_range(self.pos, MAX_COORD as int),
            in_range(*pt, QUERY_RANGE as int),
        ensures
            r == influence_one(*self, *pt),
            0 <= r <= SCALE,
    {
        let d = pt.sub(&self.pos);
        let d2 = d.norm_sq();
        proof {
            assert(crate::geom::norm_sq(d) == dist_sq(*pt, self.pos));
        }
        let r2 = div_trunc(d2, SCALE);
        if r2 > SCALE {
            0
        } else {
            let f = SCALE - r2;
            proof {
                assert(0 <= f * f <= SCALE * SCALE) by (nonlinear_arith)
                    requires
                        0 <= f <= SCALE,
                ;
                lemma_sdiv_bound((f * f) as int, SCALE as int, SCALE as int);
            }
            div_trunc(f * f, SCALE)
        }
    }

    /// This source's gradient at `pt`; each component lies in
    /// `[-4 * SCALE, 4 * SCALE]`.
    pub fn gradient(&self, pt: &Vec3) -> (r: Vec3)
        requires
            in_range(self.pos, MAX_COORD as int),
            in_range(*pt, QUERY_RANGE as int),
        ensures
            r.x == grad_one(*self, *pt).0,
            r.y == grad_one(*self, *pt).1,
            r.z == grad_one(*self, *pt).2,
            in_range(r, (4 * SCALE) as int),
    {
        let d = pt.sub(&self.pos);
        let d2 = d.norm_sq();
        proof {
            assert(crate::geom::norm_sq(d) == dist_sq(*pt, self.pos));
        }
        let r2 = div_trunc(d2, SCALE);
        if r2 > SCALE {
            Vec3::zero()
        } else {
            let f = SCALE - r2;
            proof {
                assert(d.x * d.x >= 0 && d.y * d.y >= 0 && d.z * d.z >= 0) by (nonlinear_arith);
                lemma_in_support_delta(d2 as int, d.x as int);
                lemma_in_support_delta(d2 as int, d.y as int);
                lemma_in_support_delta(d2 as int, d.z as int);
                lemma_grad_product_bound(d.x as int, f as int);
                lemma_grad_product_bound(d.y as int, f as int);
                lemma_grad_product_bound(d.z as int, f as int);
                lemma_sdiv_bound((-4 * d.x * f) as int, (4 * SCALE) as int, SCALE as int);
                lemma_sdiv_bound((-4 * d.y * f) as int, (4 * SCALE) as int, SCALE as int);
                lemma_sdiv_bound((-4 * d.z * f) as int, (4 * SCALE) as int, SCALE as int);
            }
            Vec3 {
                x: div_trunc(-4 * d.x * f, SCALE),
                y: div_trunc(-4 * d.y * f, SCALE),
                z: div_trunc(-4 * d.z * f, SCALE),
            }
        }
    }
}

/// Inside unit support the rescaled squared distance caps each coordinate
/// delta at `SCALE`.
proof fn lemma_in_support_delta(d2: int, dx: int)
    requires
        d2 >= 0,
        dx * dx <= d2,
        sdiv(d2, SCALE as int) <= SCALE,
    ensures
        -SCALE <= dx <= SCALE,
{
    if d2 >= SCALE * (SCALE + 1) {
        lemma_sdiv_ordered((SCALE * (SCALE + 1)) as int, d2, SCALE as int);
        vstd::arithmetic::div_mod::lemma_div_by_multiple((SCALE + 1) as int, SCALE as int);
        assert(SCALE * (SCALE + 1) == (SCALE + 1) * SCALE) by (nonlinear_arith);
        assert(false);
    }
    assert(-SCALE <= dx <= SCALE) by (nonlinear_arith)
        requires
            dx * dx <= d2,
            d2 < SCALE * (SCALE + 1),
    ;
}

/// The gradient numerator is bounded inside support.
proof fn lemma_grad_product_bound(dx: int, f: int)
    requires
        -SCALE <= dx <= SCALE,
        0 <= f <= SCALE,
    ensures
        -((4 * SCALE) * SCALE) <= -4 * dx * f <= (4 * SCALE) * SCALE,
{
    assert(-((4 * SCALE) * SCALE) <= -4 * dx * f <= (4 * SCALE) * SCALE) by (nonlinear_arith)
        requires
            -SCALE <= dx <= SCALE,
            0 <= f <= SCALE,
    ;
}

/// Influence is never negative: each source contributes in `[0, SCALE]`.
pub proof fn lemma_influence_one_bounds(b: Metaball, p: Vec3)
    ensures
        0 <= influence_one(b, p) <= SCALE,
{
    let r2 = r2_units(b, p);
    assert(dist_sq(p, b.pos) >= 0) by (nonlinear_arith);
    vstd::arithmetic::div_mod::lemma_div_pos_is_pos(dist_sq(p, b.pos), SCALE as int);
    if r2 <= SCALE {
        assert(0 <= (SCALE - r2) * (SCALE - r2) <= SCALE * SCALE) by (nonlinear_arith)
            requires
                0 <= SCALE - r2 <= SCALE,
        ;
        lemma_sdiv_bound((SCALE - r2) * (SCALE - r2), SCALE as int, SCALE as int);
        vstd::arithmetic::div_mod::lemma_div_pos_is_pos(
            (SCALE - r2) * (SCALE - r2),
            SCALE as int,
        );
    }
}

/// Support boundedness: a source's influence is zero beyond unit distance
/// and lies in `[0, SCALE]` everywhere.
pub proof fn lemma_support_bounded(b: Metaball, p: Vec3)
    ensures
        0 <= influence_one(b, p) <= SCALE,
        dist_sq(p, b.pos) > SCALE * SCALE ==> influence_one(b, p) == 0,
{
    lemma_influence_one_bounds(b, p);
    let d2 = dist_sq(p, b.pos);
    if d2 > SCALE * SCALE {
        lemma_sdiv_ordered((SCALE * SCALE) as int, d2, SCALE as int);
        vstd::arithmetic::div_mod::lemma_div_by_multiple(SCALE as int, SCALE as int);
        let r2 = r2_units(b, p);
        assert(r2 >= SCALE);
        if r2 == SCALE {
            assert((SCALE - r2) * (SCALE - r2) == 0) by (nonlinear_arith)
                requires
                    r2 == SCALE,
            ;
            vstd::arithmetic::div_mod::lemma_div_of0(SCALE as int);
        }
    }
}

/// Smoothness at the support boundary: within `d` units of `r^2 = 1`, the
/// influence is at most `d^2 / SCALE` and every gradient component is at
/// most `4 * d`, so both vanish as the boundary is approached.
pub proof fn lemma_smooth_at_boundary(b: Metaball, p: Vec3, d: int)
    requires
        0 <= d <= SCALE,
        r2_units(b, p) >= SCALE - d,
    ensures
        0 <= influence_one(b, p) <= sdiv(d * d, SCALE as int),
        -(4 * d) <= grad_one(b, p).0 <= 4 * d,
        -(4 * d) <= grad_one(b, p).1 <= 4 * d,
        -(4 * d) <= grad_one(b, p).2 <= 4 * d,
{
    lemma_influence_one_bounds(b, p);
    assert(0 <= d * d) by (nonlinear_arith)
        requires
            0 <= d,
    ;
    vstd::arithmetic::div_mod::lemma_div_pos_is_pos(d * d, SCALE as int);
    let r2 = r2_units(b, p);
    let d2 = dist_sq(p, b.pos);
    let dx = p.x - b.pos.x;
    let dy = p.y - b.pos.y;
    let dz = p.z - b.pos.z;
    assert(dx * dx >= 0 && dy * dy >= 0 && dz * dz >= 0) by (nonlinear_arith);
    assert(d2 == dx * dx + dy * dy + dz * dz);
    vstd::arithmetic::div_mod::lemma_div_pos_is_pos(d2, SCALE as int);
    if r2 <= SCALE {
        let f = SCALE - r2;
        assert(0 <= f <= d);
        assert(f * f <= d * d) by (nonlinear_arith)
            requires
                0 <= f <= d,
        ;
        assert(f * f >= 0) by (nonlinear_arith)
            requires
                0 <= f,
        ;
        lemma_sdiv_ordered(f * f, d * d, SCALE as int);
        lemma_in_support_delta(d2, dx);
        lemma_in_support_delta(d2, dy);
        lemma_in_support_delta(d2, dz);
        lemma_boundary_grad_component(dx, f, d);
        lemma_boundary_grad_component(dy, f, d);
        lemma_boundary_grad_component(dz, f, d);
    }
}

/// One gradient component shrinks linearly with the distance to the
/// support boundary.
proof fn lemma_boundary_grad_component(dx: int, f: int, d: int)
    requires
        -SCALE <= dx <= SCALE,
        0 <= f <= d,
    ensures
        -(4 * d) <= sdiv(-4 * dx * f, SCALE as int) <= 4 * d,
{
    assert(-((4 * d) * SCALE) <= -4 * dx * f <= (4 * d) * SCALE) by (nonlinear_arith)
        requires
            -SCALE <= dx <= SCALE,
            0 <= f <= d,
    ;
    lemma_sdiv_bound(-4 * dx * f, 4 * d, SCALE as int);
}

/// The composite influence is nonnegative and at most `SCALE` per source.
pub proof fn lemma_total_influence_bounds(s: Seq<Metaball>, p: Vec3)
    ensures
        0 <= total_influence(s, p) <= 1000 * s.len(),
    decreases s.len(),
{
    if s.len() > 0 {
        lemma_total_influence_bounds(s.drop_last(), p);
        lemma_influence_one_bounds(s.last(), p);
    }
}

/// A positive composite influence names a source within unit distance.
pub proof fn lemma_total_pos_has_near_source(s: Seq<Metaball>, p: Vec3) -> (i: int)
    requires
        total_influence(s, p) > 0,
    ensures
        0 <= i < s.len(),
        influence_one(s[i], p) > 0,
    decreases s.len(),
{
    lemma_influence_one_bounds(s.last(), p);
    if influence_one(s.last(), p) > 0 {
        s.len() - 1
    } else {
        lemma_total_pos_has_near_source(s.drop_last(), p)
    }
}

impl MetaballShape {
    /// The shape is within the library's working ranges: at most
    /// `MAX_SOURCES` sources, every coordinate within `MAX_COORD`.
    pub open spec fn wf(&self) -> bool {
        &&& self.points@.len() <= MAX_SOURCES
        &&& forall|i: int|
            0 <= i < self.points@.len() ==> in_range(
                (#[trigger] self.points@[i]).pos,
                MAX_COORD as int,
            )
    }

    /// Checks the working ranges of a shape built from arbitrary input.
    pub fn is_well_formed(&self) -> (r: bool)
        ensures
            r == self.wf(),
    {
        if self.points.len() > MAX_SOURCES {
            return false;
        }
        let n = self.points.len();
        let mut i: usize = 0;
        while i < n
            invariant
                i <= n,
                n == self.points@.len(),
                forall|j: int|
                    0 <= j < i ==> in_range((#[trigger] self.points@[j]).pos, MAX_COORD as int),
            decreases n - i,
        {
            let b = self.points[i];
            if b.pos.x < -MAX_COORD || b.pos.x > MAX_COORD || b.pos.y < -MAX_COORD || b.pos.y
                > MAX_COORD || b.pos.z < -MAX_COORD || b.pos.z > MAX_COORD {
                return false;
            }
            i = i + 1;
        }
        true
    }

    /// The composite influence at `pt`: the sum of the sources' influences
    /// in collection order.
    pub fn influence(&self, pt: &Vec3) -> (r: i64)
        requires
            self.wf(),
            in_range(*pt, QUERY_RANGE as int),
        ensures
            r == total_influence(self.points@, *pt),
            0 <= r <= 1000 * self.points@.len(),
            r <= 100000000,
    {
        let n = self.points.len();
        let mut acc: i64 = 0;
        let mut i: usize = 0;
        while i < n
            invariant
                i <= n,
                n == self.points@.len(),
                n <= MAX_SOURCES,
                self.wf(),
                in_range(*pt, QUERY_RANGE as int),
                acc == total_influence(self.points@.subrange(0, i as int), *pt),
                0 <= acc <= 1000 * i,
            decreases n - i,
        {
            let b = self.points[i];
            let v = b.influence(pt);
            proof {
                let pre = self.points@.subrange(0, i as int);
                let post = self.points@.subrange(0, i as int + 1);
                assert(post.drop_last() =~= pre);
                assert(post.last() == self.points@[i as int]);
            }
            acc = acc + v;
            i = i + 1;
        }
        proof {
            assert(self.points@.subrange(0, n as int) =~= self.points@);
        }
        acc
    }

    /// The composite gradient at `pt`, scaled to fixed-point unit length;
    /// nothing where the weighted gradient sum vanishes (a field extremum
    /// or a point outside all support).
    pub fn gradient(&self, pt: &Vec3) -> (r: Option<Vec3>)
        requires
            self.wf(),
            in_range(*pt, QUERY_RANGE as int),
        ensures
            r == spec_gradient(self.points@, *pt),
            r is Some ==> in_range(r->Some_0, SCALE as int),
    {
        let n = self.points.len();
        let mut gx: i64 = 0;
        let mut gy: i64 = 0;
        let mut gz: i64 = 0;
        let mut i: usize = 0;
        while i < n
            invariant
                i <= n,
                n == self.points@.len(),
                n <= MAX_SOURCES,
                self.wf(),
                in_range(*pt, QUERY_RANGE as int),
                gx == weighted_gradient(self.points@.subrange(0, i as int), *pt).0,
                gy == weighted_gradient(self.points@.subrange(0, i as int), *pt).1,
                gz == weighted_gradient(self.points@.subrange(0, i as int), *pt).2,
                -4000 * i <= gx <= 4000 * i,
                -4000 * i <= gy <= 4000 * i,
                -4000 * i <= gz <= 4000 * i,
            decreases n - i,
        {
            let b = self.points[i];
            let g = b.gradient(pt);
            let w = b.influence(pt);
            proof {
                lemma_contrib_product_bound(g.x as int, w as int);
                lemma_contrib_product_bound(g.y as int, w as int);
                lemma_contrib_product_bound(g.z as int, w as int);
                lemma_sdiv_bound((g.x * w) as int, (4 * SCALE) as int, SCALE as int);
                lemma_sdiv_bound((g.y * w) as int, (4 * SCALE) as int, SCALE as int);
                lemma_sdiv_bound((g.z * w) as int, (4 * SCALE) as int, SCALE as int);
                let pre = self.points@.subrange(0, i as int);
                let post = self.points@.subrange(0, i as int + 1);
                assert(post.drop_last() =~= pre);
                assert(post.last() == self.points@[i as int]);
            }
            let cx = div_trunc(g.x * w, SCALE);
            let cy = div_trunc(g.y * w, SCALE);
            let cz = div_trunc(g.z * w, SCALE);
            proof {
                assert(-4000 <= cx <= 4000 && -4000 <= cy <= 4000 && -4000 <= cz <= 4000);
            }
            gx = gx + cx;
            gy = gy + cy;
            gz = gz + cz;
            i = i + 1;
        }
        proof {
            assert(self.points@.subrange(0, n as int) =~= self.points@);
        }
        let v = Vec3 { x: gx, y: gy, z: gz };
        v.normalize()
    }

    /// The lower bounding-volume face along axis `dim`: the least source
    /// coordinate less the unit support radius; `-SCALE` with no sources.
    pub fn extent_min(&self, dim: usize) -> (r: i64)
        requires
            self.wf(),
            dim < 3,
        ensures
            r == extent_min_spec(self.points@, dim as int),
    {
        let n = self.points.len();
        if n == 0 {
            return -SCALE;
        }
        let mut m: i64 = coord_of(&self.points[0].pos, dim);
        let mut i: usize = 1;
        while i < n
            invariant
                1 <= i <= n,
                n == self.points@.len(),
                self.wf(),
                dim < 3,
                m == low_coord(self.points@.subrange(0, i as int), dim as int),
                -MAX_COORD <= m <= MAX_COORD,
            decreases n - i,
        {
            let c = coord_of(&self.points[i].pos, dim);
            proof {
                let pre = self.points@.subrange(0, i as int);
                let post = self.points@.subrange(0, i as int + 1);
                assert(post.drop_last() =~= pre);
                assert(post.last() == self.points@[i as int]);
                assert(post.len() >= 2);
            }
            if c < m {
                m = c;
            }
            i = i + 1;
        }
        proof {
            assert(self.points@.subrange(0, n as int) =~= self.points@);
        }
        m - SCALE
    }

    /// The upper bounding-volume face along axis `dim`: the greatest source
    /// coordinate plus the unit support radius; `SCALE` with no sources.
    pub fn extent_max(&self, dim: usize) -> (r: i64)
        requires
            self.wf(),
            dim < 3,
        ensures
            r == extent_max_spec(self.points@, dim as int),
    {
        let n = self.points.len();
        if n == 0 {
            return SCALE;
        }
        let mut m: i64 = coord_of(&self.points[0].pos, dim);
        let mut i: usize = 1;
        while i < n
            invariant
                1 <= i <= n,
                n == self.points@.len(),
                self.wf(),
                dim < 3,
                m == high_coord(self.points@.subrange(0, i as int), dim as int),
                -MAX_COORD <= m <= MAX_COORD,
            decreases n - i,
        {
            let c = coord_of(&self.points[i].pos, dim);
            proof {
                let pre = self.points@.subrange(0, i as int);
                let post = self.points@.subrange(0, i as int + 1);
                assert(post.drop_last() =~= pre);
                assert(post.last() == self.points@[i as int]);
                assert(post.len() >= 2);
            }
            if c > m {
                m = c;
            }
            i = i + 1;
        }
        proof {
            assert(self.points@.subrange(0, n as int) =~= self.points@);
        }
        m + SCALE
    }

    /// The axis-aligned bounding volume of the source set, padded by the
    /// unit support radius on every side; every point of nonzero influence
    /// lies inside it.
    pub fn bounding_box(&self) -> (r: Aabb)
        requires
            self.wf(),
        ensures
            r.mins.x == extent_min_spec(self.points@, 0),
            r.mins.y == extent_min_spec(self.points@, 1),
            r.mins.z == extent_min_spec(self.points@, 2),
            r.maxs.x == extent_max_spec(self.points@, 0),
            r.maxs.y == extent_max_spec(self.points@, 1),
            r.maxs.z == extent_max_spec(self.points@, 2),
    {
        Aabb {
            mins: Vec3 {
                x: self.extent_min(0),
                y: self.extent_min(1),
                z: self.extent_min(2),
            },
            maxs: Vec3 {
                x: self.extent_max(0),
                y: self.extent_max(1),
                z: self.extent_max(2),
            },
        }
    }

    /// Pulls `pt` toward the isosurface by damped gradient descent on the
    /// threshold residual; returns the exact fixed-point iteration
    /// `project_loop`, a best-effort point when it cannot converge.
    pub fn project_onto(&self, pt: Vec3) -> (r: Vec3)
        requires
            self.wf(),
            in_range(pt, PROJECT_RANGE as int),
        ensures
            r == project_loop(self.points@, pt, MAX_PROJECT_STEPS as nat),
            in_range(r, PROJECT_RANGE as int),
    {
        let mut cur = pt;
        let mut fuel: usize = MAX_PROJECT_STEPS;
        loop
            invariant
                self.wf(),
                in_range(cur, PROJECT_RANGE as int),
                fuel <= MAX_PROJECT_STEPS,
                project_loop(self.points@, pt, MAX_PROJECT_STEPS as nat) == project_loop(
                    self.points@,
                    cur,
                    fuel as nat,
                ),
            decreases fuel,
        {
            let infl = self.influence(&cur);
            let diff = infl - THRESHOLD;
            if -TOLERANCE <= diff && diff <= TOLERANCE {
                return cur;
            }
            if fuel == 0 {
                return cur;
            }
            match self.gradient(&cur) {
                Option::None => {
                    return cur;
                },
                Option::Some(g) => {
                    proof {
                        lemma_step_product_bound(diff as int, g.x as int);
                        lemma_step_product_bound(diff as int, g.y as int);
                        lemma_step_product_bound(diff as int, g.z as int);
                    }
                    let sx = div_trunc(diff * g.x, PROJECT_DIVISOR * SCALE);
                    let sy = div_trunc(diff * g.y, PROJECT_DIVISOR * SCALE);
                    let sz = div_trunc(diff * g.z, PROJECT_DIVISOR * SCALE);
                    let q = Vec3 { x: cur.x - sx, y: cur.y - sy, z: cur.z - sz };
                    proof {
                        assert(q == project_step(self.points@, cur));
                    }
                    if q.x == cur.x && q.y == cur.y && q.z == cur.z {
                        proof {
                            assert(q == cur);
                        }
                        return cur;
                    }
                    if q.x < -PROJECT_RANGE || q.x > PROJECT_RANGE || q.y < -PROJECT_RANGE || q.y
                        > PROJECT_RANGE || q.z < -PROJECT_RANGE || q.z > PROJECT_RANGE {
                        return cur;
                    }
                    proof {
                        assert(q != cur);
                        assert(in_range(q, PROJECT_RANGE as int));
                    }
                    cur = q;
                    fuel = fuel - 1;
                },
            }
        }
    }
}

/// Projection idempotence: a point already within tolerance of the
/// isosurface is a fixed point of the projector, so applying the projector
/// a second time to its result changes nothing.
pub proof fn lemma_projection_idempotent_on_surface(s: Seq<Metaball>, p: Vec3, fuel: nat)
    requires
        -TOLERANCE <= total_influence(s, p) - THRESHOLD <= TOLERANCE,
    ensures
        project_loop(s, p, fuel) == p,
        project_loop(s, project_loop(s, p, fuel), fuel) == p,
{
}

/// The least source coordinate is below every source, the greatest above.
pub proof fn lemma_extent_brackets_source(s: Seq<Metaball>, dim: int, i: int)
    requires
        0 <= i < s.len(),
    ensures
        low_coord(s, dim) <= coord(s[i].pos, dim) <= high_coord(s, dim),
    decreases s.len(),
{
    if s.len() > 1 {
        if i < s.len() - 1 {
            lemma_extent_brackets_source(s.drop_last(), dim, i);
        }
    }
}

/// With every source inside the working range, the extents are ordered
/// and bounded, so the bounding volume is well formed.
pub proof fn lemma_extent_bounds(s: Seq<Metaball>, dim: int)
    requires
        forall|i: int|
            0 <= i < s.len() ==> in_range((#[trigger] s[i]).pos, MAX_COORD as int),
    ensures
        -MAX_COORD <= low_coord(s, dim) <= MAX_COORD,
        -MAX_COORD <= high_coord(s, dim) <= MAX_COORD,
        low_coord(s, dim) <= high_coord(s, dim),
    decreases s.len(),
{
    if s.len() > 1 {
        lemma_extent_bounds(s.drop_last(), dim);
    }
}

/// A source with positive influence at `p` lies within `SCALE` of `p`
/// along every axis.
proof fn lemma_near_source_delta(b: Metaball, p: Vec3, dim: int)
    requires
        influence_one(b, p) > 0,
        0 <= dim < 3,
    ensures
        -SCALE <= coord(p, dim) - coord(b.pos, dim) <= SCALE,
{
    let d2 = dist_sq(p, b.pos);
    let dx = p.x - b.pos.x;
    let dy = p.y - b.pos.y;
    let dz = p.z - b.pos.z;
    assert(dx * dx >= 0 && dy * dy >= 0 && dz * dz >= 0) by (nonlinear_arith);
    assert(d2 == dx * dx + dy * dy + dz * dz);
    assert(r2_units(b, p) <= SCALE);
    if dim == 0 {
        lemma_in_support_delta(d2, dx);
    } else if dim == 1 {
        lemma_in_support_delta(d2, dy);
    } else {
        lemma_in_support_delta(d2, dz);
    }
}

/// Bounding volume containment: every point of positive composite
/// influence lies inside the padded bounding volume, on every axis.
pub proof fn lemma_bounding_volume_contains(s: Seq<Metaball>, p: Vec3, dim: int)
    requires
        total_influence(s, p) > 0,
        0 <= dim < 3,
    ensures
        extent_min_spec(s, dim) <= coord(p, dim) <= extent_max_spec(s, dim),
{
    let i = lemma_total_pos_has_near_source(s, p);
    lemma_near_source_delta(s[i], p, dim);
    lemma_extent_brackets_source(s, dim, i);
}

/// The weighted-gradient numerator is bounded per source.
proof fn lemma_contrib_product_bound(gx: int, w: int)
    requires
        -(4 * SCALE) <= gx <= 4 * SCALE,
        0 <= w <= SCALE,
    ensures
        -((4 * SCALE) * SCALE) <= gx * w <= (4 * SCALE) * SCALE,
{
    assert(-((4 * SCALE) * SCALE) <= gx * w <= (4 * SCALE) * SCALE) by (nonlinear_arith)
        requires
            -(4 * SCALE) <= gx <= 4 * SCALE,
            0 <= w <= SCALE,
    ;
}

/// The projection-step numerator fits comfortably in a machine word.
proof fn lemma_step_product_bound(diff: int, gx: int)
    requires
        -101000000 <= diff <= 100000000,
        -1000 <= gx <= 1000,
    ensures
        -0x7fff_ffff_ffff_ffff < diff * gx < 0x7fff_ffff_ffff_ffff,
{
    assert(-0x7fff_ffff_ffff_ffff < diff * gx < 0x7fff_ffff_ffff_ffff) by (nonlinear_arith)
        requires
            -101000000 <= diff <= 100000000,
            -1000 <= gx <= 1000,
    ;
}

/// The exec coordinate accessor along axis `dim`.
pub fn coord_of(v: &Vec3, dim: usize) -> (r: i64)
    requires
        dim < 3,
    ensures
        r == coord(*v, dim as int),
{
    if dim == 0 {
        v.x
    } else if dim == 1 {
        v.y
    } else {
        v.z
    }
}

} // verus!
