//! Fixed-point 3D geometry: vectors, axis-aligned boxes, triangles, and
//! the gradient-normalization primitive.

use vstd::prelude::*;
use crate::fixed::{SCALE, sdiv, sqrt_floor, div_trunc, isqrt};
use crate::fixed::lemma_sqrt_floor_bounds;

verus! {

/// A 3D point or vector; each coordinate of `SCALE` units stands for 1.0.
#[derive(Clone, Copy, PartialEq, Eq, Structural, Debug)]
pub struct Vec3 {
    pub x: i64,
    pub y: i64,
    pub z: i64,
}

/// An axis-aligned box, `[mins, maxs]` per axis.
#[derive(Clone, Copy, PartialEq, Eq, Structural, Debug)]
pub struct Aabb {
    pub mins: Vec3,
    pub maxs: Vec3,
}

/// Three points in space, one extracted surface polygon.
#[derive(Clone, Copy, PartialEq, Eq, Structural, Debug)]
pub struct Triangle {
    pub a: Vec3,
    pub b: Vec3,
    pub c: Vec3,
}

/// A surface-containing octree leaf, reported as center plus half-extents.
#[derive(Clone, Copy, PartialEq, Eq, Structural, Debug)]
pub struct Cell {
    pub center: Vec3,
    pub half: Vec3,
}

/// Every coordinate of `v` lies in `[-bound, bound]`.
pub open spec fn in_range(v: Vec3, bound: int) -> bool {
    &&& -bound <= v.x <= bound
    &&& -bound <= v.y <= bound
    &&& -bound <= v.z <= bound
}

/// The squared distance between two points, in squared fixed-point units
/// (`SCALE * SCALE` stands for a distance of 1.0).
pub open spec fn dist_sq(a: Vec3, b: Vec3) -> int {
    (a.x - b.x) * (a.x - b.x) + (a.y - b.y) * (a.y - b.y) + (a.z - b.z) * (a.z - b.z)
}

/// The dot product, in squared fixed-point units.
pub open spec fn dot(a: Vec3, b: Vec3) -> int {
    a.x * b.x + a.y * b.y + a.z * b.z
}

/// The squared length of a vector, in squared fixed-point units.
pub open spec fn norm_sq(v: Vec3) -> int {
    dot(v, v)
}

/// The coordinate of `v` along axis `dim` (0, 1 or 2).
pub open spec fn coord(v: Vec3, dim: int) -> int {
    if dim == 0 {
        v.x as int
    } else if dim == 1 {
        v.y as int
    } else {
        v.z as int
    }
}

/// Scaling a unit-length result of `spec_normalize`: each component of the
/// normalized vector, `v * SCALE / sqrt(norm_sq(v))`, truncated.
pub open spec fn spec_normalize(v: Vec3) -> Option<Vec3> {
    let l = sqrt_floor(norm_sq(v) as nat) as int;
    if l == 0 {
        None
    } else {
        Some(
            Vec3 {
                x: sdiv(v.x * SCALE, l) as i64,
                y: sdiv(v.y * SCALE, l) as i64,
                z: sdiv(v.z * SCALE, l) as i64,
            },
        )
    }
}

/// A value whose square is at most `n` is bounded by `sqrt_floor(n)`.
pub proof fn lemma_sq_within(c: int, n: int)
    requires
        n >= 0,
        c * c <= n,
    ensures
        -(sqrt_floor(n as nat) as int) <= c <= sqrt_floor(n as nat) as int,
{
    let l = sqrt_floor(n as nat) as int;
    lemma_sqrt_floor_bounds(n as nat);
    if c > l {
        assert(c * c > n) by (nonlinear_arith)
            requires
                c >= l + 1,
                l >= 0,
                n < (l + 1) * (l + 1),
        ;
    }
    if c < -l {
        assert(c * c > n) by (nonlinear_arith)
            requires
                c <= -l - 1,
                l >= 0,
                n < (l + 1) * (l + 1),
        ;
    }
}

/// A vector's component is bounded by the floor square root of its squared
/// length.
pub proof fn lemma_component_le_norm(v: Vec3)
    ensures
        norm_sq(v) >= 0,
        -(sqrt_floor(norm_sq(v) as nat) as int) <= v.x <= sqrt_floor(norm_sq(v) as nat) as int,
        -(sqrt_floor(norm_sq(v) as nat) as int) <= v.y <= sqrt_floor(norm_sq(v) as nat) as int,
        -(sqrt_floor(norm_sq(v) as nat) as int) <= v.z <= sqrt_floor(norm_sq(v) as nat) as int,
{
    let n = norm_sq(v);
    assert(v.x * v.x >= 0 && v.y * v.y >= 0 && v.z * v.z >= 0) by (nonlinear_arith);
    lemma_sq_within(v.x as int, n);
    lemma_sq_within(v.y as int, n);
    lemma_sq_within(v.z as int, n);
}

impl Vec3 {
    /// The zero vector.
    pub fn zero() -> (r: Vec3)
        ensures
            r == (Vec3 { x: 0, y: 0, z: 0 }),
    {
        Vec3 { x: 0, y: 0, z: 0 }
    }

    /// Componentwise difference.
    pub fn sub(&self, other: &Vec3) -> (r: Vec3)
        requires
            in_range(*self, 0x2000_0000_0000_0000),
            in_range(*other, 0x2000_0000_0000_0000),
        ensures
            r.x == self.x - other.x,
            r.y == self.y - other.y,
            r.z == self.z - other.z,
    {
        Vec3 { x: self.x - other.x, y: self.y - other.y, z: self.z - other.z }
    }

    /// The dot product of two vectors of bounded magnitude.
    pub fn dot(&self, other: &Vec3) -> (r: i64)
        requires
            in_range(*self, 0x6000_0000),
            in_range(*other, 0x6000_0000),
        ensures
            r == dot(*self, *other),
    {
        proof {
            assert(-0x2400_0000_0000_0000 <= self.x * other.x <= 0x2400_0000_0000_0000)
                by (nonlinear_arith)
                requires
                    -0x6000_0000 <= self.x <= 0x6000_0000,
                    -0x6000_0000 <= other.x <= 0x6000_0000,
            ;
            assert(-0x2400_0000_0000_0000 <= self.y * other.y <= 0x2400_0000_0000_0000)
                by (nonlinear_arith)
                requires
                    -0x6000_0000 <= self.y <= 0x6000_0000,
                    -0x6000_0000 <= other.y <= 0x6000_0000,
            ;
            assert(-0x2400_0000_0000_0000 <= self.z * other.z <= 0x2400_0000_0000_0000)
                by (nonlinear_arith)
                requires
                    -0x6000_0000 <= self.z <= 0x6000_0000,
                    -0x6000_0000 <= other.z <= 0x6000_0000,
            ;
        }
        self.x * other.x + self.y * other.y + self.z * other.z
    }

    /// The squared length of a vector of bounded magnitude.
    pub fn norm_sq(&self) -> (r: i64)
        requires
            in_range(*self, 0x6000_0000),
        ensures
            r == norm_sq(*self),
            r >= 0,
    {
        proof {
            assert(self.x * self.x >= 0 && self.y * self.y >= 0 && self.z * self.z >= 0)
                by (nonlinear_arith);
        }
        self.dot(self)
    }

    /// Scales the vector to fixed-point unit length, or reports that its
    /// length truncates to zero.  The result is `spec_normalize` exactly;
    /// each component of a returned vector lies in `[-SCALE, SCALE]`.
    pub fn normalize(&self) -> (r: Option<Vec3>)
        requires
            in_range(*self, 0x6000_0000),
        ensures
            r == spec_normalize(*self),
            r is Some ==> in_range(r->Some_0, SCALE as int),
            norm_sq(*self) >= 1 ==> r is Some,
    {
        let n = self.norm_sq();
        let l64 = isqrt(n as u64);
        proof {
            lemma_component_le_norm(*self);
            lemma_sqrt_floor_bounds(norm_sq(*self) as nat);
        }
        if l64 == 0 {
            proof {
                let q = sqrt_floor(norm_sq(*self) as nat) as int;
                assert(norm_sq(*self) < 1) by (nonlinear_arith)
                    requires
                        q == 0,
                        norm_sq(*self) < (q + 1) * (q + 1),
                ;
            }
            None
        } else {
            proof {
                assert(l64 as int <= 3037000499) by (nonlinear_arith)
                    requires
                        (l64 as int) * (l64 as int) <= 0x7fff_ffff_ffff_ffff,
                ;
            }
            let l = l64 as i64;
            proof {
                assert(l as int == sqrt_floor(norm_sq(*self) as nat) as int);
                assert(-((SCALE as int) * l) <= self.x * SCALE <= (SCALE as int) * l)
                    by (nonlinear_arith)
                    requires
                        -l <= self.x <= l,
                        SCALE > 0,
                ;
                assert(-((SCALE as int) * l) <= self.y * SCALE <= (SCALE as int) * l)
                    by (nonlinear_arith)
                    requires
                        -l <= self.y <= l,
                        SCALE > 0,
                ;
                assert(-((SCALE as int) * l) <= self.z * SCALE <= (SCALE as int) * l)
                    by (nonlinear_arith)
                    requires
                        -l <= self.z <= l,
                        SCALE > 0,
                ;
                crate::fixed::lemma_sdiv_bound(self.x * SCALE, SCALE as int, l as int);
                crate::fixed::lemma_sdiv_bound(self.y * SCALE, SCALE as int, l as int);
                crate::fixed::lemma_sdiv_bound(self.z * SCALE, SCALE as int, l as int);
            }
            let rx = div_trunc(self.x * SCALE, l);
            let ry = div_trunc(self.y * SCALE, l);
            let rz = div_trunc(self.z * SCALE, l);
            Some(Vec3 { x: rx, y: ry, z: rz })
        }
    }
}

} // verus!
