//! Three-component fixed-point vectors and collision planes.
use vstd::prelude::*;
use crate::fixed;
use crate::fixed::{
    clamp, clamp_wide, div_toward_zero, floor_sqrt, fx_add, fx_div, fx_mul, fx_sub, in_range, isqrt,
    lemma_clamp_in_range, tdiv, LIMIT, ONE,
};

verus! {

#[derive(Clone, Copy, PartialEq, Eq, Structural, Debug)]
pub struct Vec3 {
    pub x: i64,
    pub y: i64,
    pub z: i64,
}

impl Vec3 {
    /// Every component lies in the representable range.
    pub open spec fn wf(self) -> bool {
        in_range(self.x as int) && in_range(self.y as int) && in_range(self.z as int)
    }

    pub open spec fn add_spec(self, o: Vec3) -> Vec3 {
        Vec3 {
            x: fx_add(self.x as int, o.x as int) as i64,
            y: fx_add(self.y as int, o.y as int) as i64,
            z: fx_add(self.z as int, o.z as int) as i64,
        }
    }

    pub open spec fn sub_spec(self, o: Vec3) -> Vec3 {
        Vec3 {
            x: fx_sub(self.x as int, o.x as int) as i64,
            y: fx_sub(self.y as int, o.y as int) as i64,
            z: fx_sub(self.z as int, o.z as int) as i64,
        }
    }

    pub open spec fn scale_spec(self, s: i64) -> Vec3 {
        Vec3 {
            x: fx_mul(self.x as int, s as int) as i64,
            y: fx_mul(self.y as int, s as int) as i64,
            z: fx_mul(self.z as int, s as int) as i64,
        }
    }

    pub open spec fn div_spec(self, s: i64) -> Vec3 {
        Vec3 {
            x: fx_div(self.x as int, s as int) as i64,
            y: fx_div(self.y as int, s as int) as i64,
            z: fx_div(self.z as int, s as int) as i64,
        }
    }

    pub open spec fn dot_spec(self, o: Vec3) -> int {
        clamp(tdiv(self.x * o.x + self.y * o.y + self.z * o.z, ONE as int))
    }

    pub open spec fn mag_spec(self) -> int {
        clamp(floor_sqrt(self.x * self.x + self.y * self.y + self.z * self.z))
    }

    pub open spec fn dist_spec(self, o: Vec3) -> int {
        o.sub_spec(self).mag_spec()
    }

    pub fn new(x: i64, y: i64, z: i64) -> (r: Vec3)
        ensures
            r == (Vec3 { x, y, z }),
    {
        Vec3 { x, y, z }
    }

    pub fn zero() -> (r: Vec3)
        ensures
            r == (Vec3 { x: 0, y: 0, z: 0 }),
            r.wf(),
    {
        Vec3 { x: 0, y: 0, z: 0 }
    }

    pub fn add(self, o: Vec3) -> (r: Vec3)
        requires
            self.wf(),
            o.wf(),
        ensures
            r == self.add_spec(o),
            r.wf(),
    {
        proof {
            lemma_clamp_in_range(self.x + o.x);
            lemma_clamp_in_range(self.y + o.y);
            lemma_clamp_in_range(self.z + o.z);
        }
        Vec3 { x: fixed::add(self.x, o.x), y: fixed::add(self.y, o.y), z: fixed::add(self.z, o.z) }
    }

    pub fn sub(self, o: Vec3) -> (r: Vec3)
        requires
            self.wf(),
            o.wf(),
        ensures
            r == self.sub_spec(o),
            r.wf(),
    {
        proof {
            lemma_clamp_in_range(self.x - o.x);
            lemma_clamp_in_range(self.y - o.y);
            lemma_clamp_in_range(self.z - o.z);
        }
        Vec3 { x: fixed::sub(self.x, o.x), y: fixed::sub(self.y, o.y), z: fixed::sub(self.z, o.z) }
    }

    /// Multiplies each component by the fixed-point factor `s`.
    pub fn scale(self, s: i64) -> (r: Vec3)
        requires
            self.wf(),
            in_range(s as int),
        ensures
            r == self.scale_spec(s),
            r.wf(),
    {
        proof {
            lemma_clamp_in_range(tdiv(self.x * s, ONE as int));
            lemma_clamp_in_range(tdiv(self.y * s, ONE as int));
            lemma_clamp_in_range(tdiv(self.z * s, ONE as int));
        }
        Vec3 { x: fixed::mul(self.x, s), y: fixed::mul(self.y, s), z: fixed::mul(self.z, s) }
    }

    /// Divides each component by the positive fixed-point value `s`.
    pub fn div(self, s: i64) -> (r: Vec3)
        requires
            self.wf(),
            in_range(s as int),
            s > 0,
        ensures
            r == self.div_spec(s),
            r.wf(),
    {
        proof {
            lemma_clamp_in_range(tdiv(self.x * ONE, s as int));
            lemma_clamp_in_range(tdiv(self.y * ONE, s as int));
            lemma_clamp_in_range(tdiv(self.z * ONE, s as int));
        }
        Vec3 { x: fixed::div(self.x, s), y: fixed::div(self.y, s), z: fixed::div(self.z, s) }
    }

    pub fn dot(self, o: Vec3) -> (r: i64)
        requires
            self.wf(),
            o.wf(),
        ensures
            r == self.dot_spec(o),
            in_range(r as int),
    {
        assert(-0x10000000000000000000000 <= self.x * o.x <= 0x10000000000000000000000)
            by (nonlinear_arith)
            requires
                self.wf(),
                o.wf(),
        ;
        assert(-0x10000000000000000000000 <= self.y * o.y <= 0x10000000000000000000000)
            by (nonlinear_arith)
            requires
                self.wf(),
                o.wf(),
        ;
        assert(-0x10000000000000000000000 <= self.z * o.z <= 0x10000000000000000000000)
            by (nonlinear_arith)
            requires
                self.wf(),
                o.wf(),
        ;
        let s: i128 = self.x as i128 * o.x as i128 + self.y as i128 * o.y as i128 + self.z as i128
            * o.z as i128;
        let r = clamp_wide(div_toward_zero(s, ONE as i128));
        proof {
            lemma_clamp_in_range(tdiv(s as int, ONE as int));
        }
        r
    }

    /// Euclidean length.
    pub fn mag(self) -> (r: i64)
        requires
            self.wf(),
        ensures
            r == self.mag_spec(),
            0 <= r <= LIMIT,
    {
        assert(0 <= self.x * self.x <= 0x100000000000000000000) by (nonlinear_arith)
            requires
                self.wf(),
        ;
        assert(0 <= self.y * self.y <= 0x100000000000000000000) by (nonlinear_arith)
            requires
                self.wf(),
        ;
        assert(0 <= self.z * self.z <= 0x100000000000000000000) by (nonlinear_arith)
            requires
                self.wf(),
        ;
        let n: i128 = self.x as i128 * self.x as i128 + self.y as i128 * self.y as i128
            + self.z as i128 * self.z as i128;
        let root = isqrt(n as u128);
        clamp_wide(root as i128)
    }

    /// Euclidean distance between `self` and `o`.
    pub fn dist(self, o: Vec3) -> (r: i64)
        requires
            self.wf(),
            o.wf(),
        ensures
            r == self.dist_spec(o),
            0 <= r <= LIMIT,
    {
        o.sub(self).mag()
    }
}

/// A plane `normal · p + offset == 0`; the half-space where that sum is not
/// positive is the solid side.
#[derive(Clone, Copy, PartialEq, Eq, Structural, Debug)]
pub struct Plane {
    pub normal: Vec3,
    pub offset: i64,
}

impl Plane {
    pub open spec fn wf(self) -> bool {
        self.normal.wf() && in_range(self.offset as int)
    }

    pub open spec fn signed_distance_spec(self, p: Vec3) -> int {
        fx_add(self.normal.dot_spec(p), self.offset as int)
    }

    pub fn new(normal: Vec3, offset: i64) -> (r: Plane)
        ensures
            r == (Plane { normal, offset }),
    {
        Plane { normal, offset }
    }

    /// `normal · p + offset`: positive outside the solid side.
    pub fn signed_distance(&self, p: Vec3) -> (r: i64)
        requires
            self.wf(),
            p.wf(),
        ensures
            r == self.signed_distance_spec(p),
            in_range(r as int),
    {
        let d = self.normal.dot(p);
        proof {
            lemma_clamp_in_range(d + self.offset);
        }
        fixed::add(d, self.offset)
    }
}

} // verus!
