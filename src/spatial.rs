//! Fixed-point quaternions and affine matrices.
use vstd::prelude::*;
use crate::fixed;
use crate::fixed::{
    clamp, floor_sqrt, fx_add, fx_div, fx_mul, fx_sqrt, fx_sub, in_range, is_floor_sqrt,
    lemma_floor_sqrt_unique, tdiv, LIMIT, ONE,
};
use crate::vector::Vec3;

verus! {

/// A rotation as a quaternion, components in fixed point.
#[derive(Clone, Copy, PartialEq, Eq, Structural, Debug)]
pub struct Quat {
    pub x: i64,
    pub y: i64,
    pub z: i64,
    pub w: i64,
}

impl Quat {
    pub open spec fn wf(self) -> bool {
        in_range(self.x as int) && in_range(self.y as int) && in_range(self.z as int) && in_range(
            self.w as int,
        )
    }

    pub fn new(x: i64, y: i64, z: i64, w: i64) -> (r: Quat)
        ensures
            r == (Quat { x, y, z, w }),
    {
        Quat { x, y, z, w }
    }

    /// The rotation that changes nothing.
    pub fn id() -> (r: Quat)
        ensures
            r == (Quat { x: 0, y: 0, z: 0, w: ONE }),
            r.wf(),
    {
        Quat { x: 0, y: 0, z: 0, w: ONE }
    }
}

/// An affine transform, taking `p` to
/// `x_axis * p.x + y_axis * p.y + z_axis * p.z + translation`.
#[derive(Clone, Copy, PartialEq, Eq, Structural, Debug)]
pub struct Mat {
    pub x_axis: Vec3,
    pub y_axis: Vec3,
    pub z_axis: Vec3,
    pub translation: Vec3,
}

impl Mat {
    pub open spec fn wf(self) -> bool {
        self.x_axis.wf() && self.y_axis.wf() && self.z_axis.wf() && self.translation.wf()
    }

    pub open spec fn id_spec() -> Mat {
        Mat {
            x_axis: Vec3 { x: ONE, y: 0, z: 0 },
            y_axis: Vec3 { x: 0, y: ONE, z: 0 },
            z_axis: Vec3 { x: 0, y: 0, z: ONE },
            translation: Vec3 { x: 0, y: 0, z: 0 },
        }
    }

    pub fn id() -> (r: Mat)
        ensures
            r == Mat::id_spec(),
            r.wf(),
    {
        Mat {
            x_axis: Vec3 { x: ONE, y: 0, z: 0 },
            y_axis: Vec3 { x: 0, y: ONE, z: 0 },
            z_axis: Vec3 { x: 0, y: 0, z: ONE },
            translation: Vec3 { x: 0, y: 0, z: 0 },
        }
    }
}

pub open spec fn twice(v: int) -> int {
    clamp(2 * v)
}

fn double(v: i64) -> (r: i64)
    requires
        in_range(v as int),
    ensures
        r == twice(v as int),
        in_range(r as int),
{
    fixed::clamp_wide(2 * (v as i128))
}

impl Quat {
    /// First column of the rotation matrix of `self`.
    pub open spec fn col_x_spec(self) -> Vec3 {
        let (x, y, z, w) = (self.x as int, self.y as int, self.z as int, self.w as int);
        Vec3 {
            x: fx_sub(ONE as int, twice(fx_add(fx_mul(y, y), fx_mul(z, z)))) as i64,
            y: twice(fx_add(fx_mul(x, y), fx_mul(z, w))) as i64,
            z: twice(fx_sub(fx_mul(x, z), fx_mul(y, w))) as i64,
        }
    }

    pub open spec fn col_y_spec(self) -> Vec3 {
        let (x, y, z, w) = (self.x as int, self.y as int, self.z as int, self.w as int);
        Vec3 {
            x: twice(fx_sub(fx_mul(x, y), fx_mul(z, w))) as i64,
            y: fx_sub(ONE as int, twice(fx_add(fx_mul(x, x), fx_mul(z, z)))) as i64,
            z: twice(fx_add(fx_mul(y, z), fx_mul(x, w))) as i64,
        }
    }

    pub open spec fn col_z_spec(self) -> Vec3 {
        let (x, y, z, w) = (self.x as int, self.y as int, self.z as int, self.w as int);
        Vec3 {
            x: twice(fx_add(fx_mul(x, z), fx_mul(y, w))) as i64,
            y: twice(fx_sub(fx_mul(y, z), fx_mul(x, w))) as i64,
            z: fx_sub(ONE as int, twice(fx_add(fx_mul(x, x), fx_mul(y, y)))) as i64,
        }
    }

    fn col_x(&self) -> (r: Vec3)
        requires
            self.wf(),
        ensures
            r == self.col_x_spec(),
            r.wf(),
    {
        let (x, y, z, w) = (self.x, self.y, self.z, self.w);
        Vec3 {
            x: fixed::sub(ONE, double(fixed::add(fixed::mul(y, y), fixed::mul(z, z)))),
            y: double(fixed::add(fixed::mul(x, y), fixed::mul(z, w))),
            z: double(fixed::sub(fixed::mul(x, z), fixed::mul(y, w))),
        }
    }

    fn col_y(&self) -> (r: Vec3)
        requires
            self.wf(),
        ensures
            r == self.col_y_spec(),
            r.wf(),
    {
        let (x, y, z, w) = (self.x, self.y, self.z, self.w);
        Vec3 {
            x: double(fixed::sub(fixed::mul(x, y), fixed::mul(z, w))),
            y: fixed::sub(ONE, double(fixed::add(fixed::mul(x, x), fixed::mul(z, z)))),
            z: double(fixed::add(fixed::mul(y, z), fixed::mul(x, w))),
        }
    }

    fn col_z(&self) -> (r: Vec3)
        requires
            self.wf(),
        ensures
            r == self.col_z_spec(),
            r.wf(),
    {
        let (x, y, z, w) = (self.x, self.y, self.z, self.w);
        Vec3 {
            x: double(fixed::add(fixed::mul(x, z), fixed::mul(y, w))),
            y: double(fixed::sub(fixed::mul(y, z), fixed::mul(x, w))),
            z: fixed::sub(ONE, double(fixed::add(fixed::mul(x, x), fixed::mul(y, y)))),
        }
    }
}

/// A quaternion built from the four candidate components, or the identity
/// when the pivot `s` is not positive.
pub open spec fn pivot_quat(s: int, x: int, y: int, z: int, w: int) -> Quat {
    if s <= 0 {
        Quat { x: 0, y: 0, z: 0, w: ONE }
    } else {
        Quat {
            x: fx_div(x, s) as i64,
            y: fx_div(y, s) as i64,
            z: fx_div(z, s) as i64,
            w: fx_div(w, s) as i64,
        }
    }
}

impl Mat {
    /// The linear part applied to `v`.
    pub open spec fn linear_spec(self, v: Vec3) -> Vec3 {
        self.x_axis.scale_spec(v.x).add_spec(self.y_axis.scale_spec(v.y)).add_spec(
            self.z_axis.scale_spec(v.z),
        )
    }

    pub open spec fn apply_spec(self, p: Vec3) -> Vec3 {
        self.linear_spec(p).add_spec(self.translation)
    }

    /// `self * o`: first `o`, then `self`.
    pub open spec fn mul_spec(self, o: Mat) -> Mat {
        Mat {
            x_axis: self.linear_spec(o.x_axis),
            y_axis: self.linear_spec(o.y_axis),
            z_axis: self.linear_spec(o.z_axis),
            translation: self.apply_spec(o.translation),
        }
    }

    /// Scale, then rotate, then translate.
    pub open spec fn transform_spec(position: Vec3, orientation: Quat, scale: Vec3) -> Mat {
        Mat {
            x_axis: orientation.col_x_spec().scale_spec(scale.x),
            y_axis: orientation.col_y_spec().scale_spec(scale.y),
            z_axis: orientation.col_z_spec().scale_spec(scale.z),
            translation: position,
        }
    }

    /// The length of each basis vector.
    pub open spec fn to_scale_spec(self) -> Vec3 {
        Vec3 {
            x: self.x_axis.mag_spec() as i64,
            y: self.y_axis.mag_spec() as i64,
            z: self.z_axis.mag_spec() as i64,
        }
    }

    /// The linear part with each basis vector divided by its scale.
    pub open spec fn to_rotation_raw_spec(self, scale: Vec3) -> Mat {
        Mat {
            x_axis: descale_spec(self.x_axis, scale.x),
            y_axis: descale_spec(self.y_axis, scale.y),
            z_axis: descale_spec(self.z_axis, scale.z),
            translation: Vec3 { x: 0, y: 0, z: 0 },
        }
    }

    /// The quaternion of a rotation matrix, pivoting on the largest of the
    /// trace and the diagonal entries.
    pub open spec fn to_quat_spec(self) -> Quat {
        let m00 = self.x_axis.x as int;
        let m11 = self.y_axis.y as int;
        let m22 = self.z_axis.z as int;
        let m10 = self.x_axis.y as int;
        let m20 = self.x_axis.z as int;
        let m01 = self.y_axis.x as int;
        let m21 = self.y_axis.z as int;
        let m02 = self.z_axis.x as int;
        let m12 = self.z_axis.y as int;
        let trace = fx_add(fx_add(m00, m11), m22);
        if trace > 0 {
            let s = twice(fx_sqrt(fx_add(ONE as int, trace)));
            let q = pivot_quat(s, fx_sub(m21, m12), fx_sub(m02, m20), fx_sub(m10, m01), 0);
            if s <= 0 { q } else { Quat { w: tdiv(s, 4) as i64, ..q } }
        } else if m00 > m11 && m00 > m22 {
            let s = twice(fx_sqrt(fx_sub(fx_sub(fx_add(ONE as int, m00), m11), m22)));
            let q = pivot_quat(s, 0, fx_add(m01, m10), fx_add(m02, m20), fx_sub(m21, m12));
            if s <= 0 { q } else { Quat { x: tdiv(s, 4) as i64, ..q } }
        } else if m11 > m22 {
            let s = twice(fx_sqrt(fx_sub(fx_sub(fx_add(ONE as int, m11), m00), m22)));
            let q = pivot_quat(s, fx_add(m01, m10), 0, fx_add(m12, m21), fx_sub(m02, m20));
            if s <= 0 { q } else { Quat { y: tdiv(s, 4) as i64, ..q } }
        } else {
            let s = twice(fx_sqrt(fx_sub(fx_sub(fx_add(ONE as int, m22), m00), m11)));
            let q = pivot_quat(s, fx_add(m02, m20), fx_add(m12, m21), 0, fx_sub(m10, m01));
            if s <= 0 { q } else { Quat { z: tdiv(s, 4) as i64, ..q } }
        }
    }

    pub fn linear(&self, v: Vec3) -> (r: Vec3)
        requires
            self.wf(),
            v.wf(),
        ensures
            r == self.linear_spec(v),
            r.wf(),
    {
        self.x_axis.scale(v.x).add(self.y_axis.scale(v.y)).add(self.z_axis.scale(v.z))
    }

    /// The image of the point `p`.
    pub fn apply(&self, p: Vec3) -> (r: Vec3)
        requires
            self.wf(),
            p.wf(),
        ensures
            r == self.apply_spec(p),
            r.wf(),
    {
        self.linear(p).add(self.translation)
    }

    pub fn mul(&self, o: &Mat) -> (r: Mat)
        requires
            self.wf(),
            o.wf(),
        ensures
            r == self.mul_spec(*o),
            r.wf(),
    {
        Mat {
            x_axis: self.linear(o.x_axis),
            y_axis: self.linear(o.y_axis),
            z_axis: self.linear(o.z_axis),
            translation: self.apply(o.translation),
        }
    }

    pub fn transform(position: Vec3, orientation: Quat, scale: Vec3) -> (r: Mat)
        requires
            position.wf(),
            orientation.wf(),
            scale.wf(),
        ensures
            r == Mat::transform_spec(position, orientation, scale),
            r.wf(),
    {
        Mat {
            x_axis: orientation.col_x().scale(scale.x),
            y_axis: orientation.col_y().scale(scale.y),
            z_axis: orientation.col_z().scale(scale.z),
            translation: position,
        }
    }

    pub fn to_scale(&self) -> (r: Vec3)
        requires
            self.wf(),
        ensures
            r == self.to_scale_spec(),
            r.wf(),
    {
        Vec3 { x: self.x_axis.mag(), y: self.y_axis.mag(), z: self.z_axis.mag() }
    }

    pub fn to_rotation_raw(&self, scale: Vec3) -> (r: Mat)
        requires
            self.wf(),
            scale.wf(),
        ensures
            r == self.to_rotation_raw_spec(scale),
            r.wf(),
    {
        Mat {
            x_axis: descale(self.x_axis, scale.x),
            y_axis: descale(self.y_axis, scale.y),
            z_axis: descale(self.z_axis, scale.z),
            translation: Vec3::zero(),
        }
    }

    pub fn to_quat(&self) -> (r: Quat)
        requires
            self.wf(),
        ensures
            r == self.to_quat_spec(),
            r.wf(),
    {
        let m00 = self.x_axis.x;
        let m11 = self.y_axis.y;
        let m22 = self.z_axis.z;
        let m10 = self.x_axis.y;
        let m20 = self.x_axis.z;
        let m01 = self.y_axis.x;
        let m21 = self.y_axis.z;
        let m02 = self.z_axis.x;
        let m12 = self.z_axis.y;
        let trace = fixed::add(fixed::add(m00, m11), m22);
        if trace > 0 {
            let s = double(fixed::sqrt(fixed::add(ONE, trace)));
            let q = pivot(s, fixed::sub(m21, m12), fixed::sub(m02, m20), fixed::sub(m10, m01), 0);
            if s <= 0 { q } else { Quat { w: s / 4, ..q } }
        } else if m00 > m11 && m00 > m22 {
            let s = double(fixed::sqrt(fixed::sub(fixed::sub(fixed::add(ONE, m00), m11), m22)));
            let q = pivot(s, 0, fixed::add(m01, m10), fixed::add(m02, m20), fixed::sub(m21, m12));
            if s <= 0 { q } else { Quat { x: s / 4, ..q } }
        } else if m11 > m22 {
            let s = double(fixed::sqrt(fixed::sub(fixed::sub(fixed::add(ONE, m11), m00), m22)));
            let q = pivot(s, fixed::add(m01, m10), 0, fixed::add(m12, m21), fixed::sub(m02, m20));
            if s <= 0 { q } else { Quat { y: s / 4, ..q } }
        } else {
            let s = double(fixed::sqrt(fixed::sub(fixed::sub(fixed::add(ONE, m22), m00), m11)));
            let q = pivot(s, fixed::add(m02, m20), fixed::add(m12, m21), 0, fixed::sub(m10, m01));
            if s <= 0 { q } else { Quat { z: s / 4, ..q } }
        }
    }
}

pub open spec fn descale_spec(c: Vec3, k: i64) -> Vec3 {
    if k > 0 {
        c.div_spec(k)
    } else {
        c
    }
}

fn descale(c: Vec3, k: i64) -> (r: Vec3)
    requires
        c.wf(),
        in_range(k as int),
    ensures
        r == descale_spec(c, k),
        r.wf(),
{
    if k > 0 {
        c.div(k)
    } else {
        c
    }
}

fn pivot(s: i64, x: i64, y: i64, z: i64, w: i64) -> (r: Quat)
    requires
        in_range(s as int),
        in_range(x as int),
        in_range(y as int),
        in_range(z as int),
        in_range(w as int),
    ensures
        r == pivot_quat(s as int, x as int, y as int, z as int, w as int),
        r.wf(),
{
    if s <= 0 {
        Quat::id()
    } else {
        Quat { x: fixed::div(x, s), y: fixed::div(y, s), z: fixed::div(z, s), w: fixed::div(w, s) }
    }
}

proof fn lemma_sqrt_of_square(r: int)
    requires
        0 <= r,
    ensures
        floor_sqrt(r * r) == r,
{
    assert(is_floor_sqrt(r * r, r)) by (nonlinear_arith)
        requires
            r >= 0,
    ;
    lemma_floor_sqrt_unique(r * r, r, floor_sqrt(r * r));
}

proof fn lemma_unit_scale_mul(s: int)
    requires
        0 < s <= LIMIT,
    ensures
        fx_mul(ONE as int, s) == s,
        fx_mul(0, s) == 0,
        fx_mul(s, 0) == 0,
        fx_div(s, s) == ONE,
{
    assert((ONE * s) / (ONE as int) == s) by (nonlinear_arith)
        requires
            s > 0,
    ;
    assert((s * ONE) / s == ONE as int) by (nonlinear_arith)
        requires
            s > 0,
    ;
}

/// Decomposing the matrix of a position, the identity orientation and a
/// positive scale gives back that scale, the identity orientation and that
/// position, exactly.
pub proof fn lemma_axis_aligned_round_trip(position: Vec3, scale: Vec3)
    requires
        position.wf(),
        0 < scale.x <= LIMIT,
        0 < scale.y <= LIMIT,
        0 < scale.z <= LIMIT,
    ensures
        ({
            let id = Quat { x: 0, y: 0, z: 0, w: ONE };
            let m = Mat::transform_spec(position, id, scale);
            &&& m.to_scale_spec() == scale
            &&& m.to_rotation_raw_spec(scale).to_quat_spec() == id
            &&& m.apply_spec(Vec3 { x: 0, y: 0, z: 0 }) == position
        }),
{
    let id = Quat { x: 0, y: 0, z: 0, w: ONE };
    assert(fx_mul(0, 0) == 0);
    assert(fx_mul(0, ONE as int) == 0);
    assert(fx_mul(ONE as int, 0) == 0);
    assert(id.col_x_spec() == (Vec3 { x: ONE, y: 0, z: 0 }));
    assert(id.col_y_spec() == (Vec3 { x: 0, y: ONE, z: 0 }));
    assert(id.col_z_spec() == (Vec3 { x: 0, y: 0, z: ONE }));
    lemma_unit_scale_mul(scale.x as int);
    lemma_unit_scale_mul(scale.y as int);
    lemma_unit_scale_mul(scale.z as int);
    lemma_sqrt_of_square(scale.x as int);
    lemma_sqrt_of_square(scale.y as int);
    lemma_sqrt_of_square(scale.z as int);
    let m = Mat::transform_spec(position, id, scale);
    assert(m.x_axis == (Vec3 { x: scale.x, y: 0, z: 0 }));
    assert(m.y_axis == (Vec3 { x: 0, y: scale.y, z: 0 }));
    assert(m.z_axis == (Vec3 { x: 0, y: 0, z: scale.z }));
    assert(m.to_scale_spec() == scale);
    let r = m.to_rotation_raw_spec(scale);
    assert(fx_div(0, scale.x as int) == 0);
    assert(fx_div(0, scale.y as int) == 0);
    assert(fx_div(0, scale.z as int) == 0);
    assert(r.x_axis == (Vec3 { x: ONE, y: 0, z: 0 }));
    assert(r.y_axis == (Vec3 { x: 0, y: ONE, z: 0 }));
    assert(r.z_axis == (Vec3 { x: 0, y: 0, z: ONE }));
    let four: int = 4 * ONE;
    assert(fx_add(fx_add(ONE as int, ONE as int), ONE as int) == 3 * ONE);
    assert(fx_add(ONE as int, 3 * ONE) == four);
    lemma_sqrt_of_square(2 * ONE);
    assert(four * ONE == (2 * ONE) * (2 * ONE));
    assert(fx_sqrt(four) == 2 * ONE);
    assert(twice(2 * ONE) == four);
    assert(fx_div(0, four) == 0);
    assert(tdiv(four, 4) == ONE);
    let zero = Vec3 { x: 0, y: 0, z: 0 };
    assert(m.linear_spec(zero) == zero);
}

} // verus!
