//! Mass-spring softbody engine: Verlet-integrated particles held together by
//! rods whose rest length may shrink under strain, pushed out of global
//! collision planes, with each body's centroid fed back into the transform
//! store.
use vstd::prelude::*;
use crate::entity::Handle;
use crate::fixed;
use crate::fixed::{clamp, clamp_wide, floor_sqrt, fx_div, fx_mul, fx_sub, in_range, lemma_clamp_in_range, tdiv, LIMIT, ONE};
use crate::transform;
use crate::vector::{Plane, Vec3};

verus! {

/// Upper bound on the particles of one instance, and the length of the
/// offsets handed to the renderer.
pub const MAX_VERTICES: usize = 32;

/// A point mass; its velocity is implicit in `position - last`.
#[derive(Clone, Copy, PartialEq, Eq, Structural, Debug)]
pub struct Particle {
    pub position: Vec3,
    pub last: Vec3,
}

impl Particle {
    pub open spec fn wf(self) -> bool {
        self.position.wf() && self.last.wf()
    }

    /// A particle at rest at `position`.
    pub fn new(position: Vec3) -> (r: Particle)
        ensures
            r == (Particle { position, last: position }),
    {
        Particle { position, last: position }
    }
}

/// A distance constraint between two particles, with its rest length.
#[derive(Clone, Copy, PartialEq, Eq, Structural, Debug)]
pub struct Rod {
    pub left: usize,
    pub right: usize,
    pub length: i64,
}

/// Tuning of the solver, all ratios in fixed point.
#[derive(Clone, Copy, PartialEq, Eq, Structural, Debug)]
pub struct Config {
    /// Rod stiffness: the fraction of a rod's error corrected per pass, from
    /// 0 (rods have no effect) to one half (rigid).
    pub push: i64,
    /// Plane restitution: 2 bounces elastically, less repels softly.
    pub bounce: i64,
    /// Plastic retention, from 0 (rods collapse) to 1 (fully elastic).
    pub deform: i64,
    /// Constraint relaxation passes per step.
    pub iterations: usize,
    /// The fixed timestep.
    pub dt: i64,
}

impl Config {
    pub open spec fn wf(self) -> bool {
        &&& 0 <= self.push <= ONE / 2
        &&& 0 <= self.bounce <= LIMIT
        &&& 0 <= self.deform <= ONE
        &&& in_range(self.dt as int)
    }

    /// Slightly springy rods, soft planes, no plastic deformation, one pass
    /// per step of a sixtieth of a second.
    pub open spec fn standard_spec() -> Config {
        Config { push: 1966, bounce: 3277, deform: ONE, iterations: 1, dt: 1092 }
    }

    pub fn standard() -> (r: Config)
        ensures
            r.wf(),
            r == Config::standard_spec(),
    {
        Config { push: 1966, bounce: 3277, deform: ONE, iterations: 1, dt: 1092 }
    }
}

pub open spec fn particles_wf(ps: Seq<Particle>) -> bool {
    forall|i: int| 0 <= i < ps.len() ==> (#[trigger] ps[i]).wf()
}

pub open spec fn rods_wf(rods: Seq<Rod>, n: int) -> bool {
    forall|j: int|
        0 <= j < rods.len() ==> {
            let r = #[trigger] rods[j];
            r.left < n && r.right < n && 0 <= r.length <= LIMIT
        }
}

pub open spec fn verlet_coord(p: i64, last: i64, a: i64) -> i64 {
    clamp(2 * p - last + a) as i64
}

/// One position-Verlet step: `2 * position - last + acceleration term`.
pub open spec fn integrate_spec(p: Particle, accel: Vec3) -> Particle {
    Particle {
        position: Vec3 {
            x: verlet_coord(p.position.x, p.last.x, accel.x),
            y: verlet_coord(p.position.y, p.last.y, accel.y),
            z: verlet_coord(p.position.z, p.last.z, accel.z),
        },
        last: p.position,
    }
}

pub open spec fn integrate_all(ps: Seq<Particle>, accel: Vec3) -> Seq<Particle> {
    ps.map_values(|p: Particle| integrate_spec(p, accel))
}

/// Moves both ends of `rod` toward its rest length by the fraction `push`
/// of the error; a rod whose ends coincide has no direction and is skipped.
pub open spec fn rod_push_spec(ps: Seq<Particle>, rod: Rod, push: i64) -> Seq<Particle> {
    let left = ps[rod.left as int].position;
    let right = ps[rod.right as int].position;
    let difference = right.sub_spec(left);
    let distance = difference.mag_spec();
    if distance == 0 {
        ps
    } else {
        let percent = fx_mul(push as int, fx_sub(fx_div(rod.length as int, distance), ONE as int));
        let offset = difference.scale_spec(percent as i64);
        let ps1 = ps.update(
            rod.left as int,
            Particle { position: left.sub_spec(offset), last: ps[rod.left as int].last },
        );
        ps1.update(
            rod.right as int,
            Particle { position: right.add_spec(offset), last: ps1[rod.right as int].last },
        )
    }
}

/// The first `k` rods applied in order, each seeing the positions left by
/// the ones before it.
pub open spec fn relax_rods_spec(ps: Seq<Particle>, rods: Seq<Rod>, push: i64, k: int) -> Seq<
    Particle,
>
    decreases k,
{
    if k <= 0 {
        ps
    } else {
        rod_push_spec(relax_rods_spec(ps, rods, push, k - 1), rods[k - 1], push)
    }
}

fn verlet(p: i64, last: i64, a: i64) -> (r: i64)
    requires
        in_range(p as int),
        in_range(last as int),
        in_range(a as int),
    ensures
        r == verlet_coord(p, last, a),
        in_range(r as int),
{
    proof {
        lemma_clamp_in_range(2 * p - last + a);
    }
    clamp_wide(2 * (p as i128) - last as i128 + a as i128)
}

fn integrate(ps: &mut Vec<Particle>, accel: Vec3)
    requires
        particles_wf(old(ps)@),
        accel.wf(),
    ensures
        final(ps)@ == integrate_all(old(ps)@, accel),
        particles_wf(final(ps)@),
{
    let n = ps.len();
    let mut k: usize = 0;
    while k < n
        invariant
            n == ps@.len(),
            n == old(ps)@.len(),
            0 <= k <= n,
            accel.wf(),
            particles_wf(old(ps)@),
            forall|i: int| 0 <= i < k ==> #[trigger] ps@[i] == integrate_spec(old(ps)@[i], accel),
            forall|i: int| k <= i < n ==> #[trigger] ps@[i] == old(ps)@[i],
            particles_wf(ps@),
        decreases n - k,
    {
        let p = ps[k];
        let position = Vec3 {
            x: verlet(p.position.x, p.last.x, accel.x),
            y: verlet(p.position.y, p.last.y, accel.y),
            z: verlet(p.position.z, p.last.z, accel.z),
        };
        ps.set(k, Particle { position, last: p.position });
        k = k + 1;
    }
    assert(ps@ =~= integrate_all(old(ps)@, accel));
}

fn push_rod(ps: &mut Vec<Particle>, rod: Rod, push: i64)
    requires
        particles_wf(old(ps)@),
        rod.left < old(ps)@.len(),
        rod.right < old(ps)@.len(),
        0 <= rod.length <= LIMIT,
        0 <= push <= ONE / 2,
    ensures
        final(ps)@ == rod_push_spec(old(ps)@, rod, push),
        particles_wf(final(ps)@),
{
    let left = ps[rod.left].position;
    let right = ps[rod.right].position;
    let difference = right.sub(left);
    let distance = difference.mag();
    if distance == 0 {
        return;
    }
    let ratio = fixed::div(rod.length, distance);
    proof {
        lemma_clamp_in_range(ratio - ONE);
    }
    let error = fixed::sub(ratio, ONE);
    let percent = fixed::mul(push, error);
    proof {
        lemma_clamp_in_range(tdiv(push * error, ONE as int));
    }
    let offset = difference.scale(percent);
    let lp = ps[rod.left];
    ps.set(rod.left, Particle { position: left.sub(offset), last: lp.last });
    let rp = ps[rod.right];
    ps.set(rod.right, Particle { position: right.add(offset), last: rp.last });
}

fn relax_rods(ps: &mut Vec<Particle>, rods: &Vec<Rod>, push: i64)
    requires
        particles_wf(old(ps)@),
        rods_wf(rods@, old(ps)@.len() as int),
        0 <= push <= ONE / 2,
    ensures
        final(ps)@ == relax_rods_spec(old(ps)@, rods@, push, rods@.len() as int),
        particles_wf(final(ps)@),
        final(ps)@.len() == old(ps)@.len(),
{
    let mut j: usize = 0;
    while j < rods.len()
        invariant
            0 <= j <= rods@.len(),
            ps@.len() == old(ps)@.len(),
            particles_wf(ps@),
            rods_wf(rods@, old(ps)@.len() as int),
            0 <= push <= ONE / 2,
            ps@ == relax_rods_spec(old(ps)@, rods@, push, j as int),
        decreases rods@.len() - j,
    {
        let rod = rods[j];
        push_rod(ps, rod, push);
        j = j + 1;
    }
}

/// A particle on the solid side of `plane` (`normal · p + offset <= 0`) is
/// pushed along the normal by `bounce` times its depth; one outside is left
/// as it is.
pub open spec fn plane_spec(p: Particle, plane: Plane, bounce: i64) -> Particle {
    let distance = plane.signed_distance_spec(p.position);
    if distance > 0 {
        p
    } else {
        Particle {
            position: p.position.sub_spec(plane.normal.scale_spec(bounce).scale_spec(distance as i64)),
            last: p.last,
        }
    }
}

/// The first `k` planes applied in order to every particle.
pub open spec fn planes_spec(ps: Seq<Particle>, planes: Seq<Plane>, bounce: i64, k: int) -> Seq<
    Particle,
>
    decreases k,
{
    if k <= 0 {
        ps
    } else {
        planes_spec(ps, planes, bounce, k - 1).map_values(
            |p: Particle| plane_spec(p, planes[k - 1], bounce),
        )
    }
}

/// The rest length after plastic deformation: it moves toward the smaller of
/// the current distance and `length * deform`, and never grows.
pub open spec fn deformed_length(length: i64, distance: int, deform: i64) -> i64 {
    let shrunk = fx_mul(length as int, deform as int);
    let target = if distance > shrunk {
        distance
    } else {
        shrunk
    };
    if target < length {
        target as i64
    } else {
        length
    }
}

pub open spec fn deform_rod_spec(rod: Rod, ps: Seq<Particle>, deform: i64) -> Rod {
    let distance = ps[rod.left as int].position.dist_spec(ps[rod.right as int].position);
    Rod { left: rod.left, right: rod.right, length: deformed_length(rod.length, distance, deform) }
}

pub open spec fn deform_spec(rods: Seq<Rod>, ps: Seq<Particle>, deform: i64) -> Seq<Rod> {
    rods.map_values(|r: Rod| deform_rod_spec(r, ps, deform))
}

/// One relaxation pass: rods, then planes, then deformation.
pub open spec fn pass_spec(ps: Seq<Particle>, rods: Seq<Rod>, planes: Seq<Plane>, cfg: Config) -> (
    Seq<Particle>,
    Seq<Rod>,
) {
    let ps1 = relax_rods_spec(ps, rods, cfg.push, rods.len() as int);
    let ps2 = planes_spec(ps1, planes, cfg.bounce, planes.len() as int);
    (ps2, deform_spec(rods, ps2, cfg.deform))
}

pub open spec fn passes_spec(
    ps: Seq<Particle>,
    rods: Seq<Rod>,
    planes: Seq<Plane>,
    cfg: Config,
    k: int,
) -> (Seq<Particle>, Seq<Rod>)
    decreases k,
{
    if k <= 0 {
        (ps, rods)
    } else {
        let prev = passes_spec(ps, rods, planes, cfg, k - 1);
        pass_spec(prev.0, prev.1, planes, cfg)
    }
}

pub open spec fn sum_x(ps: Seq<Particle>, k: int) -> int
    decreases k,
{
    if k <= 0 {
        0
    } else {
        sum_x(ps, k - 1) + ps[k - 1].position.x
    }
}

pub open spec fn sum_y(ps: Seq<Particle>, k: int) -> int
    decreases k,
{
    if k <= 0 {
        0
    } else {
        sum_y(ps, k - 1) + ps[k - 1].position.y
    }
}

pub open spec fn sum_z(ps: Seq<Particle>, k: int) -> int
    decreases k,
{
    if k <= 0 {
        0
    } else {
        sum_z(ps, k - 1) + ps[k - 1].position.z
    }
}

/// The mean of the particle positions (the origin when there are none).
pub open spec fn centroid_spec(ps: Seq<Particle>) -> Vec3 {
    let n = ps.len() as int;
    if n == 0 {
        Vec3 { x: 0, y: 0, z: 0 }
    } else {
        Vec3 {
            x: clamp(tdiv(sum_x(ps, n), n)) as i64,
            y: clamp(tdiv(sum_y(ps, n), n)) as i64,
            z: clamp(tdiv(sum_z(ps, n), n)) as i64,
        }
    }
}

fn resolve_plane(p: Particle, plane: Plane, bounce: i64) -> (r: Particle)
    requires
        p.wf(),
        plane.wf(),
        0 <= bounce <= LIMIT,
    ensures
        r == plane_spec(p, plane, bounce),
        r.wf(),
{
    let distance = plane.signed_distance(p.position);
    if distance > 0 {
        p
    } else {
        let push = plane.normal.scale(bounce).scale(distance);
        Particle { position: p.position.sub(push), last: p.last }
    }
}

fn apply_planes(ps: &mut Vec<Particle>, planes: &Vec<Plane>, bounce: i64)
    requires
        particles_wf(old(ps)@),
        forall|i: int| 0 <= i < planes@.len() ==> (#[trigger] planes@[i]).wf(),
        0 <= bounce <= LIMIT,
    ensures
        final(ps)@ == planes_spec(old(ps)@, planes@, bounce, planes@.len() as int),
        particles_wf(final(ps)@),
        final(ps)@.len() == old(ps)@.len(),
{
    let n = ps.len();
    let mut j: usize = 0;
    while j < planes.len()
        invariant
            0 <= j <= planes@.len(),
            n == ps@.len(),
            n == old(ps)@.len(),
            particles_wf(ps@),
            forall|i: int| 0 <= i < planes@.len() ==> (#[trigger] planes@[i]).wf(),
            0 <= bounce <= LIMIT,
            ps@ == planes_spec(old(ps)@, planes@, bounce, j as int),
        decreases planes@.len() - j,
    {
        let plane = planes[j];
        let ghost before = ps@;
        let mut k: usize = 0;
        while k < n
            invariant
                0 <= k <= n,
                n == ps@.len(),
                n == before.len(),
                j < planes@.len(),
                plane == planes@[j as int],
                plane.wf(),
                particles_wf(before),
                particles_wf(ps@),
                0 <= bounce <= LIMIT,
                forall|i: int| 0 <= i < k ==> #[trigger] ps@[i] == plane_spec(before[i], plane, bounce),
                forall|i: int| k <= i < n ==> #[trigger] ps@[i] == before[i],
            decreases n - k,
        {
            let p = ps[k];
            ps.set(k, resolve_plane(p, plane, bounce));
            k = k + 1;
        }
        assert(ps@ =~= planes_spec(old(ps)@, planes@, bounce, j + 1));
        j = j + 1;
    }
}

fn deform_rods(rods: &mut Vec<Rod>, ps: &Vec<Particle>, deform: i64)
    requires
        particles_wf(ps@),
        rods_wf(old(rods)@, ps@.len() as int),
        0 <= deform <= ONE,
    ensures
        final(rods)@ == deform_spec(old(rods)@, ps@, deform),
        rods_wf(final(rods)@, ps@.len() as int),
{
    let n = rods.len();
    let mut j: usize = 0;
    while j < n
        invariant
            0 <= j <= n,
            n == rods@.len(),
            n == old(rods)@.len(),
            particles_wf(ps@),
            rods_wf(old(rods)@, ps@.len() as int),
            rods_wf(rods@, ps@.len() as int),
            0 <= deform <= ONE,
            forall|i: int|
                0 <= i < j ==> #[trigger] rods@[i] == deform_rod_spec(old(rods)@[i], ps@, deform),
            forall|i: int| j <= i < n ==> #[trigger] rods@[i] == old(rods)@[i],
        decreases n - j,
    {
        let r = rods[j];
        let distance = ps[r.left].position.dist(ps[r.right].position);
        let shrunk = fixed::mul(r.length, deform);
        assert(r.length * deform >= 0) by (nonlinear_arith)
            requires
                r.length >= 0,
                deform >= 0,
        ;
        let target = if distance > shrunk {
            distance
        } else {
            shrunk
        };
        let length = if target < r.length {
            target
        } else {
            r.length
        };
        rods.set(j, Rod { left: r.left, right: r.right, length });
        j = j + 1;
    }
    assert(rods@ =~= deform_spec(old(rods)@, ps@, deform));
}

fn centroid(ps: &Vec<Particle>) -> (r: Vec3)
    requires
        particles_wf(ps@),
        ps@.len() <= MAX_VERTICES,
    ensures
        r == centroid_spec(ps@),
        r.wf(),
{
    let n = ps.len();
    if n == 0 {
        return Vec3::zero();
    }
    let mut sx: i128 = 0;
    let mut sy: i128 = 0;
    let mut sz: i128 = 0;
    let mut k: usize = 0;
    while k < n
        invariant
            0 <= k <= n,
            n == ps@.len(),
            n <= MAX_VERTICES,
            particles_wf(ps@),
            sx == sum_x(ps@, k as int),
            sy == sum_y(ps@, k as int),
            sz == sum_z(ps@, k as int),
            -k * LIMIT <= sx <= k * LIMIT,
            -k * LIMIT <= sy <= k * LIMIT,
            -k * LIMIT <= sz <= k * LIMIT,
        decreases n - k,
    {
        let p = ps[k].position;
        sx = sx + p.x as i128;
        sy = sy + p.y as i128;
        sz = sz + p.z as i128;
        k = k + 1;
    }
    let r = Vec3 {
        x: clamp_wide(fixed::div_toward_zero(sx, n as i128)),
        y: clamp_wide(fixed::div_toward_zero(sy, n as i128)),
        z: clamp_wide(fixed::div_toward_zero(sz, n as i128)),
    };
    proof {
        lemma_clamp_in_range(tdiv(sx as int, n as int));
        lemma_clamp_in_range(tdiv(sy as int, n as int));
        lemma_clamp_in_range(tdiv(sz as int, n as int));
    }
    r
}

/// How far a rod is from its rest length, relative to a tenth of that rest
/// length.
pub open spec fn strain_spec(rest: i64, distance: int) -> int {
    let tenth = rest / 10;
    let diff = fx_sub(rest as int, distance);
    let magnitude = if diff < 0 {
        -diff
    } else {
        diff
    };
    if tenth > 0 {
        fx_div(magnitude, tenth as int)
    } else {
        0
    }
}

fn strain(rest: i64, distance: i64) -> (r: i64)
    requires
        0 <= rest <= LIMIT,
        0 <= distance <= LIMIT,
    ensures
        r == strain_spec(rest, distance as int),
{
    let tenth = rest / 10;
    if tenth > 0 {
        let diff = fixed::sub(rest, distance);
        let magnitude = if diff < 0 {
            -diff
        } else {
            diff
        };
        fixed::div(magnitude, tenth)
    } else {
        0
    }
}

/// The cached per-step acceleration term `(force / mass + gravity) * dt²`.
pub open spec fn accel_spec(force: Vec3, mass: i64, gravity: Vec3, dt: i64) -> Vec3 {
    force.div_spec(mass).add_spec(gravity).scale_spec(dt).scale_spec(dt)
}

fn accel_term(force: Vec3, mass: i64, gravity: Vec3, dt: i64) -> (r: Vec3)
    requires
        force.wf(),
        gravity.wf(),
        0 < mass <= LIMIT,
        in_range(dt as int),
    ensures
        r == accel_spec(force, mass, gravity, dt),
        r.wf(),
{
    force.div(mass).add(gravity).scale(dt).scale(dt)
}

impl Rod {
    /// A rod between two particles whose rest length is their current
    /// distance.
    pub fn new(left: usize, right: usize, particles: &[Particle]) -> (r: Rod)
        requires
            left < particles@.len(),
            right < particles@.len(),
            particles_wf(particles@),
        ensures
            r.left == left,
            r.right == right,
            r.length == particles@[left as int].position.dist_spec(
                particles@[right as int].position,
            ),
            0 <= r.length <= LIMIT,
    {
        let length = particles[left].position.dist(particles[right].position);
        Rod { left, right, length }
    }
}

/// Particles at rest at `points`.
pub open spec fn rest_particles(points: Seq<Vec3>) -> Seq<Particle> {
    points.map_values(|p: Vec3| Particle { position: p, last: p })
}

/// The centroid of `points`.
pub open spec fn rest_center(points: Seq<Vec3>) -> Vec3 {
    centroid_spec(rest_particles(points))
}

/// One deformable body.
pub struct Instance {
    pub particles: Vec<Particle>,
    pub rods: Vec<Rod>,
    pub mass: i64,
    pub force: Vec3,
    pub accel_dt: Vec3,
    pub center: Vec3,
    /// Rest-pose offset of each particle from the centroid the body was
    /// built with.
    pub model: Vec<Vec3>,
}

/// The state of an instance after one simulation step from `before`.
pub open spec fn stepped(before: Instance, after: Instance, planes: Seq<Plane>, cfg: Config) -> bool {
    let moved = integrate_all(before.particles@, before.accel_dt);
    let relaxed = passes_spec(moved, before.rods@, planes, cfg, cfg.iterations as int);
    &&& after.particles@ == relaxed.0
    &&& after.rods@ == relaxed.1
    &&& after.center == centroid_spec(relaxed.0)
    &&& after.mass == before.mass
    &&& after.force == before.force
    &&& after.accel_dt == before.accel_dt
    &&& after.model@ == before.model@
}

pub open spec fn planes_wf(planes: Seq<Plane>) -> bool {
    forall|i: int| 0 <= i < planes.len() ==> (#[trigger] planes[i]).wf()
}

impl Instance {
    pub open spec fn wf(&self) -> bool {
        &&& particles_wf(self.particles@)
        &&& rods_wf(self.rods@, self.particles@.len() as int)
        &&& self.particles@.len() <= MAX_VERTICES
        &&& self.model@.len() == self.particles@.len()
        &&& forall|i: int| 0 <= i < self.model@.len() ==> (#[trigger] self.model@[i]).wf()
        &&& 0 < self.mass <= LIMIT
        &&& self.force.wf()
        &&& self.accel_dt.wf()
        &&& self.center.wf()
    }

    /// Displacement of particle `i` from its rest pose, relative to the center.
    pub open spec fn offset_spec(&self, i: int) -> Vec3 {
        self.particles@[i].position.sub_spec(self.center).sub_spec(self.model@[i])
    }

    /// Particles at rest at `points`, one rod per binding with the initial
    /// distance as rest length, and the offsets of `points` from their
    /// centroid kept as the rest pose. The center starts at that centroid, so
    /// every offset from the rest pose starts at zero.
    pub fn new(
        mass: i64,
        points: &[Vec3],
        bindings: &[(usize, usize)],
        gravity: Vec3,
        dt: i64,
    ) -> (r: Instance)
        requires
            0 < mass <= LIMIT,
            points@.len() <= MAX_VERTICES,
            forall|i: int| 0 <= i < points@.len() ==> (#[trigger] points@[i]).wf(),
            forall|j: int|
                0 <= j < bindings@.len() ==> (#[trigger] bindings@[j]).0 < points@.len()
                    && bindings@[j].1 < points@.len(),
            gravity.wf(),
            in_range(dt as int),
        ensures
            r.wf(),
            r.particles@.len() == points@.len(),
            forall|i: int|
                0 <= i < points@.len() ==> #[trigger] r.particles@[i] == (Particle {
                    position: points@[i],
                    last: points@[i],
                }),
            r.particles@ == rest_particles(points@),
            r.model@.len() == points@.len(),
            forall|i: int|
                0 <= i < points@.len() ==> #[trigger] r.model@[i] == points@[i].sub_spec(
                    rest_center(points@),
                ),
            forall|i: int|
                0 <= i < points@.len() ==> #[trigger] r.offset_spec(i) == (Vec3 {
                    x: 0,
                    y: 0,
                    z: 0,
                }),
            r.rods@.len() == bindings@.len(),
            forall|j: int|
                0 <= j < bindings@.len() ==> #[trigger] r.rods@[j] == (Rod {
                    left: bindings@[j].0,
                    right: bindings@[j].1,
                    length: points@[bindings@[j].0 as int].dist_spec(points@[bindings@[j].1 as int])
                        as i64,
                }),
            r.mass == mass,
            r.force == (Vec3 { x: 0, y: 0, z: 0 }),
            r.accel_dt == accel_spec(Vec3 { x: 0, y: 0, z: 0 }, mass, gravity, dt),
            r.center == rest_center(points@),
    {
        let mut particles: Vec<Particle> = Vec::with_capacity(points.len());
        let mut i: usize = 0;
        while i < points.len()
            invariant
                0 <= i <= points@.len(),
                particles@.len() == i,
                forall|k: int| 0 <= k < points@.len() ==> (#[trigger] points@[k]).wf(),
                forall|k: int|
                    0 <= k < i ==> #[trigger] particles@[k] == (Particle {
                        position: points@[k],
                        last: points@[k],
                    }),
            decreases points@.len() - i,
        {
            particles.push(Particle::new(points[i]));
            i = i + 1;
        }
        assert(particles@ =~= rest_particles(points@));
        let center = centroid(&particles);
        let mut model: Vec<Vec3> = Vec::with_capacity(points.len());
        let mut i: usize = 0;
        while i < points.len()
            invariant
                0 <= i <= points@.len(),
                model@.len() == i,
                center == rest_center(points@),
                center.wf(),
                forall|k: int| 0 <= k < points@.len() ==> (#[trigger] points@[k]).wf(),
                forall|k: int|
                    0 <= k < i ==> #[trigger] model@[k] == points@[k].sub_spec(center),
                forall|k: int| 0 <= k < i ==> (#[trigger] model@[k]).wf(),
            decreases points@.len() - i,
        {
            model.push(points[i].sub(center));
            i = i + 1;
        }
        let mut rods: Vec<Rod> = Vec::with_capacity(bindings.len());
        let mut j: usize = 0;
        while j < bindings.len()
            invariant
                0 <= j <= bindings@.len(),
                rods@.len() == j,
                particles@.len() == points@.len(),
                particles_wf(particles@),
                forall|k: int|
                    0 <= k < points@.len() ==> #[trigger] particles@[k] == (Particle {
                        position: points@[k],
                        last: points@[k],
                    }),
                forall|k: int|
                    0 <= k < bindings@.len() ==> (#[trigger] bindings@[k]).0 < points@.len()
                        && bindings@[k].1 < points@.len(),
                rods_wf(rods@, points@.len() as int),
                forall|k: int|
                    0 <= k < j ==> #[trigger] rods@[k] == (Rod {
                        left: bindings@[k].0,
                        right: bindings@[k].1,
                        length: points@[bindings@[k].0 as int].dist_spec(
                            points@[bindings@[k].1 as int],
                        ) as i64,
                    }),
            decreases bindings@.len() - j,
        {
            let (left, right) = bindings[j];
            rods.push(Rod::new(left, right, particles.as_slice()));
            j = j + 1;
        }
        let zero = Vec3::zero();
        let accel_dt = accel_term(zero, mass, gravity, dt);
        let r = Instance { particles, rods, mass, force: zero, accel_dt, center, model };
        proof {
            assert forall|k: int| 0 <= k < points@.len() implies #[trigger] r.offset_spec(k) == (Vec3 {
                x: 0,
                y: 0,
                z: 0,
            }) by {
                let d = points@[k].sub_spec(center);
                lemma_clamp_in_range(points@[k].x - center.x);
                lemma_clamp_in_range(points@[k].y - center.y);
                lemma_clamp_in_range(points@[k].z - center.z);
                assert(r.particles@[k].position == points@[k]);
                assert(d.sub_spec(d) == (Vec3 { x: 0, y: 0, z: 0 }));
            }
        }
        r
    }

    /// Displacement of particle `i` from its rest pose.
    pub fn offset(&self, i: usize) -> (r: Vec3)
        requires
            self.wf(),
            i < self.particles@.len(),
        ensures
            r == self.offset_spec(i as int),
            r.wf(),
    {
        self.particles[i].position.sub(self.center).sub(self.model[i])
    }

    /// Sets the applied force and recomputes the cached acceleration term.
    pub fn set_force(&mut self, force: Vec3, gravity: Vec3, dt: i64)
        requires
            old(self).wf(),
            force.wf(),
            gravity.wf(),
            in_range(dt as int),
        ensures
            final(self).wf(),
            final(self).force == force,
            final(self).accel_dt == accel_spec(force, old(self).mass, gravity, dt),
            final(self).particles@ == old(self).particles@,
            final(self).rods@ == old(self).rods@,
            final(self).model@ == old(self).model@,
            final(self).mass == old(self).mass,
            final(self).center == old(self).center,
    {
        self.force = force;
        self.accel_dt = accel_term(force, self.mass, gravity, dt);
    }

    /// One simulation step: integrate, relax the constraints, recompute the
    /// center.
    pub fn step(&mut self, planes: &Vec<Plane>, cfg: Config)
        requires
            old(self).wf(),
            planes_wf(planes@),
            cfg.wf(),
        ensures
            final(self).wf(),
            stepped(*old(self), *final(self), planes@, cfg),
    {
        integrate(&mut self.particles, self.accel_dt);
        let ghost moved = self.particles@;
        let ghost rods0 = self.rods@;
        let mut it: usize = 0;
        while it < cfg.iterations
            invariant
                0 <= it <= cfg.iterations,
                cfg.wf(),
                planes_wf(planes@),
                particles_wf(self.particles@),
                self.particles@.len() == moved.len(),
                moved.len() == old(self).particles@.len(),
                rods_wf(self.rods@, moved.len() as int),
                (self.particles@, self.rods@) == passes_spec(moved, rods0, planes@, cfg, it as int),
                self.particles@.len() <= MAX_VERTICES,
                self.model@ == old(self).model@,
                self.mass == old(self).mass,
                self.force == old(self).force,
                self.accel_dt == old(self).accel_dt,
                self.center == old(self).center,
                moved == integrate_all(old(self).particles@, old(self).accel_dt),
                rods0 == old(self).rods@,
            decreases cfg.iterations - it,
        {
            relax_rods(&mut self.particles, &self.rods, cfg.push);
            apply_planes(&mut self.particles, planes, cfg.bounce);
            deform_rods(&mut self.rods, &self.particles, cfg.deform);
            it = it + 1;
        }
        self.center = centroid(&self.particles);
    }
}

/// Sparse store of softbody instances keyed by entity index, with the
/// planes and gravity shared by all of them.
pub struct Manager {
    pub instances: Vec<Option<Instance>>,
    pub planes: Vec<Plane>,
    pub gravity: Vec3,
    pub config: Config,
}

impl Manager {
    pub open spec fn has_instance(&self, i: int) -> bool {
        0 <= i < self.instances@.len() && self.instances@[i] is Some
    }

    pub open spec fn instance(&self, i: int) -> Instance {
        self.instances@[i]->Some_0
    }

    pub open spec fn wf(&self) -> bool {
        &&& forall|i: int| #[trigger] self.has_instance(i) ==> self.instance(i).wf()
        &&& planes_wf(self.planes@)
        &&& self.gravity.wf()
        &&& self.config.wf()
    }

    /// Standard gravity of 9.8 units per second squared, downward.
    pub open spec fn standard_gravity() -> Vec3 {
        Vec3 { x: 0, y: -642253i64, z: 0 }
    }

    /// An empty engine with standard gravity and the standard configuration.
    pub fn new(instance_hint: usize, plane_hint: usize) -> (r: Manager)
        ensures
            r.wf(),
            r.instances@.len() == 0,
            r.planes@.len() == 0,
            r.gravity == Manager::standard_gravity(),
            r.config == Config::standard_spec(),
    {
        Manager::with_config(instance_hint, plane_hint, Config::standard())
    }

    /// An empty engine with standard gravity and the given configuration.
    pub fn with_config(instance_hint: usize, plane_hint: usize, config: Config) -> (r: Manager)
        requires
            config.wf(),
        ensures
            r.wf(),
            r.instances@.len() == 0,
            r.planes@.len() == 0,
            r.gravity == Manager::standard_gravity(),
            r.config == config,
    {
        Manager {
            instances: Vec::with_capacity(instance_hint),
            planes: Vec::with_capacity(plane_hint),
            gravity: Vec3::new(0, -642253, 0),
            config,
        }
    }

    /// Grows the store to hold the entity's slot; new slots are empty.
    pub fn register(&mut self, entity: Handle)
        requires
            old(self).wf(),
        ensures
            final(self).wf(),
            final(self).instances@.len() == if entity.index < old(self).instances@.len() {
                old(self).instances@.len() as int
            } else {
                entity.index as int + 1
            },
            forall|i: int|
                0 <= i < old(self).instances@.len() ==> #[trigger] final(self).instances@[i]
                    == old(self).instances@[i],
            forall|i: int|
                old(self).instances@.len() <= i < final(self).instances@.len()
                    ==> #[trigger] final(self).instances@[i] is None,
            final(self).planes@ == old(self).planes@,
            final(self).gravity == old(self).gravity,
            final(self).config == old(self).config,
    {
        let i = entity.get_index() as usize;
        while self.instances.len() <= i
            invariant
                self.wf(),
                old(self).instances@.len() <= self.instances@.len(),
                self.instances@.len() <= if i < old(self).instances@.len() {
                    old(self).instances@.len() as int
                } else {
                    i + 1
                },
                forall|k: int|
                    0 <= k < old(self).instances@.len() ==> #[trigger] self.instances@[k]
                        == old(self).instances@[k],
                forall|k: int|
                    old(self).instances@.len() <= k < self.instances@.len()
                        ==> #[trigger] self.instances@[k] is None,
                self.planes@ == old(self).planes@,
                self.gravity == old(self).gravity,
                self.config == old(self).config,
            decreases i + 1 - self.instances@.len(),
        {
            let ghost before = self.instances@;
            assert forall|k: int| 0 <= k < before.len() && #[trigger] before[k] is Some implies before[k]->Some_0.wf() by {
                assert(self.has_instance(k));
            }
            self.instances.push(None);
            proof {
                assert forall|k: int| #[trigger] self.has_instance(k) implies self.instance(k).wf() by {
                    assert(self.instances@[k] == before[k]);
                }
            }
        }
    }

    /// The number of slots.
    pub fn count(&self) -> (r: usize)
        ensures
            r == self.instances@.len(),
    {
        self.instances.len()
    }

    /// Attaches a body to a registered entity: see `Instance::new`.
    pub fn init_instance(
        &mut self,
        entity: Handle,
        mass: i64,
        points: &[Vec3],
        bindings: &[(usize, usize)],
    )
        requires
            old(self).wf(),
            entity.index < old(self).instances@.len(),
            0 < mass <= LIMIT,
            points@.len() <= MAX_VERTICES,
            forall|i: int| 0 <= i < points@.len() ==> (#[trigger] points@[i]).wf(),
            forall|j: int|
                0 <= j < bindings@.len() ==> (#[trigger] bindings@[j]).0 < points@.len()
                    && bindings@[j].1 < points@.len(),
        ensures
            final(self).wf(),
            final(self).instances@.len() == old(self).instances@.len(),
            final(self).has_instance(entity.index as int),
            ({
                let inst = final(self).instance(entity.index as int);
                &&& inst.model@.len() == points@.len()
                &&& forall|i: int|
                    0 <= i < points@.len() ==> #[trigger] inst.model@[i] == points@[i].sub_spec(
                        rest_center(points@),
                    )
                &&& forall|i: int|
                    0 <= i < points@.len() ==> #[trigger] inst.offset_spec(i) == (Vec3 {
                        x: 0,
                        y: 0,
                        z: 0,
                    })
                &&& inst.particles@.len() == points@.len()
                &&& forall|i: int|
                    0 <= i < points@.len() ==> #[trigger] inst.particles@[i] == (Particle {
                        position: points@[i],
                        last: points@[i],
                    })
                &&& inst.rods@.len() == bindings@.len()
                &&& forall|j: int|
                    0 <= j < bindings@.len() ==> #[trigger] inst.rods@[j] == (Rod {
                        left: bindings@[j].0,
                        right: bindings@[j].1,
                        length: points@[bindings@[j].0 as int].dist_spec(
                            points@[bindings@[j].1 as int],
                        ) as i64,
                    })
                &&& inst.mass == mass
                &&& inst.force == (Vec3 { x: 0, y: 0, z: 0 })
                &&& inst.accel_dt == accel_spec(
                    Vec3 { x: 0, y: 0, z: 0 },
                    mass,
                    old(self).gravity,
                    old(self).config.dt,
                )
                &&& inst.center == rest_center(points@)
            }),
            forall|i: int|
                0 <= i < old(self).instances@.len() && i != entity.index ==> #[trigger] final(self).instances@[i]
                    == old(self).instances@[i],
            final(self).planes@ == old(self).planes@,
            final(self).gravity == old(self).gravity,
            final(self).config == old(self).config,
    {
        let i = entity.get_index() as usize;
        let inst = Instance::new(mass, points, bindings, self.gravity, self.config.dt);
        self.instances.set(i, Some(inst));
        proof {
            assert forall|k: int| #[trigger] self.has_instance(k) implies self.instance(k).wf() by {
                if k != i {
                    assert(old(self).has_instance(k));
                }
            }
        }
    }

    /// Sets the force applied to the entity's body and recomputes its
    /// acceleration term; an entity without a body is left as it is.
    pub fn set(&mut self, entity: Handle, force: Vec3)
        requires
            old(self).wf(),
            entity.index < old(self).instances@.len(),
            force.wf(),
        ensures
            final(self).wf(),
            final(self).instances@.len() == old(self).instances@.len(),
            !old(self).has_instance(entity.index as int) ==> final(self).instances@
                == old(self).instances@,
            old(self).has_instance(entity.index as int) ==> {
                let before = old(self).instance(entity.index as int);
                let after = final(self).instance(entity.index as int);
                &&& final(self).has_instance(entity.index as int)
                &&& after.force == force
                &&& after.accel_dt == accel_spec(
                    force,
                    before.mass,
                    old(self).gravity,
                    old(self).config.dt,
                )
                &&& after.particles@ == before.particles@
                &&& after.rods@ == before.rods@
                &&& after.model@ == before.model@
                &&& after.mass == before.mass
                &&& after.center == before.center
            },
            forall|i: int|
                0 <= i < old(self).instances@.len() && i != entity.index ==> #[trigger] final(self).instances@[i]
                    == old(self).instances@[i],
            final(self).planes@ == old(self).planes@,
            final(self).gravity == old(self).gravity,
            final(self).config == old(self).config,
    {
        let i = entity.get_index() as usize;
        let mut slot: Option<Instance> = None;
        std::mem::swap(&mut self.instances[i], &mut slot);
        match slot {
            Some(mut inst) => {
                assert(old(self).has_instance(i as int));
                inst.set_force(force, self.gravity, self.config.dt);
                self.instances.set(i, Some(inst));
            },
            None => {
                self.instances.set(i, None);
                assert(self.instances@ =~= old(self).instances@);
            },
        }
        proof {
            assert forall|k: int| #[trigger] self.has_instance(k) implies self.instance(k).wf() by {
                if k != i {
                    assert(old(self).has_instance(k));
                }
            }
        }
    }

    /// Per-particle displacement from the rest pose, padded with zeros to
    /// `MAX_VERTICES`; all zeros for an entity without a body.
    pub fn get_offsets(&self, entity: Handle) -> (r: Vec<Vec3>)
        requires
            self.wf(),
        ensures
            r@.len() == MAX_VERTICES,
            forall|k: int|
                0 <= k < MAX_VERTICES ==> #[trigger] r@[k] == if self.has_instance(
                    entity.index as int,
                ) && k < self.instance(entity.index as int).particles@.len() {
                    self.instance(entity.index as int).offset_spec(k)
                } else {
                    Vec3 { x: 0, y: 0, z: 0 }
                },
    {
        let i = entity.get_index() as usize;
        let mut offsets: Vec<Vec3> = Vec::with_capacity(MAX_VERTICES);
        let mut k: usize = 0;
        while k < MAX_VERTICES
            invariant
                0 <= k <= MAX_VERTICES,
                offsets@.len() == k,
                forall|j: int| 0 <= j < k ==> #[trigger] offsets@[j] == (Vec3 { x: 0, y: 0, z: 0 }),
            decreases MAX_VERTICES - k,
        {
            offsets.push(Vec3::zero());
            k = k + 1;
        }
        if i >= self.instances.len() {
            return offsets;
        }
        match &self.instances[i] {
            Some(inst) => {
                assert(self.has_instance(i as int));
                let n = inst.particles.len();
                let mut k: usize = 0;
                while k < n
                    invariant
                        0 <= k <= n,
                        n == inst.particles@.len(),
                        n <= MAX_VERTICES,
                        inst.wf(),
                        offsets@.len() == MAX_VERTICES,
                        forall|j: int| 0 <= j < k ==> #[trigger] offsets@[j] == inst.offset_spec(j),
                        forall|j: int|
                            k <= j < MAX_VERTICES ==> #[trigger] offsets@[j] == (Vec3 {
                                x: 0,
                                y: 0,
                                z: 0,
                            }),
                    decreases n - k,
                {
                    offsets.set(k, inst.offset(k));
                    k = k + 1;
                }
            },
            None => {},
        }
        offsets
    }

    /// Adds a collision plane shared by every body.
    pub fn add_plane(&mut self, plane: Plane)
        requires
            old(self).wf(),
            plane.wf(),
        ensures
            final(self).wf(),
            final(self).planes@ == old(self).planes@.push(plane),
            final(self).instances@ == old(self).instances@,
            final(self).gravity == old(self).gravity,
            final(self).config == old(self).config,
    {
        self.planes.push(plane);
        proof {
            assert forall|k: int| #[trigger] self.has_instance(k) implies self.instance(k).wf() by {
                assert(old(self).has_instance(k));
            }
        }
    }

    /// Sets the gravity used by bodies initialized or given a force from now
    /// on.
    pub fn set_gravity(&mut self, gravity: Vec3)
        requires
            old(self).wf(),
            gravity.wf(),
        ensures
            final(self).wf(),
            final(self).gravity == gravity,
            final(self).instances@ == old(self).instances@,
            final(self).planes@ == old(self).planes@,
            final(self).config == old(self).config,
    {
        self.gravity = gravity;
        proof {
            assert forall|k: int| #[trigger] self.has_instance(k) implies self.instance(k).wf() by {
                assert(old(self).has_instance(k));
            }
        }
    }

    /// For each rod of the entity's body: its two end positions and its
    /// strain, the difference between rest length and current length over a
    /// tenth of the rest length (zero for a rod of no length). Empty for an
    /// entity without a body.
    pub fn rod_strains(&self, entity: Handle) -> (r: Vec<(Vec3, Vec3, i64)>)
        requires
            self.wf(),
        ensures
            !self.has_instance(entity.index as int) ==> r@.len() == 0,
            self.has_instance(entity.index as int) ==> {
                let inst = self.instance(entity.index as int);
                &&& r@.len() == inst.rods@.len()
                &&& forall|j: int|
                    0 <= j < inst.rods@.len() ==> {
                        let rod = #[trigger] inst.rods@[j];
                        let left = inst.particles@[rod.left as int].position;
                        let right = inst.particles@[rod.right as int].position;
                        r@[j] == (left, right, strain_spec(rod.length, left.dist_spec(right)) as i64)
                    }
            },
    {
        let i = entity.get_index() as usize;
        let mut lines: Vec<(Vec3, Vec3, i64)> = Vec::new();
        if i >= self.instances.len() {
            return lines;
        }
        match &self.instances[i] {
            Some(inst) => {
                assert(self.has_instance(i as int));
                let mut j: usize = 0;
                while j < inst.rods.len()
                    invariant
                        0 <= j <= inst.rods@.len(),
                        inst.wf(),
                        lines@.len() == j,
                        forall|k: int|
                            0 <= k < j ==> {
                                let rod = #[trigger] inst.rods@[k];
                                let left = inst.particles@[rod.left as int].position;
                                let right = inst.particles@[rod.right as int].position;
                                lines@[k] == (left, right, strain_spec(rod.length, left.dist_spec(right)) as i64)
                            },
                    decreases inst.rods@.len() - j,
                {
                    let rod = inst.rods[j];
                    let left = inst.particles[rod.left].position;
                    let right = inst.particles[rod.right].position;
                    lines.push((left, right, strain(rod.length, left.dist(right))));
                    j = j + 1;
                }
            },
            None => {},
        }
        lines
    }

    /// Every entity with a body here has a transform in `transforms` at the
    /// same index.
    pub open spec fn shares_index_space(&self, transforms: &transform::Manager) -> bool {
        forall|i: int| #[trigger] self.has_instance(i) ==> transforms.registered(i)
    }

    /// Advances every body by one fixed step, in index order, and writes each
    /// body's new center into the world position of the transform at the
    /// same index.
    pub fn simulate(&mut self, transforms: &mut transform::Manager)
        requires
            old(self).wf(),
            old(transforms).wf(),
            old(self).shares_index_space(old(transforms)),
        ensures
            final(self).wf(),
            final(transforms).wf(),
            final(self).planes@ == old(self).planes@,
            final(self).gravity == old(self).gravity,
            final(self).config == old(self).config,
            final(self).instances@.len() == old(self).instances@.len(),
            forall|i: int|
                0 <= i < old(self).instances@.len() ==> (#[trigger] final(self).instances@[i] is Some
                    <==> old(self).instances@[i] is Some),
            forall|i: int|
                #[trigger] old(self).has_instance(i) ==> stepped(
                    old(self).instance(i),
                    final(self).instance(i),
                    old(self).planes@,
                    old(self).config,
                ),
            final(transforms).instances@.len() == old(transforms).instances@.len(),
            forall|i: int|
                0 <= i < old(transforms).instances@.len() ==> #[trigger] final(transforms).instances@[i]
                    == if old(self).has_instance(i) {
                    Some(
                        transform::Transform {
                            position: final(self).instance(i).center,
                            ..old(transforms).slot(i)
                        },
                    )
                } else {
                    old(transforms).instances@[i]
                },
    {
        let n = self.instances.len();
        let mut i: usize = 0;
        while i < n
            invariant
                0 <= i <= n,
                n == self.instances@.len(),
                n == old(self).instances@.len(),
                self.wf(),
                transforms.wf(),
                self.planes@ == old(self).planes@,
                self.gravity == old(self).gravity,
                self.config == old(self).config,
                old(self).shares_index_space(old(transforms)),
                transforms.instances@.len() == old(transforms).instances@.len(),
                forall|k: int|
                    0 <= k < n ==> (#[trigger] self.instances@[k] is Some
                        <==> old(self).instances@[k] is Some),
                forall|k: int| i <= k < n ==> #[trigger] self.instances@[k] == old(self).instances@[k],
                forall|k: int|
                    0 <= k < i && #[trigger] old(self).has_instance(k) ==> stepped(
                        old(self).instance(k),
                        self.instance(k),
                        old(self).planes@,
                        old(self).config,
                    ),
                forall|k: int|
                    0 <= k < transforms.instances@.len() ==> #[trigger] transforms.instances@[k]
                        == if k < i && old(self).has_instance(k) {
                        Some(
                            transform::Transform {
                                position: self.instance(k).center,
                                ..old(transforms).slot(k)
                            },
                        )
                    } else {
                        old(transforms).instances@[k]
                    },
            decreases n - i,
        {
            let ghost pre = self.instances@;
            proof {
                assert forall|k: int| 0 <= k < n && #[trigger] pre[k] is Some implies pre[k]->Some_0.wf() by {
                    assert(self.has_instance(k));
                }
            }
            let mut slot: Option<Instance> = None;
            std::mem::swap(&mut self.instances[i], &mut slot);
            match slot {
                Some(mut inst) => {
                    assert(old(self).has_instance(i as int));
                    assert(pre[i as int] is Some);
                    let ghost before_t = transforms.instances@;
                    inst.step(&self.planes, self.config);
                    let center = inst.center;
                    self.instances.set(i, Some(inst));
                    assert(transforms.registered(i as int));
                    transforms.set_position_raw(i, center);
                    proof {
                        assert forall|k: int|
                            0 <= k < transforms.instances@.len() implies #[trigger] transforms.instances@[k]
                            == if k < i + 1 && old(self).has_instance(k) {
                            Some(
                                transform::Transform {
                                    position: self.instance(k).center,
                                    ..old(transforms).slot(k)
                                },
                            )
                        } else {
                            old(transforms).instances@[k]
                        } by {
                            if k != i {
                                assert(transforms.instances@[k] == before_t[k]);
                            }
                        }
                    }
                },
                None => {
                    self.instances.set(i, None);
                },
            }
            proof {
                assert forall|k: int| #[trigger] self.has_instance(k) implies self.instance(k).wf() by {
                    if k != i {
                        assert(self.instances@[k] == pre[k]);
                    }
                }
            }
            i = i + 1;
        }
    }
}

/// With no force and no gravity the acceleration term is zero.
pub proof fn lemma_no_force_no_accel(mass: i64, dt: i64)
    requires
        0 < mass <= LIMIT,
        in_range(dt as int),
    ensures
        accel_spec(Vec3 { x: 0, y: 0, z: 0 }, mass, Vec3 { x: 0, y: 0, z: 0 }, dt) == (Vec3 {
            x: 0,
            y: 0,
            z: 0,
        }),
{
    assert(tdiv(0int * ONE, mass as int) == 0);
    assert(tdiv(0int * dt, ONE as int) == 0);
}

/// A particle at rest (`last == position`) with no force and no gravity
/// keeps its position through integration, and stays at rest.
pub proof fn lemma_rest_particle_stays(p: Particle, mass: i64, dt: i64)
    requires
        p.wf(),
        p.last == p.position,
        0 < mass <= LIMIT,
        in_range(dt as int),
    ensures
        integrate_spec(
            p,
            accel_spec(Vec3 { x: 0, y: 0, z: 0 }, mass, Vec3 { x: 0, y: 0, z: 0 }, dt),
        ) == p,
{
    lemma_no_force_no_accel(mass, dt);
}

/// With zero stiffness a rod moves neither of its particles.
pub proof fn lemma_slack_rod_moves_nothing(ps: Seq<Particle>, rod: Rod)
    requires
        particles_wf(ps),
        rod.left < ps.len(),
        rod.right < ps.len(),
    ensures
        rod_push_spec(ps, rod, 0) == ps,
{
    let left = ps[rod.left as int].position;
    let right = ps[rod.right as int].position;
    let difference = right.sub_spec(left);
    let distance = difference.mag_spec();
    if distance != 0 {
        let percent = fx_mul(0, fx_sub(fx_div(rod.length as int, distance), ONE as int));
        assert(percent == 0);
        let offset = difference.scale_spec(percent as i64);
        assert(offset == (Vec3 { x: 0, y: 0, z: 0 }));
        let ps1 = ps.update(
            rod.left as int,
            Particle { position: left.sub_spec(offset), last: ps[rod.left as int].last },
        );
        assert(ps1 =~= ps);
        assert(ps1.update(
            rod.right as int,
            Particle { position: right.add_spec(offset), last: ps1[rod.right as int].last },
        ) =~= ps);
    }
}

/// With zero stiffness relaxing any sequence of rods leaves every particle
/// where it was, so their distances stay as they were.
pub proof fn lemma_slack_rods_move_nothing(ps: Seq<Particle>, rods: Seq<Rod>, k: int)
    requires
        particles_wf(ps),
        rods_wf(rods, ps.len() as int),
        0 <= k <= rods.len(),
    ensures
        relax_rods_spec(ps, rods, 0, k) == ps,
    decreases k,
{
    if k > 0 {
        lemma_slack_rods_move_nothing(ps, rods, k - 1);
        lemma_slack_rod_moves_nothing(ps, rods[k - 1]);
    }
}

/// A particle strictly outside a plane is left as it is; one on the solid
/// side moves along the normal by `bounce` times its depth, each component
/// rounded in fixed point and saturated at the bounds.
pub proof fn lemma_plane_containment(p: Particle, plane: Plane, bounce: i64)
    requires
        p.wf(),
        plane.wf(),
        0 <= bounce <= LIMIT,
    ensures
        plane.signed_distance_spec(p.position) > 0 ==> plane_spec(p, plane, bounce) == p,
        plane.signed_distance_spec(p.position) <= 0 ==> {
            let depth = plane.signed_distance_spec(p.position);
            let q = plane_spec(p, plane, bounce).position;
            &&& plane_spec(p, plane, bounce).last == p.last
            &&& q.x == fx_sub(p.position.x as int, fx_mul(fx_mul(plane.normal.x as int, bounce as int), depth))
            &&& q.y == fx_sub(p.position.y as int, fx_mul(fx_mul(plane.normal.y as int, bounce as int), depth))
            &&& q.z == fx_sub(p.position.z as int, fx_mul(fx_mul(plane.normal.z as int, bounce as int), depth))
        },
{
}

/// A particle strictly outside every plane is left as it is by plane
/// resolution.
pub proof fn lemma_outside_all_planes(ps: Seq<Particle>, planes: Seq<Plane>, bounce: i64, i: int, k: int)
    requires
        0 <= i < ps.len(),
        0 <= k <= planes.len(),
        forall|j: int| 0 <= j < k ==> (#[trigger] planes[j]).signed_distance_spec(ps[i].position) > 0,
    ensures
        planes_spec(ps, planes, bounce, k)[i] == ps[i],
        planes_spec(ps, planes, bounce, k).len() == ps.len(),
    decreases k,
{
    if k > 0 {
        lemma_outside_all_planes(ps, planes, bounce, i, k - 1);
        assert(planes[k - 1].signed_distance_spec(ps[i].position) > 0);
    }
}

proof fn lemma_mul_one(l: i64)
    requires
        0 <= l <= LIMIT,
    ensures
        fx_mul(l as int, ONE as int) == l,
{
    assert((l * ONE) / (ONE as int) == l) by (nonlinear_arith)
        requires
            l >= 0,
    ;
}

/// Deformation never lengthens a rod, and with full retention leaves it
/// unchanged.
pub proof fn lemma_deformed_length(length: i64, distance: int, deform: i64)
    requires
        0 <= length <= LIMIT,
        in_range(distance),
        0 <= deform <= ONE,
    ensures
        deformed_length(length, distance, deform) <= length,
        0 <= deformed_length(length, distance, deform),
        deform == ONE ==> deformed_length(length, distance, deform) == length,
{
    assert(length * deform >= 0) by (nonlinear_arith)
        requires
            length >= 0,
            deform >= 0,
    ;
    if deform == ONE {
        lemma_mul_one(length);
    }
}

/// The rods after `k` relaxation passes: the same constraints, none longer
/// than before, and all unchanged under full retention.
pub proof fn lemma_passes_rest_lengths(
    ps: Seq<Particle>,
    rods: Seq<Rod>,
    planes: Seq<Plane>,
    cfg: Config,
    k: int,
)
    requires
        particles_wf(ps),
        rods_wf(rods, ps.len() as int),
        planes_wf(planes),
        cfg.wf(),
        0 <= k,
    ensures
        ({
            let res = passes_spec(ps, rods, planes, cfg, k);
            &&& res.0.len() == ps.len()
            &&& particles_wf(res.0)
            &&& res.1.len() == rods.len()
            &&& rods_wf(res.1, ps.len() as int)
            &&& forall|j: int|
                0 <= j < rods.len() ==> (#[trigger] res.1[j]).left == rods[j].left
                    && res.1[j].right == rods[j].right && res.1[j].length <= rods[j].length
            &&& cfg.deform == ONE ==> res.1 == rods
        }),
    decreases k,
{
    if k > 0 {
        lemma_passes_rest_lengths(ps, rods, planes, cfg, k - 1);
        let prev = passes_spec(ps, rods, planes, cfg, k - 1);
        lemma_relax_rods_wf(prev.0, prev.1, cfg.push, prev.1.len() as int);
        let ps1 = relax_rods_spec(prev.0, prev.1, cfg.push, prev.1.len() as int);
        lemma_planes_wf(ps1, planes, cfg.bounce, planes.len() as int);
        let ps2 = planes_spec(ps1, planes, cfg.bounce, planes.len() as int);
        let rods2 = deform_spec(prev.1, ps2, cfg.deform);
        assert forall|j: int| 0 <= j < rods.len() implies (#[trigger] rods2[j]).length <= prev.1[j].length
            && 0 <= rods2[j].length && (cfg.deform == ONE ==> rods2[j] == prev.1[j]) by {
            let r = prev.1[j];
            let d = ps2[r.left as int].position.dist_spec(ps2[r.right as int].position);
            let diff = ps2[r.right as int].position.sub_spec(ps2[r.left as int].position);
            lemma_clamp_in_range(floor_sqrt(diff.x * diff.x + diff.y * diff.y + diff.z * diff.z));
            lemma_deformed_length(r.length, d, cfg.deform);
        }
        if cfg.deform == ONE {
            assert(rods2 =~= prev.1);
        }
    }
}

proof fn lemma_relax_rods_wf(ps: Seq<Particle>, rods: Seq<Rod>, push: i64, k: int)
    requires
        particles_wf(ps),
        rods_wf(rods, ps.len() as int),
        0 <= push <= ONE / 2,
        0 <= k <= rods.len(),
    ensures
        particles_wf(relax_rods_spec(ps, rods, push, k)),
        relax_rods_spec(ps, rods, push, k).len() == ps.len(),
    decreases k,
{
    if k > 0 {
        lemma_relax_rods_wf(ps, rods, push, k - 1);
        let prev = relax_rods_spec(ps, rods, push, k - 1);
        let rod = rods[k - 1];
        let left = prev[rod.left as int].position;
        let right = prev[rod.right as int].position;
        let difference = right.sub_spec(left);
        let distance = difference.mag_spec();
        if distance != 0 {
            let ratio = fx_div(rod.length as int, distance);
            let percent = fx_mul(push as int, fx_sub(ratio, ONE as int));
            lemma_clamp_in_range(ratio - ONE);
            lemma_clamp_in_range(tdiv(push * fx_sub(ratio, ONE as int), ONE as int));
            let offset = difference.scale_spec(percent as i64);
            lemma_clamp_in_range(tdiv(difference.x * percent, ONE as int));
            lemma_clamp_in_range(tdiv(difference.y * percent, ONE as int));
            lemma_clamp_in_range(tdiv(difference.z * percent, ONE as int));
        }
    }
}

proof fn lemma_planes_wf(ps: Seq<Particle>, planes: Seq<Plane>, bounce: i64, k: int)
    requires
        particles_wf(ps),
        planes_wf(planes),
        0 <= bounce <= LIMIT,
        0 <= k <= planes.len(),
    ensures
        particles_wf(planes_spec(ps, planes, bounce, k)),
        planes_spec(ps, planes, bounce, k).len() == ps.len(),
    decreases k,
{
    if k > 0 {
        lemma_planes_wf(ps, planes, bounce, k - 1);
        let prev = planes_spec(ps, planes, bounce, k - 1);
        assert forall|i: int| 0 <= i < prev.len() implies (#[trigger] plane_spec(
            prev[i],
            planes[k - 1],
            bounce,
        )).wf() by {
            lemma_plane_result_wf(prev[i], planes[k - 1], bounce);
        }
    }
}

proof fn lemma_plane_result_wf(p: Particle, plane: Plane, bounce: i64)
    requires
        p.wf(),
        plane.wf(),
        0 <= bounce <= LIMIT,
    ensures
        plane_spec(p, plane, bounce).wf(),
{
    let d = plane.signed_distance_spec(p.position);
    lemma_clamp_in_range(plane.normal.dot_spec(p.position) + plane.offset);
    let n = plane.normal.scale_spec(bounce);
    lemma_clamp_in_range(tdiv(plane.normal.x * bounce, ONE as int));
    lemma_clamp_in_range(tdiv(plane.normal.y * bounce, ONE as int));
    lemma_clamp_in_range(tdiv(plane.normal.z * bounce, ONE as int));
    lemma_clamp_in_range(tdiv(n.x * d, ONE as int));
    lemma_clamp_in_range(tdiv(n.y * d, ONE as int));
    lemma_clamp_in_range(tdiv(n.z * d, ONE as int));
}

/// Across a simulation step no rod's rest length grows, and under full
/// retention none changes.
pub proof fn lemma_step_rest_lengths(before: Instance, after: Instance, planes: Seq<Plane>, cfg: Config)
    requires
        before.wf(),
        planes_wf(planes),
        cfg.wf(),
        stepped(before, after, planes, cfg),
    ensures
        after.rods@.len() == before.rods@.len(),
        forall|j: int|
            0 <= j < before.rods@.len() ==> (#[trigger] after.rods@[j]).length
                <= before.rods@[j].length,
        cfg.deform == ONE ==> after.rods@ == before.rods@,
{
    let moved = integrate_all(before.particles@, before.accel_dt);
    lemma_integrated_wf(before);
    lemma_passes_rest_lengths(moved, before.rods@, planes, cfg, cfg.iterations as int);
}

/// A body whose particles are all at rest, under no force and no gravity,
/// keeps every particle in place through integration.
pub proof fn lemma_rest_body_stays(inst: Instance)
    requires
        inst.wf(),
        inst.accel_dt == (Vec3 { x: 0, y: 0, z: 0 }),
        forall|i: int|
            0 <= i < inst.particles@.len() ==> (#[trigger] inst.particles@[i]).last
                == inst.particles@[i].position,
    ensures
        integrate_all(inst.particles@, inst.accel_dt) == inst.particles@,
{
    assert(integrate_all(inst.particles@, inst.accel_dt) =~= inst.particles@);
}

/// Rods that do not touch particle `k` leave it where it is.
proof fn lemma_rods_skip(ps: Seq<Particle>, rods: Seq<Rod>, push: i64, m: int, k: int)
    requires
        particles_wf(ps),
        rods_wf(rods, ps.len() as int),
        0 <= push <= ONE / 2,
        0 <= m <= rods.len(),
        0 <= k < ps.len(),
        forall|j: int| 0 <= j < rods.len() ==> (#[trigger] rods[j]).left != k && rods[j].right != k,
    ensures
        relax_rods_spec(ps, rods, push, m)[k] == ps[k],
    decreases m,
{
    if m > 0 {
        lemma_rods_skip(ps, rods, push, m - 1, k);
        lemma_relax_rods_wf(ps, rods, push, m - 1);
        assert(rods[m - 1].left != k && rods[m - 1].right != k);
    }
}

proof fn lemma_passes_keep_particle(
    ps: Seq<Particle>,
    rods: Seq<Rod>,
    planes: Seq<Plane>,
    cfg: Config,
    passes: int,
    k: int,
)
    requires
        particles_wf(ps),
        rods_wf(rods, ps.len() as int),
        planes_wf(planes),
        cfg.wf(),
        0 <= passes,
        0 <= k < ps.len(),
        forall|j: int| 0 <= j < rods.len() ==> (#[trigger] rods[j]).left != k && rods[j].right != k,
        forall|j: int|
            0 <= j < planes.len() ==> (#[trigger] planes[j]).signed_distance_spec(ps[k].position)
                > 0,
    ensures
        passes_spec(ps, rods, planes, cfg, passes).0[k] == ps[k],
    decreases passes,
{
    if passes > 0 {
        lemma_passes_keep_particle(ps, rods, planes, cfg, passes - 1, k);
        lemma_passes_rest_lengths(ps, rods, planes, cfg, passes - 1);
        let prev = passes_spec(ps, rods, planes, cfg, passes - 1);
        assert forall|j: int| 0 <= j < prev.1.len() implies (#[trigger] prev.1[j]).left != k
            && prev.1[j].right != k by {
            assert(prev.1[j].left == rods[j].left);
        }
        lemma_rods_skip(prev.0, prev.1, cfg.push, prev.1.len() as int, k);
        lemma_relax_rods_wf(prev.0, prev.1, cfg.push, prev.1.len() as int);
        let ps1 = relax_rods_spec(prev.0, prev.1, cfg.push, prev.1.len() as int);
        lemma_outside_all_planes(ps1, planes, cfg.bounce, k, planes.len() as int);
    }
}

/// Across a whole simulation step, with no force and no gravity, a particle
/// at rest that no rod touches and that lies strictly outside every plane
/// stays where it is, and stays at rest.
pub proof fn lemma_step_no_drift(
    before: Instance,
    after: Instance,
    planes: Seq<Plane>,
    cfg: Config,
    k: int,
)
    requires
        before.wf(),
        planes_wf(planes),
        cfg.wf(),
        stepped(before, after, planes, cfg),
        before.accel_dt == (Vec3 { x: 0, y: 0, z: 0 }),
        0 <= k < before.particles@.len(),
        before.particles@[k].last == before.particles@[k].position,
        forall|j: int|
            0 <= j < before.rods@.len() ==> (#[trigger] before.rods@[j]).left != k
                && before.rods@[j].right != k,
        forall|j: int|
            0 <= j < planes.len() ==> (#[trigger] planes[j]).signed_distance_spec(
                before.particles@[k].position,
            ) > 0,
    ensures
        after.particles@[k] == before.particles@[k],
{
    let moved = integrate_all(before.particles@, before.accel_dt);
    lemma_integrated_wf(before);
    assert(moved[k] == before.particles@[k]);
    lemma_passes_keep_particle(moved, before.rods@, planes, cfg, cfg.iterations as int, k);
}

proof fn lemma_integrated_wf(inst: Instance)
    requires
        inst.wf(),
    ensures
        particles_wf(integrate_all(inst.particles@, inst.accel_dt)),
{
    let moved = integrate_all(inst.particles@, inst.accel_dt);
    assert forall|i: int| 0 <= i < moved.len() implies (#[trigger] moved[i]).wf() by {
        let p = inst.particles@[i];
        assert(p.wf());
        lemma_clamp_in_range(2 * p.position.x - p.last.x + inst.accel_dt.x);
        lemma_clamp_in_range(2 * p.position.y - p.last.y + inst.accel_dt.y);
        lemma_clamp_in_range(2 * p.position.z - p.last.z + inst.accel_dt.z);
    }
}

proof fn lemma_slack_passes(ps: Seq<Particle>, rods: Seq<Rod>, cfg: Config, passes: int)
    requires
        particles_wf(ps),
        rods_wf(rods, ps.len() as int),
        cfg.wf(),
        cfg.push == 0,
        0 <= passes,
    ensures
        passes_spec(ps, rods, Seq::<Plane>::empty(), cfg, passes).0 == ps,
    decreases passes,
{
    if passes > 0 {
        let planes = Seq::<Plane>::empty();
        lemma_slack_passes(ps, rods, cfg, passes - 1);
        lemma_passes_rest_lengths(ps, rods, planes, cfg, passes - 1);
        let prev = passes_spec(ps, rods, planes, cfg, passes - 1);
        lemma_slack_rods_move_nothing(prev.0, prev.1, prev.1.len() as int);
    }
}

/// Across a whole simulation step with zero stiffness, no planes, no force
/// and no gravity, a body whose particles are all at rest keeps every
/// particle in place, so every rod keeps its ends' distance.
pub proof fn lemma_step_slack_rods(before: Instance, after: Instance, cfg: Config)
    requires
        before.wf(),
        cfg.wf(),
        cfg.push == 0,
        stepped(before, after, Seq::<Plane>::empty(), cfg),
        before.accel_dt == (Vec3 { x: 0, y: 0, z: 0 }),
        forall|i: int|
            0 <= i < before.particles@.len() ==> (#[trigger] before.particles@[i]).last
                == before.particles@[i].position,
    ensures
        after.particles@ == before.particles@,
{
    lemma_rest_body_stays(before);
    lemma_slack_passes(before.particles@, before.rods@, cfg, cfg.iterations as int);
}

} // verus!
