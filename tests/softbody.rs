use nmg_core::entity::Handle;
use nmg_core::fixed::ONE;
use nmg_core::softbody::{Config, Manager, MAX_VERTICES};
use nmg_core::transform;
use nmg_core::vector::{Plane, Vec3};

fn zero() -> Vec3 {
    Vec3::new(0, 0, 0)
}

fn config(push: i64, bounce: i64, deform: i64) -> Config {
    Config { push, bounce, deform, iterations: 1, dt: 1092 }
}

fn engine(cfg: Config) -> (Manager, transform::Manager, Handle) {
    let mut bodies = Manager::with_config(4, 4, cfg);
    let mut transforms = transform::Manager::new(4);
    let e = Handle::new(0);
    bodies.register(e);
    transforms.register(e);
    bodies.set_gravity(zero());
    (bodies, transforms, e)
}

#[test]
fn two_particle_rod_at_rest_reports_center() {
    let (mut bodies, mut transforms, e) = engine(config(1966, 3277, ONE));
    let points = vec![Vec3::new(0, 0, 0), Vec3::new(ONE, 0, 0)];
    bodies.init_instance(e, ONE, &points, &[(0, 1)]);
    assert_eq!(bodies.instances[0].as_ref().unwrap().rods[0].length, ONE);
    bodies.simulate(&mut transforms);
    let inst = bodies.instances[0].as_ref().unwrap();
    assert_eq!(inst.particles[0].position, Vec3::new(0, 0, 0));
    assert_eq!(inst.particles[1].position, Vec3::new(ONE, 0, 0));
    assert_eq!(inst.center, Vec3::new(ONE / 2, 0, 0));
    assert_eq!(transforms.instances[0].as_ref().unwrap().position, Vec3::new(ONE / 2, 0, 0));
    let offsets = bodies.get_offsets(e);
    assert!(offsets.iter().all(|o| *o == zero()));
}

#[test]
fn resting_particle_does_not_drift() {
    let (mut bodies, mut transforms, e) = engine(config(1966, 3277, ONE));
    let p = Vec3::new(3 * ONE, -2 * ONE, ONE / 3);
    bodies.init_instance(e, ONE, &[p], &[]);
    for _ in 0..10 {
        bodies.simulate(&mut transforms);
    }
    let inst = bodies.instances[0].as_ref().unwrap();
    assert_eq!(inst.particles[0].position, p);
    assert_eq!(inst.particles[0].last, p);
}

#[test]
fn gravity_accelerates_free_particle() {
    let mut bodies = Manager::with_config(1, 0, config(1966, 3277, ONE));
    let mut transforms = transform::Manager::new(1);
    let e = Handle::new(0);
    bodies.register(e);
    transforms.register(e);
    bodies.init_instance(e, ONE, &[zero()], &[]);
    let a = bodies.instances[0].as_ref().unwrap().accel_dt;
    assert!(a.y < 0);
    bodies.simulate(&mut transforms);
    bodies.simulate(&mut transforms);
    let inst = bodies.instances[0].as_ref().unwrap();
    // 1 a after the first step, 3 a after the second.
    assert_eq!(inst.particles[0].position.y, 3 * a.y);
}

#[test]
fn force_sets_acceleration_term() {
    let (mut bodies, _transforms, e) = engine(Config { push: 0, bounce: 0, deform: ONE, iterations: 1, dt: ONE });
    bodies.init_instance(e, 2 * ONE, &[zero()], &[]);
    bodies.set(e, Vec3::new(4 * ONE, 0, -2 * ONE));
    let inst = bodies.instances[0].as_ref().unwrap();
    assert_eq!(inst.force, Vec3::new(4 * ONE, 0, -2 * ONE));
    assert_eq!(inst.accel_dt, Vec3::new(2 * ONE, 0, -ONE));
}

#[test]
fn set_without_instance_is_ignored() {
    let (mut bodies, _transforms, e) = engine(config(1966, 3277, ONE));
    bodies.set(e, Vec3::new(ONE, ONE, ONE));
    assert!(bodies.instances[0].is_none());
}

#[test]
fn slack_rod_keeps_distance() {
    let (mut bodies, mut transforms, e) = engine(config(0, 0, ONE));
    let points = vec![Vec3::new(0, 0, 0), Vec3::new(ONE, 0, 0)];
    bodies.init_instance(e, ONE, &points, &[(0, 1)]);
    bodies.instances[0].as_mut().unwrap().rods[0].length = ONE / 2;
    for _ in 0..5 {
        bodies.simulate(&mut transforms);
    }
    let inst = bodies.instances[0].as_ref().unwrap();
    assert_eq!(inst.particles[0].position, Vec3::new(0, 0, 0));
    assert_eq!(inst.particles[1].position, Vec3::new(ONE, 0, 0));
}

#[test]
fn rigid_rod_approaches_rest_length() {
    let mut last = 2 * ONE;
    for passes in 1..4 {
        let cfg = Config { push: ONE / 2, bounce: 0, deform: ONE, iterations: passes, dt: 1092 };
        let (mut bodies, mut transforms, e) = engine(cfg);
        let points = vec![Vec3::new(0, 0, 0), Vec3::new(2 * ONE, 0, 0)];
        bodies.init_instance(e, ONE, &points, &[(0, 1)]);
        bodies.instances[0].as_mut().unwrap().rods[0].length = ONE;
        bodies.simulate(&mut transforms);
        let inst = bodies.instances[0].as_ref().unwrap();
        let d = inst.particles[0].position.dist(inst.particles[1].position);
        assert!((d - ONE).abs() <= (last - ONE).abs());
        last = d;
    }
    assert_eq!(last, ONE);
}

#[test]
fn stretched_rod_shrinks_under_deformation() {
    let (mut bodies, mut transforms, e) = engine(config(0, 0, ONE / 2));
    let points = vec![Vec3::new(0, 0, 0), Vec3::new(ONE, 0, 0)];
    bodies.init_instance(e, ONE, &points, &[(0, 1)]);
    bodies.simulate(&mut transforms);
    assert_eq!(bodies.instances[0].as_ref().unwrap().rods[0].length, ONE);
    bodies.instances[0].as_mut().unwrap().rods[0].length = 4 * ONE;
    let mut last = 4 * ONE;
    for _ in 0..4 {
        bodies.simulate(&mut transforms);
        let l = bodies.instances[0].as_ref().unwrap().rods[0].length;
        assert!(l <= last);
        last = l;
    }
    assert_eq!(last, ONE);
}

#[test]
fn elastic_rod_keeps_rest_length() {
    let (mut bodies, mut transforms, e) = engine(config(1966, 0, ONE));
    let points = vec![Vec3::new(0, 0, 0), Vec3::new(ONE, 0, 0)];
    bodies.init_instance(e, ONE, &points, &[(0, 1)]);
    bodies.instances[0].as_mut().unwrap().particles[1].position = Vec3::new(3 * ONE, 0, 0);
    for _ in 0..4 {
        bodies.simulate(&mut transforms);
        assert_eq!(bodies.instances[0].as_ref().unwrap().rods[0].length, ONE);
    }
}

#[test]
fn particle_above_plane_is_untouched() {
    let (mut bodies, mut transforms, e) = engine(config(0, 2 * ONE, ONE));
    bodies.add_plane(Plane::new(Vec3::new(0, ONE, 0), 0));
    let p = Vec3::new(ONE, ONE / 4, 0);
    bodies.init_instance(e, ONE, &[p], &[]);
    bodies.simulate(&mut transforms);
    assert_eq!(bodies.instances[0].as_ref().unwrap().particles[0].position, p);
}

#[test]
fn particle_below_plane_is_pushed_out() {
    let (mut bodies, mut transforms, e) = engine(config(0, 2 * ONE, ONE));
    bodies.add_plane(Plane::new(Vec3::new(0, ONE, 0), 0));
    bodies.init_instance(e, ONE, &[Vec3::new(ONE, -ONE / 4, 0)], &[]);
    bodies.simulate(&mut transforms);
    // depth -1/4, bounce 2: displaced by +1/2 along the normal.
    assert_eq!(
        bodies.instances[0].as_ref().unwrap().particles[0].position,
        Vec3::new(ONE, ONE / 4, 0)
    );
}

#[test]
fn offsets_are_padded_and_zero_at_rest() {
    let (mut bodies, mut transforms, e) = engine(config(1966, 0, ONE));
    let points = vec![Vec3::new(-ONE, 0, 0), Vec3::new(ONE, 0, 0)];
    bodies.init_instance(e, ONE, &points, &[(0, 1)]);
    bodies.simulate(&mut transforms);
    let offsets = bodies.get_offsets(e);
    assert_eq!(offsets.len(), MAX_VERTICES);
    assert!(offsets.iter().all(|o| *o == zero()));

    bodies.instances[0].as_mut().unwrap().particles[1].position = Vec3::new(2 * ONE, 0, 0);
    let offsets = bodies.get_offsets(e);
    assert_eq!(offsets[1], Vec3::new(ONE, 0, 0));
    assert_eq!(offsets[2], zero());
}

#[test]
fn offsets_of_unknown_entity_are_zero() {
    let bodies = Manager::new(0, 0);
    let offsets = bodies.get_offsets(Handle::new(7));
    assert_eq!(offsets.len(), MAX_VERTICES);
    assert!(offsets.iter().all(|o| *o == zero()));
}

#[test]
fn register_grows_with_empty_slots() {
    let mut bodies = Manager::new(0, 0);
    bodies.register(Handle::new(3));
    assert_eq!(bodies.count(), 4);
    assert!(bodies.instances.iter().all(|i| i.is_none()));
    bodies.register(Handle::new(1));
    assert_eq!(bodies.count(), 4);
}

#[test]
fn rod_strain_is_relative_to_a_tenth_of_rest_length() {
    let (mut bodies, _transforms, e) = engine(config(0, 0, ONE));
    let points = vec![Vec3::new(0, 0, 0), Vec3::new(10 * ONE, 0, 0)];
    bodies.init_instance(e, ONE, &points, &[(0, 1)]);
    let lines = bodies.rod_strains(e);
    assert_eq!(lines, vec![(points[0], points[1], 0)]);
    bodies.instances[0].as_mut().unwrap().particles[1].position = Vec3::new(11 * ONE, 0, 0);
    assert_eq!(bodies.rod_strains(e)[0].2, ONE);
    assert!(bodies.rod_strains(Handle::new(3)).is_empty());
}

#[test]
fn rest_pose_is_relative_to_centroid() {
    let (mut bodies, mut transforms, e) = engine(config(1966, 0, ONE));
    bodies.init_instance(e, ONE, &[Vec3::new(ONE, 0, 0)], &[]);
    let inst = bodies.instances[0].as_ref().unwrap();
    assert_eq!(inst.model, vec![zero()]);
    assert_eq!(inst.center, Vec3::new(ONE, 0, 0));

    let points = vec![Vec3::new(ONE, 2 * ONE, 0), Vec3::new(3 * ONE, 2 * ONE, 0), Vec3::new(2 * ONE, 5 * ONE, 0)];
    bodies.init_instance(e, ONE, &points, &[(0, 1), (1, 2), (2, 0)]);
    let inst = bodies.instances[0].as_ref().unwrap();
    assert_eq!(inst.center, Vec3::new(2 * ONE, 3 * ONE, 0));
    assert_eq!(inst.model, vec![Vec3::new(-ONE, -ONE, 0), Vec3::new(ONE, -ONE, 0), Vec3::new(0, 2 * ONE, 0)]);
    assert!(bodies.get_offsets(e).iter().all(|o| *o == zero()));
    bodies.simulate(&mut transforms);
    assert!(bodies.get_offsets(e).iter().all(|o| *o == zero()));
    assert_eq!(transforms.instances[0].as_ref().unwrap().position, Vec3::new(2 * ONE, 3 * ONE, 0));
}
