use nmg_core::entity::Handle;
use nmg_core::fixed::ONE;
use nmg_core::spatial::{Mat, Quat};
use nmg_core::transform::{Manager, ParentError};
use nmg_core::vector::Vec3;

fn store(n: u32) -> (Manager, Vec<Handle>) {
    let mut m = Manager::new(n as usize);
    let hs: Vec<Handle> = (0..n).map(Handle::new).collect();
    for h in &hs {
        m.register(*h);
    }
    (m, hs)
}

fn id() -> Quat {
    Quat::new(0, 0, 0, ONE)
}

fn unit() -> Vec3 {
    Vec3::new(ONE, ONE, ONE)
}

#[test]
fn register_installs_blank_transform() {
    let (m, hs) = store(3);
    assert_eq!(m.count(), 3);
    let (p, q, s) = m.get(hs[2]);
    assert_eq!(p, Vec3::new(0, 0, 0));
    assert_eq!(q, id());
    assert_eq!(s, unit());
    assert!(m.instances[1].as_ref().unwrap().parent.is_none());
    assert!(m.instances[1].as_ref().unwrap().children.is_empty());
}

#[test]
fn register_grows_sparse_slots() {
    let mut m = Manager::new(0);
    m.register(Handle::new(4));
    assert_eq!(m.instances.len(), 5);
    assert_eq!(m.count(), 1);
    m.register(Handle::new(4));
    assert_eq!(m.count(), 1);
}

#[test]
fn child_world_is_parent_world_times_local() {
    let (mut m, hs) = store(3);
    let (root, mid, leaf) = (hs[0], hs[1], hs[2]);
    m.parent(mid, root).unwrap();
    m.set_local(mid, Vec3::new(ONE, 2 * ONE, 0), id(), Vec3::new(2 * ONE, 2 * ONE, 2 * ONE));
    m.parent(leaf, mid).unwrap();
    m.set_local(leaf, Vec3::new(ONE, 0, 0), id(), unit());
    // The leaf sits one unit along x in a frame scaled by two and moved to (1, 2, 0).
    assert_eq!(m.get_position(leaf), Vec3::new(3 * ONE, 2 * ONE, 0));
    assert_eq!(m.get_scale(leaf), Vec3::new(2 * ONE, 2 * ONE, 2 * ONE));
    assert_eq!(m.get_orientation(leaf), id());
    let mid_world = m.instances[1].as_ref().unwrap().cached;
    let leaf_local = Mat::transform(Vec3::new(ONE, 0, 0), id(), unit());
    assert_eq!(m.instances[2].as_ref().unwrap().cached, mid_world.mul(&leaf_local));
}

#[test]
fn moving_a_parent_updates_descendants_only() {
    let (mut m, hs) = store(4);
    let (root, mid, leaf, other) = (hs[0], hs[1], hs[2], hs[3]);
    m.parent(mid, root).unwrap();
    m.parent(leaf, mid).unwrap();
    m.parent(other, root).unwrap();
    m.set_local(other, Vec3::new(0, 0, 5 * ONE), id(), unit());
    m.set_local(mid, Vec3::new(0, ONE, 0), id(), unit());
    assert_eq!(m.get_position(leaf), Vec3::new(0, ONE, 0));
    assert_eq!(m.get_position(other), Vec3::new(0, 0, 5 * ONE));
}

#[test]
fn parent_rejects_bad_links() {
    let (mut m, hs) = store(3);
    assert_eq!(m.parent(hs[0], hs[0]), Err(ParentError::SameEntity));
    m.parent(hs[1], hs[0]).unwrap();
    assert_eq!(m.parent(hs[1], hs[2]), Err(ParentError::AlreadyParented));
    m.parent(hs[2], hs[1]).unwrap();
    assert_eq!(m.parent(hs[0], hs[2]), Err(ParentError::Cycle));
    assert_eq!(m.instances[0].as_ref().unwrap().children, vec![1]);
    assert_eq!(m.instances[1].as_ref().unwrap().children, vec![2]);
}

#[test]
fn identity_round_trip_is_exact() {
    let p = Vec3::new(ONE, -ONE, 3 * ONE);
    let m = Mat::transform(p, id(), unit());
    let s = m.to_scale();
    assert_eq!(s, unit());
    assert_eq!(m.to_rotation_raw(s).to_quat(), id());
    assert_eq!(m.apply(Vec3::new(0, 0, 0)), p);
}

#[test]
fn scaled_rotation_round_trip() {
    // A quarter turn about z: (0, 0, sin 45°, cos 45°).
    let h = 46341;
    let q = Quat::new(0, 0, h, h);
    let scale = Vec3::new(2 * ONE, 3 * ONE, ONE / 2);
    let m = Mat::transform(Vec3::new(0, 0, 0), q, scale);
    let s = m.to_scale();
    for (got, want) in [(s.x, scale.x), (s.y, scale.y), (s.z, scale.z)] {
        assert!((got - want).abs() <= 8, "{} vs {}", got, want);
    }
    let r = m.to_rotation_raw(s).to_quat();
    for (got, want) in [(r.x, 0), (r.y, 0), (r.z, h), (r.w, h)] {
        assert!((got - want).abs() <= 16, "{} vs {}", got, want);
    }
    let norm = (r.x * r.x + r.y * r.y + r.z * r.z + r.w * r.w) as f64 / (ONE as f64 * ONE as f64);
    assert!((norm - 1.0).abs() < 1e-3);
}

#[test]
fn world_setters_and_raw_access() {
    let (mut m, hs) = store(2);
    let q = Quat::new(0, ONE, 0, 0);
    m.set(hs[1], Vec3::new(ONE, ONE, ONE), q, Vec3::new(2 * ONE, ONE, ONE));
    assert_eq!(m.get(hs[1]), (Vec3::new(ONE, ONE, ONE), q, Vec3::new(2 * ONE, ONE, ONE)));
    m.set_position(hs[0], Vec3::new(0, 7, 0));
    m.set_orientation(hs[0], q);
    m.set_scale(hs[0], Vec3::new(3, 3, 3));
    assert_eq!(m.get_position(hs[0]), Vec3::new(0, 7, 0));
    assert_eq!(m.get_orientation_raw(0), q);
    assert_eq!(m.get_scale(hs[0]), Vec3::new(3, 3, 3));
    m.set_position_raw(1, Vec3::new(5, 5, 5));
    m.set_orientation_raw(1, id());
    assert_eq!(m.get_position(hs[1]), Vec3::new(5, 5, 5));
    assert_eq!(m.get_orientation(hs[1]), id());
    assert_eq!(m.get_local_position_raw(1), Vec3::new(0, 0, 0));
}
