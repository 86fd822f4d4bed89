//! The transform store: one spatial transform per registered entity, linked
//! into a forest, with world values cached from the parent's world matrix.
use vstd::prelude::*;
use crate::entity::Handle;
use crate::fixed::ONE;
use crate::spatial::{Mat, Quat};
use crate::vector::Vec3;

verus! {

#[derive(Clone, PartialEq, Eq, Debug)]
pub struct Transform {
    pub position: Vec3,
    pub local_position: Vec3,
    pub orientation: Quat,
    pub local_orientation: Quat,
    pub scale: Vec3,
    pub local_scale: Vec3,
    pub parent: Option<usize>,
    pub children: Vec<usize>,
    pub cached: Mat,
}

impl Transform {
    pub open spec fn wf(&self) -> bool {
        &&& self.position.wf()
        &&& self.local_position.wf()
        &&& self.orientation.wf()
        &&& self.local_orientation.wf()
        &&& self.scale.wf()
        &&& self.local_scale.wf()
        &&& self.cached.wf()
    }

    /// Identity orientation, unit scale, zero position, no links.
    pub open spec fn is_blank(&self) -> bool {
        let zero = Vec3 { x: 0, y: 0, z: 0 };
        let one = Vec3 { x: ONE, y: ONE, z: ONE };
        let id = Quat { x: 0, y: 0, z: 0, w: ONE };
        &&& self.position == zero
        &&& self.local_position == zero
        &&& self.orientation == id
        &&& self.local_orientation == id
        &&& self.scale == one
        &&& self.local_scale == one
        &&& self.parent is None
        &&& self.children@.len() == 0
        &&& self.cached == Mat::id_spec()
    }

    /// The same links and local values.
    pub open spec fn same_links(&self, o: &Transform) -> bool {
        &&& self.parent == o.parent
        &&& self.children@ == o.children@
        &&& self.local_position == o.local_position
        &&& self.local_orientation == o.local_orientation
        &&& self.local_scale == o.local_scale
    }

    /// The local transform matrix.
    pub open spec fn local_spec(&self) -> Mat {
        Mat::transform_spec(self.local_position, self.local_orientation, self.local_scale)
    }

    pub fn blank() -> (r: Transform)
        ensures
            r.is_blank(),
            r.wf(),
    {
        let one = Vec3::new(ONE, ONE, ONE);
        Transform {
            position: Vec3::zero(),
            local_position: Vec3::zero(),
            orientation: Quat::id(),
            local_orientation: Quat::id(),
            scale: one,
            local_scale: one,
            parent: None,
            children: Vec::new(),
            cached: Mat::id(),
        }
    }
}

/// `t` with its world values resolved under a parent whose world matrix is
/// `parent_world`: the world matrix is `parent_world * local`; scale is the
/// length of its basis vectors, orientation comes from the basis with that
/// scale divided out, and position is the image of the origin.
pub open spec fn resolve(t: Transform, parent_world: Mat) -> Transform {
    let world = parent_world.mul_spec(t.local_spec());
    let scale = world.to_scale_spec();
    Transform {
        position: world.apply_spec(Vec3 { x: 0, y: 0, z: 0 }),
        orientation: world.to_rotation_raw_spec(scale).to_quat_spec(),
        scale,
        cached: world,
        ..t
    }
}

/// Why a transform cannot be linked under another.
#[derive(Clone, Copy, PartialEq, Eq, Structural, Debug)]
pub enum ParentError {
    /// An entity cannot be its own parent.
    SameEntity,
    /// The entity already has a parent.
    AlreadyParented,
    /// The would-be parent lies below the entity, so the link would close a
    /// cycle.
    Cycle,
}

/// A resolved transform's world matrix is its parent's world matrix times its
/// own local matrix, and its world values are read off that product.
pub proof fn lemma_world_composition(t: Transform, parent_world: Mat)
    ensures
        resolve(t, parent_world).cached == parent_world.mul_spec(t.local_spec()),
        resolve(t, parent_world).scale == resolve(t, parent_world).cached.to_scale_spec(),
        resolve(t, parent_world).position == resolve(t, parent_world).cached.apply_spec(
            Vec3 { x: 0, y: 0, z: 0 },
        ),
        resolve(resolve(t, parent_world), parent_world) == resolve(t, parent_world),
        resolve(t, parent_world).same_links(&t),
{
}

/// Sparse store of transforms, indexed by entity index.
pub struct Manager {
    pub instances: Vec<Option<Transform>>,
    /// Every parent outranks its children, so the links hold no cycle.
    pub rank: Ghost<spec_fn(int) -> nat>,
    /// Every rank is below this bound.
    pub top: Ghost<nat>,
}

/// The number of registered slots among the first `k`.
pub open spec fn filled(slots: Seq<Option<Transform>>, k: int) -> nat
    decreases k,
{
    if k <= 0 {
        0
    } else {
        filled(slots, k - 1) + if slots[k - 1] is Some {
            1nat
        } else {
            0nat
        }
    }
}

impl Manager {
    pub open spec fn registered(&self, i: int) -> bool {
        0 <= i < self.instances@.len() && self.instances@[i] is Some
    }

    pub open spec fn slot(&self, i: int) -> Transform {
        self.instances@[i]->Some_0
    }

    pub open spec fn rank_of(&self, i: int) -> nat {
        (self.rank@)(i)
    }

    /// Links point at registered transforms and agree in both directions,
    /// and ranks strictly grow from child to parent.
    pub open spec fn links_wf(&self) -> bool {
        &&& self.top@ > 0
        &&& self.instances@.len() <= usize::MAX
        &&& forall|i: int| #[trigger] self.registered(i) ==> self.rank_of(i) < self.top@
        &&& forall|i: int|
            #[trigger] self.registered(i) && self.slot(i).parent is Some ==> {
                let p = self.slot(i).parent->Some_0 as int;
                self.registered(p) && self.rank_of(i) < self.rank_of(p)
                    && self.slot(p).children@.contains(i as usize)
            }
        &&& forall|i: int, j: int|
            self.registered(i) && 0 <= j < self.slot(i).children@.len() ==> {
                let c = #[trigger] self.slot(i).children@[j] as int;
                self.registered(c) && self.slot(c).parent == Some(i as usize)
            }
    }

    pub open spec fn wf(&self) -> bool {
        &&& forall|i: int| #[trigger] self.registered(i) ==> self.slot(i).wf()
        &&& self.links_wf()
    }

    /// `o` has the same slots, links and ranks as `self`.
    pub open spec fn forest_kept(&self, o: &Manager) -> bool {
        &&& self.instances@.len() == o.instances@.len()
        &&& self.rank == o.rank
        &&& self.top == o.top
        &&& forall|i: int| #[trigger] self.registered(i) == o.registered(i)
        &&& forall|i: int|
            #[trigger] self.registered(i) ==> self.slot(i).parent == o.slot(i).parent
                && self.slot(i).children@ == o.slot(i).children@
    }

    /// `o` has the same slots, links, local values and ranks as `self`.
    pub open spec fn links_kept(&self, o: &Manager) -> bool {
        &&& self.forest_kept(o)
        &&& forall|i: int| #[trigger] self.registered(i) ==> self.slot(i).same_links(&o.slot(i))
    }

    /// The world values of `i` are those its parent's world matrix gives.
    pub open spec fn resolved(&self, i: int) -> bool {
        let p = self.slot(i).parent->Some_0 as int;
        self.slot(i) == resolve(self.slot(i), self.slot(p).cached)
    }

    /// Following parent links `n` times from `k`, stopping at a root.
    pub open spec fn up(&self, k: int, n: nat) -> int
        decreases n,
    {
        if n == 0 {
            k
        } else {
            match self.slot(k).parent {
                Some(q) => self.up(q as int, (n - 1) as nat),
                None => k,
            }
        }
    }

    /// `a` is `k` or one of its ancestors.
    pub open spec fn is_above(&self, a: int, k: int) -> bool {
        exists|n: nat| self.up(k, n) == a
    }

    pub proof fn lemma_up_root(&self, k: int, n: nat)
        requires
            self.slot(k).parent is None,
        ensures
            self.up(k, n) == k,
    {
    }

    pub proof fn lemma_up_add(&self, k: int, a: nat, b: nat)
        ensures
            self.up(k, a + b) == self.up(self.up(k, a), b),
        decreases a,
    {
        if a > 0 {
            match self.slot(k).parent {
                Some(q) => {
                    self.lemma_up_add(q as int, (a - 1) as nat, b);
                    assert((a + b - 1) as nat == ((a - 1) as nat + b) as nat);
                },
                None => {
                    self.lemma_up_root(k, b);
                    self.lemma_up_root(k, a + b);
                },
            }
        }
    }

    /// Walks agree between two stores with the same links.
    pub proof fn lemma_up_kept(&self, o: &Manager, k: int, n: nat)
        requires
            o.wf(),
            self.links_kept(o),
            o.registered(k),
        ensures
            self.up(k, n) == o.up(k, n),
        decreases n,
    {
        assert(self.registered(k));
        assert(self.slot(k).same_links(&o.slot(k)));
        if n > 0 {
            match o.slot(k).parent {
                Some(q) => {
                    self.lemma_up_kept(o, q as int, (n - 1) as nat);
                },
                None => {},
            }
        }
    }

    proof fn lemma_kept_trans(&self, b: &Manager, c: &Manager)
        requires
            self.links_kept(b),
            b.links_kept(c),
        ensures
            self.links_kept(c),
    {
        assert forall|i: int| #[trigger] self.registered(i) implies self.slot(i).same_links(
            &c.slot(i),
        ) by {
            assert(b.registered(i));
            assert(self.slot(i).same_links(&b.slot(i)));
            assert(b.slot(i).same_links(&c.slot(i)));
        }
        assert forall|i: int| #[trigger] self.registered(i) == c.registered(i) by {
            assert(self.registered(i) == b.registered(i));
        }
        assert forall|i: int| #[trigger] self.registered(i) implies self.slot(i).parent
            == c.slot(i).parent && self.slot(i).children@ == c.slot(i).children@ by {
            assert(b.registered(i));
            assert(self.slot(i).same_links(&b.slot(i)));
            assert(b.slot(i).same_links(&c.slot(i)));
        }
    }

    /// Walking up from a registered transform stays on registered
    /// transforms, and never lowers the rank.
    pub proof fn lemma_up_rank(&self, k: int, n: nat)
        requires
            self.wf(),
            self.registered(k),
        ensures
            self.registered(self.up(k, n)),
            self.rank_of(self.up(k, n)) >= self.rank_of(k),
        decreases n,
    {
        if n > 0 {
            match self.slot(k).parent {
                Some(q) => {
                    self.lemma_up_rank(q as int, (n - 1) as nat);
                },
                None => {},
            }
        }
    }

    proof fn lemma_last_step(&self, k: int, i: int, n: nat) -> (m: nat)
        requires
            self.up(k, n) == i,
            k != i,
        ensures
            1 <= m <= n,
            self.up(k, m) == i,
            self.up(k, (m - 1) as nat) != i,
        decreases n,
    {
        if self.up(k, (n - 1) as nat) != i {
            n
        } else {
            self.lemma_last_step(k, i, (n - 1) as nat)
        }
    }

    /// A transform strictly below `i` is, or lies below, a child of `i`.
    proof fn lemma_child_toward(&self, k: int, i: int) -> (j: int)
        requires
            self.wf(),
            self.registered(k),
            self.is_above(i, k),
            k != i,
        ensures
            self.registered(i),
            0 <= j < self.slot(i).children@.len(),
            self.is_above(self.slot(i).children@[j] as int, k),
    {
        let n = choose|n: nat| self.up(k, n) == i;
        let m = self.lemma_last_step(k, i, n);
        let c = self.up(k, (m - 1) as nat);
        self.lemma_up_add(k, (m - 1) as nat, 1);
        assert((m - 1 + 1) as nat == m);
        self.lemma_up_rank(k, (m - 1) as nat);
        self.lemma_up_rank(k, m);
        let q = self.slot(c).parent->Some_0 as int;
        assert(self.slot(c).parent is Some);
        assert(self.up(q, 0) == q);
        assert(q == i);
        assert(self.slot(i).children@.contains(c as usize));
        let j = choose|j: int| 0 <= j < self.slot(i).children@.len() && self.slot(i).children@[j] == c as usize;
        assert(self.up(k, (m - 1) as nat) == c);
        j
    }

    proof fn lemma_kept_wf(&self, o: &Manager)
        requires
            o.wf(),
            self.forest_kept(o),
            forall|i: int| #[trigger] self.registered(i) ==> self.slot(i).wf(),
        ensures
            self.wf(),
    {
        assert forall|i: int|
            #[trigger] self.registered(i) && self.slot(i).parent is Some implies {
            let p = self.slot(i).parent->Some_0 as int;
            self.registered(p) && self.rank_of(i) < self.rank_of(p)
        } by {
            assert(o.registered(i));
            let p = o.slot(i).parent->Some_0 as int;
            assert(o.registered(p));
            assert(self.registered(p) == o.registered(p));
        }
        assert forall|i: int, j: int|
            self.registered(i) && 0 <= j < self.slot(i).children@.len() implies {
            let c = #[trigger] self.slot(i).children@[j] as int;
            self.registered(c) && self.slot(c).parent == Some(i as usize)
        } by {
            assert(o.registered(i));
            assert(o.slot(i).children@.len() == self.slot(i).children@.len());
            let c = o.slot(i).children@[j] as int;
            assert(o.registered(c));
            assert(self.registered(c) == o.registered(c));
        }
        assert forall|i: int| #[trigger] self.registered(i) implies self.rank_of(i) < self.top@ by {
            assert(o.registered(i));
        }
        assert(self.top@ > 0);
    }

    pub fn new(hint: usize) -> (r: Manager)
        ensures
            r.wf(),
            r.instances@.len() == 0,
    {
        Manager {
            instances: Vec::with_capacity(hint),
            rank: Ghost(|i: int| 0nat),
            top: Ghost(1),
        }
    }

    /// The number of registered transforms.
    pub fn count(&self) -> (r: usize)
        ensures
            r == filled(self.instances@, self.instances@.len() as int),
    {
        let mut n: usize = 0;
        let mut k: usize = 0;
        while k < self.instances.len()
            invariant
                0 <= k <= self.instances@.len(),
                n == filled(self.instances@, k as int),
                n <= k,
            decreases self.instances@.len() - k,
        {
            if self.instances[k].is_some() {
                n = n + 1;
            }
            k = k + 1;
        }
        n
    }

    /// Moves the transform at `i` out, leaving the slot empty.
    fn take(&mut self, i: usize) -> (t: Transform)
        requires
            old(self).registered(i as int),
        ensures
            t == old(self).slot(i as int),
            final(self).instances@ == old(self).instances@.update(i as int, None),
            final(self).rank == old(self).rank,
            final(self).top == old(self).top,
    {
        let mut slot: Option<Transform> = None;
        std::mem::swap(&mut self.instances[i], &mut slot);
        slot.unwrap()
    }

    /// Puts back at `i` a transform with the links and local values that
    /// `orig` holds there.
    fn put(&mut self, i: usize, t: Transform, Ghost(orig): Ghost<Manager>)
        requires
            orig.wf(),
            orig.registered(i as int),
            old(self).instances@ == orig.instances@.update(i as int, None),
            old(self).rank == orig.rank,
            old(self).top == orig.top,
            t.wf(),
            t.same_links(&orig.slot(i as int)),
        ensures
            final(self).instances@ == orig.instances@.update(i as int, Some(t)),
            final(self).wf(),
            final(self).links_kept(&orig),
            final(self).rank == orig.rank,
            final(self).top == orig.top,
    {
        self.instances.set(i, Some(t));
        proof {
            assert forall|k: int| #[trigger] self.registered(k) == orig.registered(k) by {}
            assert forall|k: int| #[trigger] self.registered(k) implies self.slot(k).same_links(
                &orig.slot(k),
            ) by {}
            assert forall|k: int| #[trigger] self.registered(k) implies self.slot(k).wf() by {
                if k != i {
                    assert(orig.registered(k));
                }
            }
            assert forall|k: int| #[trigger] self.registered(k) implies self.slot(k).parent
                == orig.slot(k).parent && self.slot(k).children@ == orig.slot(k).children@ by {}
            self.lemma_kept_wf(&orig);
        }
    }

    /// Grows the store to hold the entity's slot and installs a blank
    /// transform there; a transform already registered is kept as it is, so
    /// its links stay intact.
    pub fn register(&mut self, entity: Handle)
        requires
            old(self).wf(),
        ensures
            final(self).wf(),
            final(self).registered(entity.index as int),
            old(self).registered(entity.index as int) ==> final(self).instances@ == old(
                self,
            ).instances@,
            !old(self).registered(entity.index as int) ==> final(self).slot(
                entity.index as int,
            ).is_blank(),
            final(self).instances@.len() == if entity.index < old(self).instances@.len() {
                old(self).instances@.len() as int
            } else {
                entity.index as int + 1
            },
            forall|i: int|
                0 <= i < old(self).instances@.len() && i != entity.index ==> #[trigger] final(self).instances@[i]
                    == old(self).instances@[i],
            forall|i: int|
                old(self).instances@.len() <= i < final(self).instances@.len() && i
                    != entity.index ==> #[trigger] final(self).instances@[i] is None,
    {
        let i = entity.get_index() as usize;
        while self.instances.len() <= i
            invariant
                forall|k: int|
                    0 <= k < old(self).instances@.len() ==> #[trigger] self.instances@[k]
                        == old(self).instances@[k],
                forall|k: int|
                    old(self).instances@.len() <= k < self.instances@.len()
                        ==> #[trigger] self.instances@[k] is None,
                old(self).instances@.len() <= self.instances@.len(),
                self.instances@.len() <= if i < old(self).instances@.len() {
                    old(self).instances@.len() as int
                } else {
                    i + 1
                },
                self.rank == old(self).rank,
                self.top == old(self).top,
            decreases i + 1 - self.instances@.len(),
        {
            self.instances.push(None);
        }
        if self.instances[i].is_none() {
            self.instances.set(i, Some(Transform::blank()));
            let ghost old_rank = self.rank@;
            self.rank = Ghost(|k: int| if k == i { 0nat } else { old_rank(k) });
        }
        proof {
            let o = old(self);
            assert forall|k: int| #[trigger] self.registered(k) implies self.slot(k).wf() by {
                if k != i {
                    assert(o.registered(k));
                }
            }
            assert forall|k: int| #[trigger] self.registered(k) implies self.rank_of(k) < self.top@ by {
                if k != i {
                    assert(o.registered(k));
                }
            }
            assert forall|k: int|
                #[trigger] self.registered(k) && self.slot(k).parent is Some implies {
                let p = self.slot(k).parent->Some_0 as int;
                self.registered(p) && self.rank_of(k) < self.rank_of(p)
                    && self.slot(p).children@.contains(k as usize)
            } by {
                assert(k != i || o.registered(k));
                assert(o.registered(k));
                let p = o.slot(k).parent->Some_0 as int;
                assert(o.registered(p));
                assert(self.instances@[p] == o.instances@[p]);
            }
            assert forall|k: int, j: int|
                self.registered(k) && 0 <= j < self.slot(k).children@.len() implies {
                let c = #[trigger] self.slot(k).children@[j] as int;
                self.registered(c) && self.slot(c).parent == Some(k as usize)
            } by {
                assert(k != i || o.registered(k));
                assert(o.registered(k));
                let c = o.slot(k).children@[j] as int;
                assert(o.registered(c));
            }
        }
    }

    /// Recomputes the world values of `i` from its parent's world matrix.
    fn update_cached(&mut self, i: usize)
        requires
            old(self).wf(),
            old(self).registered(i as int),
            old(self).slot(i as int).parent is Some,
        ensures
            final(self).wf(),
            final(self).links_kept(old(self)),
            final(self).instances@ == old(self).instances@.update(
                i as int,
                Some(
                    resolve(
                        old(self).slot(i as int),
                        old(self).slot(old(self).slot(i as int).parent->Some_0 as int).cached,
                    ),
                ),
            ),
    {
        let ghost orig = *old(self);
        let p = self.instances[i].as_ref().unwrap().parent.unwrap();
        assert(orig.registered(p as int));
        let parent_world = self.instances[p].as_ref().unwrap().cached;
        let mut t = self.take(i);
        let local = Mat::transform(t.local_position, t.local_orientation, t.local_scale);
        let world = parent_world.mul(&local);
        let scale = world.to_scale();
        t.scale = scale;
        t.orientation = world.to_rotation_raw(scale).to_quat();
        t.position = world.apply(Vec3::zero());
        t.cached = world;
        self.put(i, t, Ghost(orig));
    }

    /// Recomputes the world values of every child of `i`, each before its
    /// own children, depth first. Only transforms below `i` change.
    #[verifier::rlimit(60)]
    fn update_children(&mut self, i: usize, Ghost(bound): Ghost<nat>)
        requires
            old(self).wf(),
            old(self).registered(i as int),
            old(self).rank_of(i as int) <= bound,
        ensures
            final(self).wf(),
            final(self).links_kept(old(self)),
            forall|k: int|
                0 <= k < old(self).instances@.len() && !(old(self).registered(k) && old(
                    self,
                ).rank_of(k) < old(self).rank_of(i as int) && old(self).is_above(i as int, k))
                    ==> #[trigger] final(self).instances@[k] == old(self).instances@[k],
            forall|k: int|
                old(self).registered(k) && k != i && #[trigger] old(self).is_above(i as int, k)
                    ==> final(self).resolved(k),
        decreases bound,
    {
        let ghost orig = *old(self);
        let n = self.instances[i].as_ref().unwrap().children.len();
        let mut j: usize = 0;
        while j < n
            invariant
                0 <= j <= n,
                self.wf(),
                self.links_kept(&orig),
                orig.wf(),
                orig.registered(i as int),
                orig.rank_of(i as int) <= bound,
                n == orig.slot(i as int).children@.len(),
                forall|k: int|
                    0 <= k < orig.instances@.len() && !(orig.registered(k) && orig.rank_of(k)
                        < orig.rank_of(i as int) && orig.is_above(i as int, k))
                        ==> #[trigger] self.instances@[k] == orig.instances@[k],
                forall|m: int, k: int|
                    0 <= m < j && orig.registered(k) && #[trigger] orig.is_above(
                        orig.slot(i as int).children@[m] as int,
                        k,
                    ) ==> self.resolved(k),
            decreases n - j,
        {
            assert(self.registered(i as int));
            assert(self.slot(i as int).same_links(&orig.slot(i as int)));
            let c = self.instances[i].as_ref().unwrap().children[j];
            assert(orig.registered(i as int) && 0 <= j < orig.slot(i as int).children@.len());
            assert(orig.registered(c as int));
            assert(orig.slot(c as int).parent == Some(i));
            assert(self.slot(c as int).same_links(&orig.slot(c as int)));
            assert(orig.rank_of(c as int) < orig.rank_of(i as int));
            let ghost before = *self;
            self.update_cached(c);
            let ghost mid = *self;
            assert(mid.rank == orig.rank);
            assert(mid.rank_of(c as int) < orig.rank_of(i as int));
            self.update_children(c, Ghost(orig.rank_of(c as int)));
            proof {
                assert forall|k: int| #[trigger] self.registered(k) == orig.registered(k) by {
                    assert(mid.registered(k) == before.registered(k));
                }
                assert forall|k: int| #[trigger] self.registered(k) implies self.slot(k).same_links(
                    &orig.slot(k),
                ) by {
                    assert(mid.registered(k) == before.registered(k));
                    assert(self.slot(k).same_links(&mid.slot(k)));
                    assert(mid.slot(k).same_links(&before.slot(k)));
                    assert(before.slot(k).same_links(&orig.slot(k)));
                }
                assert forall|k: int|
                    0 <= k < orig.instances@.len() && !(orig.registered(k) && orig.rank_of(k)
                        < orig.rank_of(i as int) && orig.is_above(i as int, k)) implies #[trigger] self.instances@[k]
                    == orig.instances@[k] by {
                    assert(orig.up(c as int, 0) == c as int);
                    assert(orig.up(i as int, 0) == i as int);
                    assert(orig.up(c as int, 1) == i as int);
                    assert(orig.is_above(i as int, c as int));
                    assert(k != c);
                    if mid.registered(k) && mid.rank_of(k) < mid.rank_of(c as int) && mid.is_above(
                        c as int,
                        k,
                    ) {
                        let m = choose|m: nat| mid.up(k, m) == c as int;
                        assert(mid.links_kept(&orig));
                        assert(orig.registered(k));
                        mid.lemma_up_kept(&orig, k, m);
                        orig.lemma_up_add(k, m, 1);
                        assert(orig.up(k, m + 1) == i as int);
                        assert(orig.is_above(i as int, k));
                    }
                    assert(self.instances@[k] == mid.instances@[k]);
                    assert(mid.instances@[k] == before.instances@[k]);
                }
                self.lemma_children_pass(orig, before, mid, i as int, j as int, c as int);
            }
            j = j + 1;
        }
        proof {
            assert forall|k: int|
                orig.registered(k) && k != i && #[trigger] orig.is_above(i as int, k)
                implies self.resolved(k) by {
                let m = orig.lemma_child_toward(k, i as int);
                assert(orig.is_above(orig.slot(i as int).children@[m] as int, k));
            }
        }
    }

    /// One child's pass of `update_children` keeps earlier children's
    /// subtrees resolved and resolves the child's own subtree.
    #[verifier::rlimit(80)]
    proof fn lemma_children_pass(
        &self,
        orig: Manager,
        before: Manager,
        mid: Manager,
        i: int,
        j: int,
        c: int,
    )
        requires
            orig.wf(),
            before.wf(),
            mid.wf(),
            self.wf(),
            orig.registered(i),
            0 <= j < orig.slot(i).children@.len(),
            c == orig.slot(i).children@[j] as int,
            orig.registered(c),
            orig.slot(c).parent == Some(i as usize),
            orig.rank_of(c) < orig.rank_of(i),
            before.links_kept(&orig),
            mid.links_kept(&before),
            self.links_kept(&mid),
            before.instances@[i] == orig.instances@[i],
            mid.instances@ == before.instances@.update(
                c,
                Some(resolve(before.slot(c), before.slot(i).cached)),
            ),
            forall|k: int|
                0 <= k < mid.instances@.len() && !(mid.registered(k) && mid.rank_of(k)
                    < mid.rank_of(c) && mid.is_above(c, k))
                    ==> #[trigger] self.instances@[k] == mid.instances@[k],
            forall|k: int|
                mid.registered(k) && k != c && #[trigger] mid.is_above(c, k) ==> self.resolved(k),
            forall|m: int, k: int|
                0 <= m < j && orig.registered(k) && #[trigger] orig.is_above(
                    orig.slot(i).children@[m] as int,
                    k,
                ) ==> before.resolved(k),
        ensures
            forall|m: int, k: int|
                0 <= m < j + 1 && orig.registered(k) && #[trigger] orig.is_above(
                    orig.slot(i).children@[m] as int,
                    k,
                ) ==> self.resolved(k),
    {
        mid.lemma_kept_trans(&before, &orig);
        self.lemma_kept_trans(&mid, &orig);
        assert(orig.up(c, 0) == c);
        assert(orig.up(i, 0) == i);
        assert(orig.up(c, 1) == i);
        // Transforms in the child's subtree, as the pass sees them.
        assert forall|k: int| orig.registered(k) && orig.is_above(c, k) implies self.resolved(k) by {
            if k == c {
                assert(self.instances@[c] == mid.instances@[c]);
                assert(self.instances@[i] == mid.instances@[i]) by {
                    if mid.registered(i) && mid.rank_of(i) < mid.rank_of(c) && mid.is_above(c, i) {
                    }
                }
            } else {
                let n = choose|n: nat| orig.up(k, n) == c;
                mid.lemma_up_kept(&orig, k, n);
                assert(mid.is_above(c, k));
            }
        }
        assert forall|m: int, k: int|
            0 <= m < j + 1 && orig.registered(k) && #[trigger] orig.is_above(
                orig.slot(i).children@[m] as int,
                k,
            ) implies self.resolved(k) by {
            if !orig.is_above(c, k) {
                let cm = orig.slot(i).children@[m] as int;
                assert(m < j);
                assert(before.resolved(k));
                assert(k != c) by {
                    assert(orig.up(c, 0) == c);
                }
                // Neither `k` nor its parent lies in the child's subtree.
                assert(self.instances@[k] == before.instances@[k]) by {
                    if mid.registered(k) && mid.is_above(c, k) {
                        let n = choose|n: nat| mid.up(k, n) == c;
                        mid.lemma_up_kept(&orig, k, n);
                    }
                }
                assert(before.registered(k));
                let q = before.slot(k).parent->Some_0 as int;
                assert(before.slot(k).same_links(&orig.slot(k)));
                if k == cm {
                    assert(orig.registered(cm));
                    assert(q == i);
                    assert(self.instances@[i] == before.instances@[i]) by {
                        if mid.registered(i) && mid.is_above(c, i) {
                            let n = choose|n: nat| mid.up(i, n) == c;
                            mid.lemma_up_kept(&orig, i, n);
                            orig.lemma_up_rank(i, n);
                        }
                    }
                } else {
                    let n = choose|n: nat| orig.up(k, n) == cm;
                    assert(n > 0);
                    assert(orig.slot(k).parent is Some) by {
                        if orig.slot(k).parent is None {
                            orig.lemma_up_root(k, n);
                        }
                    }
                    assert(orig.up(k, n) == orig.up(q, (n - 1) as nat));
                    orig.lemma_up_rank(k, 1);
                    assert(orig.up(q, 0) == q);
                    assert(orig.up(k, 1) == q);
                    assert(orig.registered(q));
                    assert(!orig.is_above(c, q)) by {
                        if orig.is_above(c, q) {
                            let n2 = choose|n2: nat| orig.up(q, n2) == c;
                            orig.lemma_up_add(k, 1, n2);
                            assert(orig.up(k, 1 + n2) == c);
                        }
                    }
                    assert(q != c);
                    assert(self.instances@[q] == before.instances@[q]) by {
                        if mid.registered(q) && mid.is_above(c, q) {
                            let n3 = choose|n3: nat| mid.up(q, n3) == c;
                            mid.lemma_up_kept(&orig, q, n3);
                        }
                    }
                }
            }
        }
    }

    /// Writes the world position of the transform at `index` directly. This is
    /// the fast path for stores that share this store's index space.
    pub fn set_position_raw(&mut self, index: usize, value: Vec3)
        requires
            old(self).wf(),
            old(self).registered(index as int),
            value.wf(),
        ensures
            final(self).wf(),
            final(self).links_kept(old(self)),
            final(self).instances@ == old(self).instances@.update(
                index as int,
                Some(Transform { position: value, ..old(self).slot(index as int) }),
            ),
    {
        let ghost orig = *old(self);
        let mut t = self.take(index);
        t.position = value;
        self.put(index, t, Ghost(orig));
    }

    /// Writes the world orientation of the transform at `index` directly.
    pub fn set_orientation_raw(&mut self, index: usize, value: Quat)
        requires
            old(self).wf(),
            old(self).registered(index as int),
            value.wf(),
        ensures
            final(self).wf(),
            final(self).links_kept(old(self)),
            final(self).instances@ == old(self).instances@.update(
                index as int,
                Some(Transform { orientation: value, ..old(self).slot(index as int) }),
            ),
    {
        let ghost orig = *old(self);
        let mut t = self.take(index);
        t.orientation = value;
        self.put(index, t, Ghost(orig));
    }

    /// The local position of the transform at `index`.
    pub fn get_local_position_raw(&self, index: usize) -> (r: Vec3)
        requires
            self.registered(index as int),
        ensures
            r == self.slot(index as int).local_position,
    {
        self.instances[index].as_ref().unwrap().local_position
    }

    /// The world orientation of the transform at `index`.
    pub fn get_orientation_raw(&self, index: usize) -> (r: Quat)
        requires
            self.registered(index as int),
        ensures
            r == self.slot(index as int).orientation,
    {
        self.instances[index].as_ref().unwrap().orientation
    }

    /// Writes the world values of an entity directly. For an entity with a
    /// parent these are overwritten when the parent's subtree is next
    /// recomputed, and its children are not updated.
    pub fn set(&mut self, entity: Handle, position: Vec3, orientation: Quat, scale: Vec3)
        requires
            old(self).wf(),
            old(self).registered(entity.index as int),
            position.wf(),
            orientation.wf(),
            scale.wf(),
        ensures
            final(self).wf(),
            final(self).links_kept(old(self)),
            final(self).instances@ == old(self).instances@.update(
                entity.index as int,
                Some(
                    Transform {
                        position,
                        orientation,
                        scale,
                        ..old(self).slot(entity.index as int)
                    },
                ),
            ),
    {
        let ghost orig = *old(self);
        let i = entity.get_index() as usize;
        let mut t = self.take(i);
        t.position = position;
        t.orientation = orientation;
        t.scale = scale;
        self.put(i, t, Ghost(orig));
    }

    pub fn set_position(&mut self, entity: Handle, position: Vec3)
        requires
            old(self).wf(),
            old(self).registered(entity.index as int),
            position.wf(),
        ensures
            final(self).wf(),
            final(self).links_kept(old(self)),
            final(self).instances@ == old(self).instances@.update(
                entity.index as int,
                Some(Transform { position, ..old(self).slot(entity.index as int) }),
            ),
    {
        self.set_position_raw(entity.get_index() as usize, position);
    }

    pub fn set_orientation(&mut self, entity: Handle, orientation: Quat)
        requires
            old(self).wf(),
            old(self).registered(entity.index as int),
            orientation.wf(),
        ensures
            final(self).wf(),
            final(self).links_kept(old(self)),
            final(self).instances@ == old(self).instances@.update(
                entity.index as int,
                Some(Transform { orientation, ..old(self).slot(entity.index as int) }),
            ),
    {
        self.set_orientation_raw(entity.get_index() as usize, orientation);
    }

    pub fn set_scale(&mut self, entity: Handle, scale: Vec3)
        requires
            old(self).wf(),
            old(self).registered(entity.index as int),
            scale.wf(),
        ensures
            final(self).wf(),
            final(self).links_kept(old(self)),
            final(self).instances@ == old(self).instances@.update(
                entity.index as int,
                Some(Transform { scale, ..old(self).slot(entity.index as int) }),
            ),
    {
        let ghost orig = *old(self);
        let i = entity.get_index() as usize;
        let mut t = self.take(i);
        t.scale = scale;
        self.put(i, t, Ghost(orig));
    }

    /// The world position, orientation and scale of an entity.
    pub fn get(&self, entity: Handle) -> (r: (Vec3, Quat, Vec3))
        requires
            self.registered(entity.index as int),
        ensures
            r == (
                self.slot(entity.index as int).position,
                self.slot(entity.index as int).orientation,
                self.slot(entity.index as int).scale,
            ),
    {
        let t = self.instances[entity.get_index() as usize].as_ref().unwrap();
        (t.position, t.orientation, t.scale)
    }

    pub fn get_position(&self, entity: Handle) -> (r: Vec3)
        requires
            self.registered(entity.index as int),
        ensures
            r == self.slot(entity.index as int).position,
    {
        self.instances[entity.get_index() as usize].as_ref().unwrap().position
    }

    pub fn get_orientation(&self, entity: Handle) -> (r: Quat)
        requires
            self.registered(entity.index as int),
        ensures
            r == self.slot(entity.index as int).orientation,
    {
        self.get_orientation_raw(entity.get_index() as usize)
    }

    pub fn get_scale(&self, entity: Handle) -> (r: Vec3)
        requires
            self.registered(entity.index as int),
        ensures
            r == self.slot(entity.index as int).scale,
    {
        self.instances[entity.get_index() as usize].as_ref().unwrap().scale
    }

    /// Links `entity` under `parent` and recomputes the world values of
    /// `entity` and then of everything below it, each before its children.
    /// Refused when the two are the same entity, when `entity` already has a
    /// parent, or when `parent` lies below `entity`.
    #[verifier::rlimit(40)]
    pub fn parent(&mut self, entity: Handle, parent: Handle) -> (r: Result<(), ParentError>)
        requires
            old(self).wf(),
            old(self).registered(entity.index as int),
            old(self).registered(parent.index as int),
        ensures
            final(self).wf(),
            (r == Err::<(), ParentError>(ParentError::SameEntity)) <==> entity.index == parent.index,
            (r == Err::<(), ParentError>(ParentError::AlreadyParented)) <==> entity.index
                != parent.index && old(self).slot(entity.index as int).parent is Some,
            (r == Err::<(), ParentError>(ParentError::Cycle)) <==> entity.index != parent.index
                && old(self).slot(entity.index as int).parent is None && old(self).is_above(
                entity.index as int,
                parent.index as int,
            ),
            r is Err ==> final(self).instances@ == old(self).instances@,
            r is Ok ==> {
                let (e, p) = (entity.index as int, parent.index as int);
                &&& final(self).instances@.len() == old(self).instances@.len()
                &&& forall|k: int| #[trigger] final(self).registered(k) == old(self).registered(k)
                &&& final(self).slot(e).parent == Some(p as usize)
                &&& final(self).slot(p).children@ == old(self).slot(p).children@.push(e as usize)
                &&& final(self).slot(p) == (Transform {
                    children: final(self).slot(p).children,
                    ..old(self).slot(p)
                })
                &&& final(self).resolved(e)
                &&& final(self).slot(e) == resolve(
                    Transform { parent: Some(p as usize), ..old(self).slot(e) },
                    old(self).slot(p).cached,
                )
                &&& forall|k: int|
                    #[trigger] final(self).registered(k) && k != e && k != p
                        ==> final(self).slot(k).same_links(&old(self).slot(k))
                &&& forall|k: int|
                    0 <= k < old(self).instances@.len() && k != e && k != p
                        && !final(self).is_above(e, k)
                        ==> #[trigger] final(self).instances@[k] == old(self).instances@[k]
                &&& forall|k: int|
                    final(self).registered(k) && k != e && #[trigger] final(self).is_above(e, k)
                        ==> final(self).resolved(k)
            },
    {
        let e = entity.get_index() as usize;
        let p = parent.get_index() as usize;
        if e == p {
            return Err(ParentError::SameEntity);
        }
        if self.instances[e].as_ref().unwrap().parent.is_some() {
            return Err(ParentError::AlreadyParented);
        }
        let ghost orig = *old(self);
        // Walk up from the parent: meeting the entity means a cycle.
        let mut cur = p;
        let ghost mut m: nat = 0;
        loop
            invariant
                self == old(self),
                orig == *old(self),
                orig.wf(),
                orig.registered(cur as int),
                orig.up(p as int, m) == cur as int,
                forall|j: nat| j < m ==> #[trigger] orig.up(p as int, j) != e as int,
                e != p,
                e == entity.index,
                p == parent.index,
                orig.registered(e as int),
                orig.registered(p as int),
                orig.slot(e as int).parent is None,
            ensures
                !orig.is_above(e as int, p as int),
            decreases orig.top@ - orig.rank_of(cur as int),
        {
            if cur == e {
                assert(orig.up(p as int, m) == e as int);
                assert(orig.is_above(e as int, p as int));
                return Err(ParentError::Cycle);
            }
            match self.instances[cur].as_ref().unwrap().parent {
                None => {
                    proof {
                        assert forall|n: nat| orig.up(p as int, n) != e as int by {
                            if n >= m {
                                orig.lemma_up_add(p as int, m, (n - m) as nat);
                                orig.lemma_up_root(cur as int, (n - m) as nat);
                                assert((m + (n - m)) as nat == n);
                            }
                        }
                    }
                    break;
                },
                Some(q) => {
                    proof {
                        orig.lemma_up_add(p as int, m, 1);
                        assert(orig.up(q as int, 0) == q as int);
                        assert(orig.up(cur as int, 1) == q as int);
                        assert(orig.registered(q as int));
                        assert(orig.rank_of(cur as int) < orig.rank_of(q as int));
                        assert(orig.rank_of(q as int) < orig.top@);
                        assert forall|j: nat| j < m + 1 implies #[trigger] orig.up(p as int, j)
                            != e as int by {
                            if j < m {
                                assert(orig.up(p as int, j) != e as int);
                            }
                        }
                        m = m + 1;
                    }
                    cur = q;
                },
            }
        }
        assert(!orig.is_above(e as int, p as int));
        // Link, and raise the parent and its ancestors above the entity.
        let mut t = self.take(e);
        t.parent = Some(p);
        self.instances.set(e, Some(t));
        let mut tp = self.take(p);
        tp.children.push(e);
        self.instances.set(p, Some(tp));
        assert(self.instances@ =~= orig.instances@.update(
            e as int,
            Some(Transform { parent: Some(p), ..orig.slot(e as int) }),
        ).update(p as int, Some(Transform { children: self.slot(p as int).children, ..orig.slot(p as int) })));
        let ghost delta: nat = orig.rank_of(e as int) + 1;
        self.rank = Ghost(
            |k: int|
                if orig.is_above(k, p as int) {
                    orig.rank_of(k) + delta
                } else {
                    orig.rank_of(k)
                },
        );
        self.top = Ghost(orig.top@ + delta);
        proof {
            self.lemma_linked_wf(orig, e as int, p as int, delta);
        }
        let ghost linked = *self;
        self.update_cached(e);
        let ghost resolved_once = *self;
        self.update_children(e, Ghost(linked.rank_of(e as int)));
        proof {
            assert(linked.registered(p as int));
            assert(orig.is_above(p as int, p as int)) by {
                assert(orig.up(p as int, 0) == p as int);
            }
            assert(linked.rank_of(e as int) < linked.rank_of(p as int));
            assert(self.instances@[p as int] == resolved_once.instances@[p as int]);
            assert(self.instances@[e as int] == resolved_once.instances@[e as int]);
            assert forall|k: int| #[trigger] self.registered(k) == orig.registered(k) by {
                assert(resolved_once.registered(k) == linked.registered(k));
            }
            assert forall|k: int|
                #[trigger] self.registered(k) && k != e && k != p implies self.slot(k).same_links(
                    &orig.slot(k),
                ) by {
                assert(resolved_once.registered(k) == linked.registered(k));
                assert(self.slot(k).same_links(&resolved_once.slot(k)));
            }
            assert forall|k: int|
                0 <= k < orig.instances@.len() && k != e && k != p && !self.is_above(
                    e as int,
                    k,
                ) implies #[trigger] self.instances@[k] == orig.instances@[k] by {
                if resolved_once.registered(k) && resolved_once.is_above(e as int, k) {
                    let n = choose|n: nat| resolved_once.up(k, n) == e as int;
                    self.lemma_up_kept(&resolved_once, k, n);
                }
                assert(self.instances@[k] == resolved_once.instances@[k]);
            }
            assert forall|k: int|
                self.registered(k) && k != e && #[trigger] self.is_above(e as int, k) implies self.resolved(k) by {
                assert(resolved_once.registered(k) == linked.registered(k));
                let n = choose|n: nat| self.up(k, n) == e as int;
                self.lemma_up_kept(&resolved_once, k, n);
                assert(resolved_once.is_above(e as int, k));
            }
        }
        Ok(())
    }

    proof fn lemma_linked_wf(&self, orig: Manager, e: int, p: int, delta: nat)
        requires
            orig.wf(),
            orig.registered(e),
            orig.registered(p),
            0 <= e <= usize::MAX,
            0 <= p <= usize::MAX,
            e != p,
            orig.slot(e).parent is None,
            !orig.is_above(e, p),
            delta == orig.rank_of(e) + 1,
            self.instances@ == orig.instances@.update(
                e,
                Some(Transform { parent: Some(p as usize), ..orig.slot(e) }),
            ).update(
                p,
                Some(Transform { children: self.slot(p).children, ..orig.slot(p) }),
            ),
            self.slot(p).children@ == orig.slot(p).children@.push(e as usize),
            self.top@ == orig.top@ + delta,
            forall|k: int|
                #[trigger] self.rank_of(k) == if orig.is_above(k, p) {
                    orig.rank_of(k) + delta
                } else {
                    orig.rank_of(k)
                },
        ensures
            self.wf(),
    {
        assert forall|k: int| #[trigger] self.registered(k) implies self.slot(k).wf() by {
            assert(orig.registered(k));
        }
        assert forall|k: int| #[trigger] self.registered(k) implies self.rank_of(k) < self.top@ by {
            assert(orig.registered(k));
        }
        assert forall|k: int|
            #[trigger] self.registered(k) && self.slot(k).parent is Some implies {
            let q = self.slot(k).parent->Some_0 as int;
            self.registered(q) && self.rank_of(k) < self.rank_of(q)
                && self.slot(q).children@.contains(k as usize)
        } by {
            assert(orig.registered(k));
            let q = self.slot(k).parent->Some_0 as int;
            let n_old = orig.slot(p).children@.len() as int;
            assert(self.slot(p).children@[n_old] == e as usize);
            if q == p && k != e {
                assert(orig.slot(p).children@.contains(k as usize));
                let j = choose|j: int| 0 <= j < n_old && orig.slot(p).children@[j] == k as usize;
                assert(self.slot(p).children@[j] == k as usize);
            }
            if q != p && k != e {
                assert(orig.slot(k).parent == self.slot(k).parent);
                assert(self.slot(q).children@ == orig.slot(q).children@);
            }
            if k == e {
                assert(q == p);
                assert(orig.up(p, 0) == p);
                assert(orig.is_above(p, p));
                assert(self.rank_of(p) == orig.rank_of(p) + delta);
                assert(self.rank_of(e) == orig.rank_of(e));
                assert(self.registered(p));
            } else {
                assert(orig.slot(k).parent == self.slot(k).parent);
                assert(orig.registered(q));
                if orig.is_above(k, p) {
                    let n = choose|n: nat| orig.up(p, n) == k;
                    orig.lemma_up_add(p, n, 1);
                    assert(orig.up(q, 0) == q);
                    assert(orig.up(k, 1) == q);
                    assert(orig.up(p, n + 1) == q);
                    assert(orig.is_above(q, p));
                    assert(self.rank_of(q) == orig.rank_of(q) + delta);
                    assert(self.rank_of(k) == orig.rank_of(k) + delta);
                } else {
                    assert(self.rank_of(k) == orig.rank_of(k));
                    assert(self.rank_of(q) >= orig.rank_of(q));
                }
                assert(self.registered(q));
            }
        }
        assert forall|k: int, j: int|
            self.registered(k) && 0 <= j < self.slot(k).children@.len() implies {
            let c = #[trigger] self.slot(k).children@[j] as int;
            self.registered(c) && self.slot(c).parent == Some(k as usize)
        } by {
            assert(orig.registered(k));
            let c = self.slot(k).children@[j] as int;
            if k == p && j == orig.slot(p).children@.len() {
                assert(self.slot(p).children@[j] == e as usize);
                assert(c == e);
            } else {
                assert(self.slot(k).children@[j] == orig.slot(k).children@[j]);
                assert(orig.registered(c));
                assert(orig.slot(c).parent == Some(k as usize));
                assert(c != e);
            }
        }
    }

    /// Sets the local values of an entity. An entity with a parent then has
    /// its world values, and those of everything below it, recomputed.
    pub fn set_local(&mut self, entity: Handle, position: Vec3, orientation: Quat, scale: Vec3)
        requires
            old(self).wf(),
            old(self).registered(entity.index as int),
            position.wf(),
            orientation.wf(),
            scale.wf(),
        ensures
            final(self).wf(),
            final(self).forest_kept(old(self)),
            ({
                let e = entity.index as int;
                let moved = Transform {
                    local_position: position,
                    local_orientation: orientation,
                    local_scale: scale,
                    ..old(self).slot(e)
                };
                &&& old(self).slot(e).parent is None ==> final(self).instances@
                    == old(self).instances@.update(e, Some(moved))
                &&& old(self).slot(e).parent is Some ==> {
                    &&& final(self).slot(e) == resolve(
                        moved,
                        old(self).slot(old(self).slot(e).parent->Some_0 as int).cached,
                    )
                    &&& final(self).resolved(e)
                    &&& forall|k: int|
                        0 <= k < old(self).instances@.len() && k != e
                            && !final(self).is_above(e, k)
                            ==> #[trigger] final(self).instances@[k] == old(self).instances@[k]
                    &&& forall|k: int|
                        final(self).registered(k) && k != e && #[trigger] final(self).is_above(e, k)
                            ==> final(self).resolved(k)
                }
            }),
    {
        let ghost orig = *old(self);
        let e = entity.get_index() as usize;
        let mut t = self.take(e);
        t.local_position = position;
        t.local_orientation = orientation;
        t.local_scale = scale;
        let parent = t.parent;
        self.instances.set(e, Some(t));
        proof {
            assert forall|k: int| #[trigger] self.registered(k) == orig.registered(k) by {}
            assert forall|k: int| #[trigger] self.registered(k) implies self.slot(k).wf() by {
                if k != e {
                    assert(orig.registered(k));
                }
            }
            assert forall|k: int| #[trigger] self.registered(k) implies self.slot(k).parent
                == orig.slot(k).parent && self.slot(k).children@ == orig.slot(k).children@ by {}
            self.lemma_kept_wf(&orig);
        }
        match parent {
            None => {},
            Some(p) => {
                let ghost moved = *self;
                assert(orig.registered(p as int));
                assert(p != e);
                self.update_cached(e);
                let ghost resolved_once = *self;
                self.update_children(e, Ghost(moved.rank_of(e as int)));
                proof {
                    assert(moved.registered(p as int));
                    assert(moved.rank_of(e as int) < moved.rank_of(p as int));
                    assert(self.instances@[p as int] == resolved_once.instances@[p as int]);
                    assert(self.instances@[e as int] == resolved_once.instances@[e as int]);
                    assert forall|k: int| #[trigger] self.registered(k) == orig.registered(k) by {
                        assert(resolved_once.registered(k) == moved.registered(k));
                    }
                    assert forall|k: int| #[trigger] self.registered(k) implies self.slot(k).parent
                        == orig.slot(k).parent && self.slot(k).children@ == orig.slot(k).children@ by {
                        assert(resolved_once.registered(k) == moved.registered(k));
                        assert(self.slot(k).same_links(&resolved_once.slot(k)));
                        assert(resolved_once.slot(k).same_links(&moved.slot(k)));
                    }
                    assert forall|k: int|
                        0 <= k < orig.instances@.len() && k != e && !self.is_above(e as int, k)
                        implies #[trigger] self.instances@[k] == orig.instances@[k] by {
                        if resolved_once.registered(k) && resolved_once.is_above(e as int, k) {
                            let n = choose|n: nat| resolved_once.up(k, n) == e as int;
                            self.lemma_up_kept(&resolved_once, k, n);
                        }
                        assert(self.instances@[k] == resolved_once.instances@[k]);
                    }
                    assert forall|k: int|
                        self.registered(k) && k != e && #[trigger] self.is_above(e as int, k) implies self.resolved(k) by {
                        assert(resolved_once.registered(k) == moved.registered(k));
                        let n = choose|n: nat| self.up(k, n) == e as int;
                        self.lemma_up_kept(&resolved_once, k, n);
                        assert(resolved_once.is_above(e as int, k));
                    }
                }
            },
        }
    }
}

} // verus!
