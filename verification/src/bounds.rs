//! Boxes around the objects of a scene, and what touches them.
use crate::aabb::{enclosing, positions, Aabb};
use crate::handle::Handle;
use crate::mesh::{Float3, Mesh};
use crate::scene::{
    any_object, contains_key, folds, placements, ObjectKey, Scene, SceneModel, SceneObjectKind,
};
use vstd::prelude::*;

verus! {

/// How to make boxes: `M` is the type of placements in the world.
#[derive(Debug)]
pub struct BoxMath<M, F, G, H> {
    /// The placement that changes nothing.
    pub identity: M,
    /// Puts a relative placement after a placement in the world.
    pub apply: F,
    /// The mesh of a handle, where there is one.
    pub mesh: G,
    /// Where a placement takes a point.
    pub point: H,
}

impl<M: Copy, F, G, H> BoxMath<M, F, G, H> {
    /// Whatever the functions are given, they answer.
    pub open spec fn total<'a, T>(self) -> bool where
        F: Fn(M, T) -> M,
        G: Fn(Handle) -> Option<&'a Mesh>,
        H: Fn(M, Float3) -> Float3,
     {
        &&& forall|m: M, t: T| call_requires(self.apply, (m, t))
        &&& forall|h: Handle| call_requires(self.mesh, (h,))
        &&& forall|m: M, p: Float3| call_requires(self.point, (m, p))
    }
}

/// `w` is the placement of an object in the world.
pub open spec fn placed_in_world<T, L, M, F: Fn(M, T) -> M>(
    m: SceneModel<T, L>,
    key: ObjectKey,
    identity: M,
    apply: F,
    w: M,
) -> bool {
    exists|chain: Seq<T>, steps: Seq<M>|
        #![trigger placements(m, key, chain), folds(apply, chain, steps)]
        placements(m, key, chain) && folds(apply, chain, steps) && steps[0] == identity
            && steps.last() == w
}

/// The points are where a placement takes the corners of a box.
pub open spec fn moved_corners<M, H: Fn(M, Float3) -> Float3>(
    b: Aabb,
    w: M,
    point: H,
    images: Seq<Float3>,
) -> bool {
    &&& images.len() == 8
    &&& forall|i: int| 0 <= i < 8 ==> call_ensures(point, (w, b.corner(i)), #[trigger] images[i])
}

/// `r` is the smallest box around where a placement takes the corners of a box.
pub open spec fn moved<M, H: Fn(M, Float3) -> Float3>(b: Aabb, w: M, point: H, r: Aabb) -> bool {
    exists|images: Seq<Float3>| #[trigger]
        moved_corners(b, w, point, images) && r == enclosing(images)
}

/// The box around a mesh: none where the mesh is missing, or no box is around it.
pub open spec fn local_box(mesh: Option<&Mesh>) -> Option<Aabb> {
    match mesh {
        None => None,
        Some(mesh) => if enclosing(positions(*mesh)).hollow() {
            None
        } else {
            Some(enclosing(positions(*mesh)))
        },
    }
}

/// `r` is the box `b` moved to where the object is in the world.
pub open spec fn moved_to<'a, T, L, M: Copy, F: Fn(M, T) -> M, G, H: Fn(M, Float3) -> Float3>(
    m: SceneModel<T, L>,
    key: ObjectKey,
    math: BoxMath<M, F, G, H>,
    b: Aabb,
    r: Aabb,
) -> bool {
    exists|w: M|
        #![trigger placed_in_world(m, key, math.identity, math.apply, w)]
        placed_in_world(m, key, math.identity, math.apply, w) && moved(b, w, math.point, r)
}

/// `r` is the box around the object of a mesh, in the world.
pub open spec fn mesh_boxed<
    'a,
    T,
    L,
    M: Copy,
    F: Fn(M, T) -> M,
    G: Fn(Handle) -> Option<&'a Mesh>,
    H: Fn(M, Float3) -> Float3,
>(
    m: SceneModel<T, L>,
    key: ObjectKey,
    handle: Handle,
    math: BoxMath<M, F, G, H>,
    r: Option<Aabb>,
) -> bool {
    exists|mesh: Option<&'a Mesh>| #[trigger]
        call_ensures(math.mesh, (handle,), mesh) && match local_box(mesh) {
            None => r is None,
            Some(b) => r is Some && moved_to(m, key, math, b, r->0),
        }
}

/// `r` is the box around an object in the world: none where there is no such object, it is no
/// mesh, or its mesh is missing or has no box.
pub open spec fn boxed<
    'a,
    T,
    L,
    M: Copy,
    F: Fn(M, T) -> M,
    G: Fn(Handle) -> Option<&'a Mesh>,
    H: Fn(M, Float3) -> Float3,
>(m: SceneModel<T, L>, key: ObjectKey, math: BoxMath<M, F, G, H>, r: Option<Aabb>) -> bool {
    if m.nodes.contains_key(key) {
        match m.nodes[key].object.kind {
            SceneObjectKind::Mesh(h) => mesh_boxed(m, key, h, math, r),
            _ => r is None,
        }
    } else {
        r is None
    }
}

/// `hit` tells whether a point is in the box around an object.
pub open spec fn box_holds<
    'a,
    T,
    L,
    M: Copy,
    F: Fn(M, T) -> M,
    G: Fn(Handle) -> Option<&'a Mesh>,
    H: Fn(M, Float3) -> Float3,
>(m: SceneModel<T, L>, key: ObjectKey, math: BoxMath<M, F, G, H>, p: Float3, hit: bool) -> bool {
    exists|r: Option<Aabb>| #[trigger]
        boxed(m, key, math, r) && hit == (r is Some && r->0.holds(p))
}

/// `hit` tells whether a box meets the box around an object.
pub open spec fn box_meets<
    'a,
    T,
    L,
    M: Copy,
    F: Fn(M, T) -> M,
    G: Fn(Handle) -> Option<&'a Mesh>,
    H: Fn(M, Float3) -> Float3,
>(m: SceneModel<T, L>, key: ObjectKey, math: BoxMath<M, F, G, H>, probe: Aabb, hit: bool) -> bool {
    exists|r: Option<Aabb>| #[trigger]
        boxed(m, key, math, r) && hit == (r is Some && r->0.meets(probe))
}

/// `hit` tells whether the boxes around two objects meet.
pub open spec fn boxes_meet<
    'a,
    T,
    L,
    M: Copy,
    F: Fn(M, T) -> M,
    G: Fn(Handle) -> Option<&'a Mesh>,
    H: Fn(M, Float3) -> Float3,
>(
    m: SceneModel<T, L>,
    a: ObjectKey,
    b: ObjectKey,
    math: BoxMath<M, F, G, H>,
    hit: bool,
) -> bool {
    exists|ra: Option<Aabb>, rb: Option<Aabb>|
        #![trigger boxed(m, a, math, ra), boxed(m, b, math, rb)]
        boxed(m, a, math, ra) && boxed(m, b, math, rb) && hit == (ra is Some && rb is Some
            && ra->0.meets(rb->0))
}

/// `r` is the first object, by ascending node, that is not excluded and whose box the probe meets.
pub open spec fn first_met<
    'a,
    T,
    L,
    M: Copy,
    F: Fn(M, T) -> M,
    G: Fn(Handle) -> Option<&'a Mesh>,
    H: Fn(M, Float3) -> Float3,
>(
    m: SceneModel<T, L>,
    exclude: Seq<ObjectKey>,
    math: BoxMath<M, F, G, H>,
    probe: Aabb,
    r: Option<ObjectKey>,
) -> bool {
    match r {
        Some(k) => {
            &&& m.nodes.contains_key(k)
            &&& !exclude.contains(k)
            &&& box_meets(m, k, math, probe, true)
            &&& forall|j: ObjectKey|
                m.nodes.contains_key(j) && !exclude.contains(j) && j.index < k.index
                    ==> #[trigger] box_meets(m, j, math, probe, false)
        },
        None => forall|j: ObjectKey|
            m.nodes.contains_key(j) && !exclude.contains(j) ==> #[trigger] box_meets(
                m,
                j,
                math,
                probe,
                false,
            ),
    }
}

/// The box around a mesh: none where the mesh is missing, or no box is around it.
pub fn box_of(mesh: Option<&Mesh>) -> (r: Option<Aabb>)
    ensures
        r == local_box(mesh),
{
    match mesh {
        None => None,
        Some(mesh) => {
            let b = mesh.bounds();
            if b.is_empty() {
                None
            } else {
                Some(b)
            }
        },
    }
}

impl<M: Copy, F, G, H: Fn(M, Float3) -> Float3> BoxMath<M, F, G, H> {
    /// The smallest box around where a placement takes the corners of a box.
    pub fn move_box(&self, b: &Aabb, w: M) -> (r: Aabb)
        requires
            forall|m: M, p: Float3| call_requires(self.point, (m, p)),
        ensures
            moved(*b, w, self.point, r),
    {
        let mut images: Vec<Float3> = Vec::new();
        let mut i: u32 = 0;
        while i < 8
            invariant
                i <= 8,
                images@.len() == i,
                forall|m: M, p: Float3| call_requires(self.point, (m, p)),
                forall|j: int|
                    0 <= j < i ==> call_ensures(
                        self.point,
                        (w, b.corner(j)),
                        #[trigger] images@[j],
                    ),
            decreases 8 - i,
        {
            images.push((self.point)(w, b.pick_corner(i)));
            i += 1;
        }
        proof {
            assert(moved_corners(*b, w, self.point, images@));
        }
        Aabb::from_points(&images)
    }
}

impl<T: Copy, L: Copy> Scene<T, L> {
    /// The box around an object in the world.
    pub fn object_aabb_world<
        'a,
        M: Copy,
        F: Fn(M, T) -> M,
        G: Fn(Handle) -> Option<&'a Mesh>,
        H: Fn(M, Float3) -> Float3,
    >(&self, key: ObjectKey, math: &BoxMath<M, F, G, H>) -> (r: Option<Aabb>)
        requires
            self.wf(),
            math.total::<T>(),
        ensures
            boxed(self@, key, *math, r),
    {
        let handle = match self.object(key) {
            Some(object) => object.mesh_handle(),
            None => None,
        };
        let handle = match handle {
            Some(h) => h,
            None => {
                return None;
            },
        };
        let mesh = (math.mesh)(handle);
        match box_of(mesh) {
            None => None,
            Some(b) => {
                let world = self.world_by(key, math.identity, &math.apply);
                match world {
                    None => None,
                    Some(w) => {
                        let r = math.move_box(&b, w);
                        proof {
                            assert(placed_in_world(self@, key, math.identity, math.apply, w));
                        }
                        Some(r)
                    },
                }
            },
        }
    }

    /// Whether the point is in the box around an object.
    pub fn point_inside<
        'a,
        M: Copy,
        F: Fn(M, T) -> M,
        G: Fn(Handle) -> Option<&'a Mesh>,
        H: Fn(M, Float3) -> Float3,
    >(&self, key: ObjectKey, math: &BoxMath<M, F, G, H>, point: Float3) -> (hit: bool)
        requires
            self.wf(),
            math.total::<T>(),
        ensures
            box_holds(self@, key, *math, point, hit),
    {
        match self.object_aabb_world(key, math) {
            Some(b) => b.contains(point),
            None => false,
        }
    }

    /// Whether the boxes around two objects meet.
    pub fn objects_collide<
        'a,
        M: Copy,
        F: Fn(M, T) -> M,
        G: Fn(Handle) -> Option<&'a Mesh>,
        H: Fn(M, Float3) -> Float3,
    >(&self, a: ObjectKey, b: ObjectKey, math: &BoxMath<M, F, G, H>) -> (hit: bool)
        requires
            self.wf(),
            math.total::<T>(),
        ensures
            boxes_meet(self@, a, b, *math, hit),
    {
        let box_a = self.object_aabb_world(a, math);
        let box_b = self.object_aabb_world(b, math);
        match (box_a, box_b) {
            (Some(x), Some(y)) => x.intersects(&y),
            _ => false,
        }
    }

    /// The first object, by ascending node, that is not excluded and whose box meets a box that is
    /// moved to a placement in the world.
    pub fn collides_with<
        'a,
        M: Copy,
        F: Fn(M, T) -> M,
        G: Fn(Handle) -> Option<&'a Mesh>,
        H: Fn(M, Float3) -> Float3,
    >(
        &self,
        placement: M,
        local: &Aabb,
        exclude: &Vec<ObjectKey>,
        math: &BoxMath<M, F, G, H>,
    ) -> (r: Option<ObjectKey>)
        requires
            self.wf(),
            math.total::<T>(),
        ensures
            exists|probe: Aabb| #[trigger]
                moved(*local, placement, math.point, probe) && first_met(
                    self@,
                    exclude@,
                    *math,
                    probe,
                    r,
                ),
    {
        let probe = math.move_box(local, placement);
        let all = self.objects();
        let ghost m = self@;
        let mut i: usize = 0;
        while i < all.len()
            invariant
                self.wf(),
                m == self@,
                math.total::<T>(),
                m.lists(all@, any_object()),
                i <= all@.len(),
                moved(*local, placement, math.point, probe),
                forall|b: int|
                    0 <= b < i && !exclude@.contains(#[trigger] all@[b]) ==> box_meets(
                        m,
                        all@[b],
                        *math,
                        probe,
                        false,
                    ),
            decreases all@.len() - i,
        {
            let k = all[i];
            proof {
                assert(all@.contains(all@[i as int]));
            }
            if !contains_key(exclude, k) {
                let found = self.object_aabb_world(k, math);
                let ghost r = found;
                let hit = match found {
                    Some(b) => b.intersects(&probe),
                    None => false,
                };
                proof {
                    assert(boxed(m, k, *math, r));
                    assert(box_meets(m, k, *math, probe, hit));
                }
                if hit {
                    proof {
                        assert forall|j: ObjectKey|
                            m.nodes.contains_key(j) && !exclude@.contains(j) && j.index
                                < k.index implies #[trigger] box_meets(
                            m,
                            j,
                            *math,
                            probe,
                            false,
                        ) by {
                            assert(any_object()(j));
                            assert(all@.contains(j));
                            let b = choose|b: int| 0 <= b < all@.len() && all@[b] == j;
                            if b > i {
                                assert(all@[i as int].index < all@[b].index);
                            }
                        }
                        assert(first_met(m, exclude@, *math, probe, Some(k)));
                    }
                    return Some(k);
                }
            }
            i += 1;
        }
        proof {
            assert forall|j: ObjectKey|
                m.nodes.contains_key(j) && !exclude@.contains(j) implies #[trigger] box_meets(
                m,
                j,
                *math,
                probe,
                false,
            ) by {
                assert(any_object()(j));
                assert(all@.contains(j));
                let b = choose|b: int| 0 <= b < all@.len() && all@[b] == j;
                assert(!exclude@.contains(all@[b]));
            }
            assert(first_met(m, exclude@, *math, probe, None));
        }
        None
    }
}

/// Only a mesh that is there and has a box has one in the world; every other object has none. That
/// box is the smallest around the points to which the place of the object in the world takes the
/// corners of the box around its vertices.
pub proof fn boxes_belong_to_meshes<
    'a,
    T,
    L,
    M: Copy,
    F: Fn(M, T) -> M,
    G: Fn(Handle) -> Option<&'a Mesh>,
    H: Fn(M, Float3) -> Float3,
>(m: SceneModel<T, L>, key: ObjectKey, math: BoxMath<M, F, G, H>, r: Option<Aabb>)
    requires
        boxed(m, key, math, r),
    ensures
        !m.nodes.contains_key(key) ==> r is None,
        m.nodes.contains_key(key) && !(m.nodes[key].object.kind is Mesh) ==> r is None,
        m.nodes.contains_key(key) && m.nodes[key].object.kind is Mesh ==> exists|
            mesh: Option<&'a Mesh>,
        | #[trigger]
            call_ensures(math.mesh, (m.nodes[key].object.kind->Mesh_0,), mesh) && (r is Some
                <==> mesh is Some && !enclosing(positions(*mesh->0)).hollow()),
        r is Some ==> exists|mesh: &'a Mesh, w: M, images: Seq<Float3>|
            #![trigger call_ensures(math.mesh, (m.nodes[key].object.kind->Mesh_0,), Some(mesh)),
                placed_in_world(m, key, math.identity, math.apply, w), enclosing(images)]
            call_ensures(math.mesh, (m.nodes[key].object.kind->Mesh_0,), Some(mesh))
                && placed_in_world(m, key, math.identity, math.apply, w) && images.len() == 8 && (
            forall|i: int|
                0 <= i < 8 ==> call_ensures(
                    math.point,
                    (w, enclosing(positions(*mesh)).corner(i)),
                    #[trigger] images[i],
                )) && r == Some(enclosing(images)),
{
    if m.nodes.contains_key(key) {
        if let SceneObjectKind::Mesh(h) = m.nodes[key].object.kind {
            let mesh = choose|mesh: Option<&'a Mesh>| #[trigger]
                call_ensures(math.mesh, (h,), mesh) && match local_box(mesh) {
                    None => r is None,
                    Some(b) => r is Some && moved_to(m, key, math, b, r->0),
                };
            if r is Some {
                let b = local_box(mesh)->0;
                let w = choose|w: M|
                    #![trigger placed_in_world(m, key, math.identity, math.apply, w)]
                    placed_in_world(m, key, math.identity, math.apply, w) && moved(
                        b,
                        w,
                        math.point,
                        r->0,
                    );
                let images = choose|images: Seq<Float3>| #[trigger]
                    moved_corners(b, w, math.point, images) && r->0 == enclosing(images);
                assert(mesh == Some(mesh->0));
                assert(call_ensures(math.mesh, (h,), Some(mesh->0)));
                assert(r == Some(enclosing(images)));
            }
        }
    }
}

/// Collisions are mutual, and what collides has a box each, which meet.
pub proof fn collisions_are_mutual<
    'a,
    T,
    L,
    M: Copy,
    F: Fn(M, T) -> M,
    G: Fn(Handle) -> Option<&'a Mesh>,
    H: Fn(M, Float3) -> Float3,
>(m: SceneModel<T, L>, a: ObjectKey, b: ObjectKey, math: BoxMath<M, F, G, H>, hit: bool)
    ensures
        boxes_meet(m, a, b, math, hit) <==> boxes_meet(m, b, a, math, hit),
        boxes_meet(m, a, b, math, true) <==> exists|ra: Aabb, rb: Aabb|
            #![trigger boxed(m, a, math, Some(ra)), boxed(m, b, math, Some(rb))]
            boxed(m, a, math, Some(ra)) && boxed(m, b, math, Some(rb)) && ra.meets(rb),
        boxes_meet(m, a, b, math, false) ==> exists|ra: Option<Aabb>, rb: Option<Aabb>|
            #![trigger boxed(m, a, math, ra), boxed(m, b, math, rb)]
            boxed(m, a, math, ra) && boxed(m, b, math, rb) && !(ra is Some && rb is Some
                && ra->0.meets(rb->0)),
{
    lemma_mutual(m, a, b, math, hit);
    lemma_mutual(m, b, a, math, hit);
    if boxes_meet(m, a, b, math, true) {
        let (ra, rb) = choose|ra: Option<Aabb>, rb: Option<Aabb>|
            #![trigger boxed(m, a, math, ra), boxed(m, b, math, rb)]
            boxed(m, a, math, ra) && boxed(m, b, math, rb) && true == (ra is Some && rb is Some
                && ra->0.meets(rb->0));
        assert(ra == Some(ra->0) && rb == Some(rb->0));
        assert(boxed(m, a, math, Some(ra->0)) && boxed(m, b, math, Some(rb->0)));
    }
}

proof fn lemma_mutual<
    'a,
    T,
    L,
    M: Copy,
    F: Fn(M, T) -> M,
    G: Fn(Handle) -> Option<&'a Mesh>,
    H: Fn(M, Float3) -> Float3,
>(m: SceneModel<T, L>, a: ObjectKey, b: ObjectKey, math: BoxMath<M, F, G, H>, hit: bool)
    ensures
        boxes_meet(m, a, b, math, hit) ==> boxes_meet(m, b, a, math, hit),
{
    if boxes_meet(m, a, b, math, hit) {
        let (ra, rb) = choose|ra: Option<Aabb>, rb: Option<Aabb>|
            #![trigger boxed(m, a, math, ra), boxed(m, b, math, rb)]
            boxed(m, a, math, ra) && boxed(m, b, math, rb) && hit == (ra is Some && rb is Some
                && ra->0.meets(rb->0));
        assert(boxed(m, b, math, rb) && boxed(m, a, math, ra));
    }
}

/// A point is inside an object exactly where the object has a box and the box holds the point.
pub proof fn points_inside_are_in_the_box<
    'a,
    T,
    L,
    M: Copy,
    F: Fn(M, T) -> M,
    G: Fn(Handle) -> Option<&'a Mesh>,
    H: Fn(M, Float3) -> Float3,
>(m: SceneModel<T, L>, key: ObjectKey, math: BoxMath<M, F, G, H>, p: Float3)
    ensures
        box_holds(m, key, math, p, true) ==> exists|b: Aabb| #[trigger]
            boxed(m, key, math, Some(b)) && b.holds(p),
        box_holds(m, key, math, p, false) ==> boxed(m, key, math, None) || exists|b: Aabb|
            #[trigger]
            boxed(m, key, math, Some(b)) && !b.holds(p),
{
    if box_holds(m, key, math, p, true) {
        let r = choose|r: Option<Aabb>| #[trigger]
            boxed(m, key, math, r) && true == (r is Some && r->0.holds(p));
        assert(boxed(m, key, math, Some(r->0)));
    }
    if box_holds(m, key, math, p, false) {
        let r = choose|r: Option<Aabb>| #[trigger]
            boxed(m, key, math, r) && false == (r is Some && r->0.holds(p));
        if r is Some {
            assert(boxed(m, key, math, Some(r->0)));
        }
    }
}

/// What a box runs into is an object that was not excluded and whose box it meets; objects with a
/// lesser node, and all objects where it runs into none, are excluded, have no box or one that it
/// does not meet.
pub proof fn obstacles_are_met_first<
    'a,
    T,
    L,
    M: Copy,
    F: Fn(M, T) -> M,
    G: Fn(Handle) -> Option<&'a Mesh>,
    H: Fn(M, Float3) -> Float3,
>(
    m: SceneModel<T, L>,
    exclude: Seq<ObjectKey>,
    math: BoxMath<M, F, G, H>,
    probe: Aabb,
    r: Option<ObjectKey>,
    j: ObjectKey,
)
    requires
        first_met(m, exclude, math, probe, r),
    ensures
        r is Some ==> m.nodes.contains_key(r->0) && !exclude.contains(r->0) && exists|b: Aabb|
            #[trigger]
            boxed(m, r->0, math, Some(b)) && b.meets(probe),
        m.nodes.contains_key(j) && !exclude.contains(j) && (r is Some ==> j.index < r->0.index)
            ==> boxed(m, j, math, None) || exists|b: Aabb| #[trigger]
            boxed(m, j, math, Some(b)) && !b.meets(probe),
{
    if r is Some {
        assert(box_meets(m, r->0, math, probe, true));
        let b = choose|b: Option<Aabb>| #[trigger]
            boxed(m, r->0, math, b) && true == (b is Some && b->0.meets(probe));
        assert(boxed(m, r->0, math, Some(b->0)));
    }
    if m.nodes.contains_key(j) && !exclude.contains(j) && (r is Some ==> j.index < r->0.index) {
        assert(box_meets(m, j, math, probe, false));
        let b = choose|b: Option<Aabb>| #[trigger]
            boxed(m, j, math, b) && false == (b is Some && b->0.meets(probe));
        if b is Some {
            assert(boxed(m, j, math, Some(b->0)));
        }
    }
}

} // verus!
