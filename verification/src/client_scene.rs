//! The scene as the client sees it: the shared tree with what is needed to draw it.
use crate::mesh::Float3;
use crate::scene::{any_object, hangs_below, ObjectKey, Scene, SceneModel, SceneObject};
use crate::scene_merge::{copy_of, merged, sources};
use crate::text::lemma_first_index;
use std::collections::HashMap;
use vstd::prelude::*;

verus! {

broadcast use vstd::std_specs::hash::group_hash_axioms;

/// The shared tree, the materials of its objects, the camera and the surroundings. `M` is the
/// type of materials, `C` of cameras, `E` of environments and `N` of numbers.
pub struct ClientScene<T, L, M, C, E, N> {
    scene: Scene<T, L>,
    materials: HashMap<u64, M>,
    camera: C,
    environment: Option<E>,
    environment_intensity: N,
    agx_min_ev: N,
    agx_max_ev: N,
}

/// The contents of a client scene.
#[verifier::ext_equal]
pub struct ClientModel<T, L, M, C, E, N> {
    pub tree: SceneModel<T, L>,
    pub materials: Map<ObjectKey, M>,
    pub camera: C,
    pub environment: Option<E>,
    pub environment_intensity: N,
    pub agx_min_ev: N,
    pub agx_max_ev: N,
}

/// The number one: full light of the surroundings.
pub const FULL_INTENSITY: u32 = 0x3f80_0000;

/// Lower end of tone mapping, in stops from middle grey: minus ten.
pub const AGX_MIN_EV: u32 = 0xc120_0000;

/// Upper end of tone mapping, in stops from middle grey: six and a half.
pub const AGX_MAX_EV: u32 = 0x40d0_0000;

/// The camera with which a view begins. Numbers are bit patterns of single-precision floating
/// point.
#[derive(Clone, Copy, Debug, PartialEq, Eq)]
pub struct FirstCamera {
    pub position: Float3,
    pub yaw: u32,
    pub pitch: u32,
    pub fov_y: u32,
    pub aspect: u32,
    pub near: u32,
    pub far: u32,
}

/// At (0, 1, 3), looking against the third axis and a little down, with an angle of view of 45
/// degrees in a window of 16 to 9, from 0.1 to 100.
pub open spec fn first_camera() -> FirstCamera {
    FirstCamera {
        position: Float3 { x: 0, y: 0x3f80_0000, z: 0x4040_0000 },
        yaw: 0xbfc9_0fdb,
        pitch: 0xbe19_999a,
        fov_y: 0x3f49_0fdb,
        aspect: 0x3fe3_8e39,
        near: 0x3dcc_cccd,
        far: 0x42c8_0000,
    }
}

pub closed spec fn material_map<T, L, M>(
    tree: SceneModel<T, L>,
    materials: Map<u64, M>,
) -> Map<ObjectKey, M> {
    Map::new(
        |k: ObjectKey| tree.nodes.contains_key(k) && materials.contains_key(k.serial),
        |k: ObjectKey| materials[k.serial],
    )
}

impl<T, L, M, C, E, N> View for ClientScene<T, L, M, C, E, N> {
    type V = ClientModel<T, L, M, C, E, N>;

    closed spec fn view(&self) -> ClientModel<T, L, M, C, E, N> {
        ClientModel {
            tree: self.scene@,
            materials: material_map(self.scene@, self.materials@),
            camera: self.camera,
            environment: self.environment,
            environment_intensity: self.environment_intensity,
            agx_min_ev: self.agx_min_ev,
            agx_max_ev: self.agx_max_ev,
        }
    }
}

/// What merging another client scene makes of this one: the tree is merged, and the copy of an
/// object has the material of its original.
pub open spec fn client_merged<T, L, M, C, E, N>(
    before: ClientModel<T, L, M, C, E, N>,
    other: ClientModel<T, L, M, C, E, N>,
    after: ClientModel<T, L, M, C, E, N>,
    remap: Seq<(ObjectKey, ObjectKey)>,
) -> bool {
    &&& merged(before.tree, other.tree, after.tree, remap)
    &&& forall|k: ObjectKey| #[trigger]
        after.materials.contains_key(k) <==> before.materials.contains_key(k) || exists|i: int|
            0 <= i < remap.len() && (#[trigger] remap[i]).1 == k && other.materials.contains_key(
                remap[i].0,
            )
    &&& forall|k: ObjectKey| #[trigger]
        before.materials.contains_key(k) ==> after.materials[k] == before.materials[k]
    &&& forall|i: int|
        0 <= i < remap.len() && other.materials.contains_key((#[trigger] remap[i]).0)
            ==> after.materials[remap[i].1] == other.materials[remap[i].0]
    &&& after.same_view(before)
}

/// Objects that stayed kept their material, and new objects have none.
pub open spec fn materials_follow<T, L, M, C, E, N>(
    before: ClientModel<T, L, M, C, E, N>,
    after: ClientModel<T, L, M, C, E, N>,
) -> bool {
    &&& forall|k: ObjectKey|
        before.tree.nodes.contains_key(k) && after.tree.nodes.contains_key(k) ==> (
        #[trigger] after.materials.contains_key(k) <==> before.materials.contains_key(k)) && (
        before.materials.contains_key(k) ==> after.materials[k] == before.materials[k])
    &&& forall|k: ObjectKey|
        k.serial >= before.tree.next ==> !#[trigger] after.materials.contains_key(k)
}

impl<T, L, M, C, E, N> ClientModel<T, L, M, C, E, N> {
    /// Camera and surroundings are the same.
    pub open spec fn same_view(self, other: ClientModel<T, L, M, C, E, N>) -> bool {
        &&& self.camera == other.camera
        &&& self.environment == other.environment
        &&& self.environment_intensity == other.environment_intensity
        &&& self.agx_min_ev == other.agx_min_ev
        &&& self.agx_max_ev == other.agx_max_ev
    }

    /// Without any object.
    pub open spec fn cleared(self) -> ClientModel<T, L, M, C, E, N> {
        ClientModel {
            tree: SceneModel {
                nodes: Map::empty(),
                light_cache: Seq::empty(),
                next: self.tree.next,
            },
            materials: Map::empty(),
            ..self
        }
    }
}

impl<T: Copy, L: Copy, M: Copy, C: Copy, E, N: Copy> ClientScene<T, L, M, C, E, N> {
    /// The tree is in order, and no material waits for an object that is yet to come.
    pub closed spec fn wf(&self) -> bool {
        self.scene.wf() && forall|s: u64| #[trigger]
            self.materials@.contains_key(s) ==> s < self.scene@.next
    }

    /// A scene without objects, environment or materials.
    pub fn new(camera: C, environment_intensity: N, agx_min_ev: N, agx_max_ev: N) -> (s:
        ClientScene<T, L, M, C, E, N>)
        ensures
            s.wf(),
            s@.tree.nodes =~= Map::empty(),
            s@.tree.light_cache =~= Seq::empty(),
            s@.tree.next == 0,
            s@.materials =~= Map::empty(),
            s@.camera == camera,
            s@.environment is None,
            s@.environment_intensity == environment_intensity,
            s@.agx_min_ev == agx_min_ev,
            s@.agx_max_ev == agx_max_ev,
    {
        ClientScene {
            scene: Scene::new(),
            materials: HashMap::new(),
            camera,
            environment: None,
            environment_intensity,
            agx_min_ev,
            agx_max_ev,
        }
    }

    /// A scene without objects, environment or materials, with the camera and the numbers with
    /// which a view begins. `number` and `camera` read them.
    pub fn standard<F: Fn(u32) -> N, K: Fn(FirstCamera) -> C>(number: F, camera: K) -> (s:
        ClientScene<T, L, M, C, E, N>)
        requires
            forall|bits: u32| call_requires(number, (bits,)),
            forall|c: FirstCamera| call_requires(camera, (c,)),
        ensures
            s.wf(),
            s@.tree.nodes =~= Map::empty(),
            s@.tree.light_cache =~= Seq::empty(),
            s@.tree.next == 0,
            s@.materials =~= Map::empty(),
            call_ensures(camera, (first_camera(),), s@.camera),
            s@.environment is None,
            call_ensures(number, (FULL_INTENSITY,), s@.environment_intensity),
            call_ensures(number, (AGX_MIN_EV,), s@.agx_min_ev),
            call_ensures(number, (AGX_MAX_EV,), s@.agx_max_ev),
    {
        let first = FirstCamera {
            position: Float3 { x: 0, y: 0x3f80_0000, z: 0x4040_0000 },
            yaw: 0xbfc9_0fdb,
            pitch: 0xbe19_999a,
            fov_y: 0x3f49_0fdb,
            aspect: 0x3fe3_8e39,
            near: 0x3dcc_cccd,
            far: 0x42c8_0000,
        };
        ClientScene::new(
            camera(first),
            number(FULL_INTENSITY),
            number(AGX_MIN_EV),
            number(AGX_MAX_EV),
        )
    }

    /// The same view of another tree, without materials.
    pub fn from_scene(self, scene: Scene<T, L>) -> (s: ClientScene<T, L, M, C, E, N>)
        requires
            scene.wf(),
        ensures
            s.wf(),
            s@.tree == scene@,
            s@.materials =~= Map::empty(),
            s@.same_view(self@),
    {
        ClientScene { scene, materials: HashMap::new(), ..self }
    }

    /// The shared tree.
    pub fn scene(&self) -> (s: &Scene<T, L>)
        requires
            self.wf(),
        ensures
            s@ == self@.tree,
            s.wf(),
    {
        &self.scene
    }

    /// The shared tree, to be changed.
    pub fn scene_mut(&mut self) -> (s: &mut Scene<T, L>)
        requires
            old(self).wf(),
        ensures
            s.wf(),
            s@ == old(self)@.tree,
            final(self)@.tree == final(s)@,
            final(self)@.same_view(old(self)@),
            final(s).wf() && final(s)@.next >= old(self)@.tree.next ==> final(self).wf(),
            materials_follow(old(self)@, final(self)@),
    {
        &mut self.scene
    }

    /// How many objects can still be added.
    pub fn room(&self) -> (n: u64)
        ensures
            n == u64::MAX - self@.tree.next,
    {
        self.scene.room()
    }

    /// Adds an object without a parent.
    pub fn add_object(&mut self, object: SceneObject<T, L>) -> (key: ObjectKey)
        requires
            old(self).wf(),
            old(self)@.tree.next < u64::MAX,
        ensures
            final(self).wf(),
            key.serial == old(self)@.tree.next,
            !old(self)@.tree.nodes.contains_key(key),
            final(self)@ == (ClientModel {
                tree: old(self)@.tree.with_node(key, object, None),
                ..old(self)@
            }),
    {
        let ghost before = self@;
        let key = self.scene.add_object(object);
        proof {
            assert(self@.materials =~= before.materials);
        }
        key
    }

    /// Adds an object below another; `None` where that one is not in the scene.
    pub fn attach_object(&mut self, parent: ObjectKey, object: SceneObject<T, L>) -> (r: Option<
        ObjectKey,
    >)
        requires
            old(self).wf(),
            old(self)@.tree.next < u64::MAX,
        ensures
            final(self).wf(),
            r is Some <==> old(self)@.tree.nodes.contains_key(parent),
            match r {
                Some(key) => {
                    &&& key.serial == old(self)@.tree.next
                    &&& !old(self)@.tree.nodes.contains_key(key)
                    &&& final(self)@ == (ClientModel {
                        tree: old(self)@.tree.with_node(key, object, Some(parent)),
                        ..old(self)@
                    })
                },
                None => final(self)@ == old(self)@,
            },
    {
        let ghost before = self@;
        let r = self.scene.attach(parent, object);
        proof {
            assert(self@.materials =~= before.materials);
        }
        r
    }

    /// Replaces an object; tells whether it is there.
    pub fn set_object(&mut self, key: ObjectKey, object: SceneObject<T, L>) -> (done: bool)
        requires
            old(self).wf(),
        ensures
            final(self).wf(),
            done == old(self)@.tree.nodes.contains_key(key),
            final(self)@ == (if done {
                ClientModel { tree: old(self)@.tree.with_object(key, object), ..old(self)@ }
            } else {
                old(self)@
            }),
    {
        let ghost before = self@;
        let done = self.scene.set_object(key, object);
        proof {
            assert(self@.materials =~= before.materials);
        }
        done
    }

    /// Gives an object a material.
    pub fn set_material(&mut self, key: ObjectKey, material: M)
        requires
            old(self).wf(),
        ensures
            final(self).wf(),
            final(self)@ == (if old(self)@.tree.nodes.contains_key(key) {
                ClientModel {
                    materials: old(self)@.materials.insert(key, material),
                    ..old(self)@
                }
            } else {
                old(self)@
            }),
    {
        if self.scene.contains(key) {
            let ghost before = self@;
            proof {
                self.scene.contents_are_well_rooted();
                self.scene.serials_are_unique();
            }
            self.materials.insert(key.serial, material);
            proof {
                assert(self@.materials =~= before.materials.insert(key, material));
                assert(self@ =~= (ClientModel {
                    materials: before.materials.insert(key, material),
                    ..before
                }));
            }
        }
    }

    /// The material of an object; `None` where it has none or is not in the scene.
    pub fn material(&self, key: ObjectKey) -> (r: Option<&M>)
        requires
            self.wf(),
        ensures
            match r {
                Some(m) => self@.materials.contains_key(key) && self@.materials[key] == *m,
                None => !self@.materials.contains_key(key),
            },
    {
        if self.scene.contains(key) {
            self.materials.get(&key.serial)
        } else {
            None
        }
    }

    /// The camera.
    pub fn camera(&self) -> (c: &C)
        ensures
            *c == self@.camera,
    {
        &self.camera
    }

    /// The camera, to be changed.
    pub fn camera_mut(&mut self) -> (c: &mut C)
        requires
            old(self).wf(),
        ensures
            *c == old(self)@.camera,
            final(self).wf(),
            final(self)@ == (ClientModel { camera: *final(c), ..old(self)@ }),
    {
        &mut self.camera
    }

    /// Replaces the camera.
    pub fn set_camera(&mut self, camera: C)
        requires
            old(self).wf(),
        ensures
            final(self).wf(),
            final(self)@ == (ClientModel { camera, ..old(self)@ }),
    {
        self.camera = camera;
    }

    /// Moves the camera: first it turns, then it is shifted.
    pub fn apply_camera_action<A, F: Fn(C, &A) -> C, G: Fn(C, &A) -> C>(
        &mut self,
        action: &A,
        rotate: F,
        translate: G,
    )
        requires
            old(self).wf(),
            forall|c: C| call_requires(rotate, (c, action)),
            forall|c: C| call_requires(translate, (c, action)),
        ensures
            final(self).wf(),
            final(self)@ == (ClientModel { camera: final(self)@.camera, ..old(self)@ }),
            exists|turned: C| #[trigger]
                call_ensures(rotate, (old(self)@.camera, action), turned) && call_ensures(
                    translate,
                    (turned, action),
                    final(self)@.camera,
                ),
    {
        let turned = rotate(self.camera, action);
        let moved = translate(turned, action);
        self.camera = moved;
    }

    /// With an environment.
    pub fn with_environment(self, environment: E) -> (s: ClientScene<T, L, M, C, E, N>)
        requires
            self.wf(),
        ensures
            s.wf(),
            s@ == (ClientModel { environment: Some(environment), ..self@ }),
    {
        ClientScene { environment: Some(environment), ..self }
    }

    /// The environment, if there is one.
    pub fn environment(&self) -> (r: Option<&E>)
        ensures
            match r {
                Some(e) => self@.environment == Some(*e),
                None => self@.environment is None,
            },
    {
        self.environment.as_ref()
    }

    /// With another strength of the environment light.
    pub fn with_environment_intensity(self, intensity: N) -> (s: ClientScene<T, L, M, C, E, N>)
        requires
            self.wf(),
        ensures
            s.wf(),
            s@ == (ClientModel { environment_intensity: intensity, ..self@ }),
    {
        ClientScene { environment_intensity: intensity, ..self }
    }

    /// Strength of the environment light.
    pub fn environment_intensity(&self) -> (n: N)
        ensures
            n == self@.environment_intensity,
    {
        self.environment_intensity
    }

    /// With another exposure window.
    pub fn with_environment_agx_ev(self, min_ev: N, max_ev: N) -> (s: ClientScene<
        T,
        L,
        M,
        C,
        E,
        N,
    >)
        requires
            self.wf(),
        ensures
            s.wf(),
            s@ == (ClientModel { agx_min_ev: min_ev, agx_max_ev: max_ev, ..self@ }),
    {
        ClientScene { agx_min_ev: min_ev, agx_max_ev: max_ev, ..self }
    }

    /// Lower end of the exposure window.
    pub fn agx_min_ev(&self) -> (n: N)
        ensures
            n == self@.agx_min_ev,
    {
        self.agx_min_ev
    }

    /// Upper end of the exposure window.
    pub fn agx_max_ev(&self) -> (n: N)
        ensures
            n == self@.agx_max_ev,
    {
        self.agx_max_ev
    }

    /// Copies the objects and materials of another scene into this one; gives the keys of the
    /// copies of its roots.
    pub fn merge(&mut self, other: &ClientScene<T, L, M, C, E, N>) -> (roots: Vec<ObjectKey>)
        requires
            old(self).wf(),
            other.wf(),
            old(self)@.tree.next + other@.tree.nodes.dom().len() <= u64::MAX,
        ensures
            final(self).wf(),
            exists|remap: Seq<(ObjectKey, ObjectKey)>, old_roots: Seq<ObjectKey>|
                #![trigger
                    client_merged(old(self)@, other@, final(self)@, remap),
                    other@.tree.lists(old_roots, hangs_below(other@.tree, None))]
                client_merged(old(self)@, other@, final(self)@, remap) && other@.tree.lists(
                    old_roots,
                    hangs_below(other@.tree, None),
                ) && roots@ == old_roots.map_values(|k: ObjectKey| copy_of(remap, k)),
    {
        let ghost before = self@;
        let ghost om = other@;
        let ghost mats0 = self.materials@;
        let remap = self.scene.merge(&other.scene);
        let ghost r = remap@;
        let ghost tree = self.scene@;
        proof {
            other.scene.contents_are_well_rooted();
        }
        let mut i: usize = 0;
        while i < remap.len()
            invariant
                self.scene.wf(),
                self.scene@ == tree,
                remap@ == r,
                i <= r.len(),
                other.wf(),
                om == other@,
                om.tree == other.scene@,
                merged(before.tree, om.tree, tree, r),
                self.camera == old(self).camera,
                self.environment == old(self).environment,
                self.environment_intensity == old(self).environment_intensity,
                self.agx_min_ev == old(self).agx_min_ev,
                self.agx_max_ev == old(self).agx_max_ev,
                forall|s: u64| #[trigger] mats0.contains_key(s) ==> s < before.tree.next,
                forall|s: u64| #[trigger]
                    self.materials@.contains_key(s) <==> mats0.contains_key(s) || exists|j: int|
                        0 <= j < i && (#[trigger] r[j]).1.serial == s && om.materials.contains_key(
                            r[j].0,
                        ),
                forall|s: u64| #[trigger]
                    mats0.contains_key(s) ==> self.materials@[s] == mats0[s],
                forall|j: int|
                    0 <= j < i && om.materials.contains_key((#[trigger] r[j]).0)
                        ==> self.materials@[r[j].1.serial] == om.materials[r[j].0],
            decreases r.len() - i,
        {
            let ghost mats1 = self.materials@;
            let old_key = remap[i].0;
            let new_key = remap[i].1;
            match other.material(old_key) {
                Some(m) => {
                    self.materials.insert(new_key.serial, *m);
                },
                None => {},
            }
            proof {
                assert(r[i as int].1.serial == before.tree.next + i);
                assert forall|s: u64| #[trigger]
                    self.materials@.contains_key(s) <==> mats0.contains_key(s) || exists|j: int|
                        0 <= j < i + 1 && (#[trigger] r[j]).1.serial == s
                            && om.materials.contains_key(r[j].0) by {
                    if mats1.contains_key(s) && !mats0.contains_key(s) {
                        let j = choose|j: int|
                            0 <= j < i && (#[trigger] r[j]).1.serial == s
                                && om.materials.contains_key(r[j].0);
                        assert(r[j].1.serial == s);
                    }
                    if self.materials@.contains_key(s) && !mats1.contains_key(s) {
                        assert(r[i as int].1.serial == s);
                    }
                    if exists|j: int|
                        0 <= j < i + 1 && (#[trigger] r[j]).1.serial == s
                            && om.materials.contains_key(r[j].0) {
                        let j = choose|j: int|
                            0 <= j < i + 1 && (#[trigger] r[j]).1.serial == s
                                && om.materials.contains_key(r[j].0);
                        if j < i {
                            assert(mats1.contains_key(s));
                        }
                    }
                }
                assert forall|j: int|
                    0 <= j < i + 1 && om.materials.contains_key(
                        (#[trigger] r[j]).0,
                    ) implies self.materials@[r[j].1.serial] == om.materials[r[j].0] by {
                    if j < i {
                        assert(r[j].1.serial == before.tree.next + j);
                    }
                }
            }
            i += 1;
        }
        proof {
            let after = self@;
            assert forall|s: u64| #[trigger] self.materials@.contains_key(s) implies s
                < self.scene@.next by {
                if !mats0.contains_key(s) {
                    let j = choose|j: int|
                        0 <= j < r.len() && (#[trigger] r[j]).1.serial == s
                            && om.materials.contains_key(r[j].0);
                    assert(r[j].1.serial == before.tree.next + j);
                }
            }
            assert forall|k: ObjectKey| #[trigger]
                after.materials.contains_key(k) <==> before.materials.contains_key(k) || exists|
                    j: int,
                |
                    0 <= j < r.len() && (#[trigger] r[j]).1 == k && om.materials.contains_key(
                        r[j].0,
                    ) by {
                if after.materials.contains_key(k) {
                    assert(tree.nodes.contains_key(k));
                    assert(self.materials@.contains_key(k.serial));
                    if before.tree.nodes.contains_key(k) {
                        if !mats0.contains_key(k.serial) {
                            let j = choose|j: int|
                                0 <= j < r.len() && (#[trigger] r[j]).1.serial == k.serial
                                    && om.materials.contains_key(r[j].0);
                            assert(r[j].1.serial == before.tree.next + j);
                            old(self).scene.contents_are_well_rooted();
                            assert(k.serial < before.tree.next);
                        }
                    } else {
                        let q = choose|q: int| 0 <= q < r.len() && (#[trigger] r[q]).1 == k;
                        assert(r[q].1.serial == before.tree.next + q);
                        assert(!mats0.contains_key(k.serial));
                        let j = choose|j: int|
                            0 <= j < r.len() && (#[trigger] r[j]).1.serial == k.serial
                                && om.materials.contains_key(r[j].0);
                        assert(r[j].1.serial == before.tree.next + j);
                        assert(j == q);
                    }
                }
                if before.materials.contains_key(k) {
                    assert(before.tree.nodes.contains_key(k));
                    assert(tree.nodes.contains_key(k));
                    assert(self.materials@.contains_key(k.serial));
                }
                if exists|j: int|
                    0 <= j < r.len() && (#[trigger] r[j]).1 == k && om.materials.contains_key(
                        r[j].0,
                    ) {
                    let j = choose|j: int|
                        0 <= j < r.len() && (#[trigger] r[j]).1 == k && om.materials.contains_key(
                            r[j].0,
                        );
                    assert(r[j].1.serial == k.serial);
                    assert(self.materials@.contains_key(k.serial));
                    assert(tree.nodes.contains_key(k));
                }
            }
            assert(client_merged(before, om, after, r));
        }
        let old_roots = other.scene.roots();
        let mut roots: Vec<ObjectKey> = Vec::new();
        let ghost images = old_roots@.map_values(|k: ObjectKey| copy_of(r, k));
        let mut i: usize = 0;
        while i < old_roots.len()
            invariant
                remap@ == r,
                i <= old_roots@.len(),
                om.tree.lists(sources(r), any_object()),
                om.tree.lists(old_roots@, hangs_below(om.tree, None)),
                images == old_roots@.map_values(|k: ObjectKey| copy_of(r, k)),
                roots@ =~= images.take(i as int),
            decreases old_roots@.len() - i,
        {
            let k = old_roots[i];
            let at = crate::scene_merge::find_source(&remap, k);
            proof {
                assert(old_roots@.contains(old_roots@[i as int]));
                assert(om.tree.nodes.contains_key(k));
                assert(sources(r).contains(k));
                lemma_first_index(sources(r), k);
                assert(images[i as int] == r[at as int].1);
            }
            roots.push(remap[at].1);
            i += 1;
        }
        proof {
            assert(images.take(i as int) =~= images);
        }
        roots
    }

    /// Removes all objects and materials; camera and surroundings stay.
    pub fn clear_entities(&mut self)
        requires
            old(self).wf(),
        ensures
            final(self).wf(),
            final(self)@ == old(self)@.cleared(),
    {
        let ghost before = self@;
        let roots = self.scene.roots();
        let ghost tree = self.scene@;
        proof {
            self.scene.contents_are_well_rooted();
        }
        let mut i: usize = 0;
        while i < roots.len()
            invariant
                self.scene.wf(),
                i <= roots@.len(),
                tree == old(self).scene@,
                tree.well_rooted(),
                tree.lists(roots@, hangs_below(tree, None)),
                self.scene@.next == tree.next,
                self.camera == old(self).camera,
                self.environment == old(self).environment,
                self.environment_intensity == old(self).environment_intensity,
                self.agx_min_ev == old(self).agx_min_ev,
                self.agx_max_ev == old(self).agx_max_ev,
                forall|k: ObjectKey| #[trigger]
                    self.scene@.nodes.contains_key(k) ==> tree.nodes.contains_key(k)
                        && self.scene@.nodes[k] == tree.nodes[k],
                forall|k: ObjectKey, j: int|
                    self.scene@.nodes.contains_key(k) && 0 <= j < i ==> !#[trigger]
                        tree.at_or_above(roots@[j], k),
            decreases roots@.len() - i,
        {
            let ghost now = self.scene@;
            proof {
                self.scene.contents_are_well_rooted();
                assert forall|k: ObjectKey, n: nat| now.nodes.contains_key(k) implies #[trigger] now.up(
                    k,
                    n,
                ) == tree.up(k, n) by {
                    lemma_same_up(now, tree, k, n);
                }
            }
            self.scene.remove_object(roots[i]);
            proof {
                let root = roots@[i as int];
                assert forall|k: ObjectKey, j: int|
                    self.scene@.nodes.contains_key(k) && 0 <= j < i + 1 implies !#[trigger]
                tree.at_or_above(roots@[j], k) by {
                    assert(now.nodes.contains_key(k));
                    if j == i && tree.at_or_above(root, k) {
                        let n = choose|n: nat| #[trigger] tree.up(k, n) == Some(root);
                        assert(now.up(k, n) == Some(root));
                        lemma_up_live(now, k, n);
                        assert(now.nodes.contains_key(root));
                        assert(now.at_or_above(root, k));
                    }
                }
            }
            i += 1;
        }
        self.materials = HashMap::new();
        proof {
            let now = self.scene@;
            self.scene.contents_are_well_rooted();
            assert forall|k: ObjectKey| !now.nodes.contains_key(k) by {
                if now.nodes.contains_key(k) {
                    let n = choose|n: nat| #[trigger] tree.up(k, n) is None;
                    lemma_has_root(tree, k, n);
                    let r = choose|r: ObjectKey|
                        #[trigger] tree.nodes.contains_key(r) && tree.nodes[r].parent is None
                            && tree.at_or_above(r, k);
                    assert(roots@.contains(r));
                    let j = choose|j: int| 0 <= j < roots@.len() && roots@[j] == r;
                    assert(!tree.at_or_above(roots@[j], k));
                }
            }
            assert(now.nodes =~= Map::empty());
            assert(now.light_cache =~= Seq::empty()) by {
                if now.light_cache.len() > 0 {
                    assert(now.nodes.contains_key(now.light_cache[0]));
                }
            }
            assert(self@.materials =~= Map::empty());
            assert(self@ =~= before.cleared());
        }
    }
}

proof fn lemma_same_up<T, L>(a: SceneModel<T, L>, b: SceneModel<T, L>, k: ObjectKey, n: nat)
    requires
        a.nodes.contains_key(k),
        forall|j: ObjectKey| #[trigger]
            a.nodes.contains_key(j) ==> a.nodes[j].parent == b.nodes[j].parent && (
            a.nodes[j].parent matches Some(p) ==> a.nodes.contains_key(p)),
    ensures
        a.up(k, n) == b.up(k, n),
        a.up(k, n) matches Some(j) ==> a.nodes.contains_key(j),
    decreases n,
{
    if n > 0 {
        lemma_same_up(a, b, k, (n - 1) as nat);
    }
}

proof fn lemma_up_live<T, L>(m: SceneModel<T, L>, k: ObjectKey, n: nat)
    requires
        m.well_rooted(),
        m.nodes.contains_key(k),
    ensures
        m.up(k, n) matches Some(j) ==> m.nodes.contains_key(j),
    decreases n,
{
    if n > 0 {
        lemma_up_live(m, k, (n - 1) as nat);
    }
}

proof fn lemma_has_root<T, L>(m: SceneModel<T, L>, k: ObjectKey, n: nat)
    requires
        m.well_rooted(),
        m.nodes.contains_key(k),
        m.up(k, n) is None,
    ensures
        exists|r: ObjectKey|
            #[trigger] m.nodes.contains_key(r) && m.nodes[r].parent is None && m.at_or_above(r, k),
    decreases n,
{
    if n > 0 {
        match m.up(k, (n - 1) as nat) {
            Some(r) => {
                lemma_up_live(m, k, (n - 1) as nat);
                assert(m.nodes.contains_key(r));
                assert(m.at_or_above(r, k));
            },
            None => {
                lemma_has_root(m, k, (n - 1) as nat);
            },
        }
    }
}

/// A copy that a merge makes is dressed as its original is; what was dressed before stays so, and
/// nothing else is. Camera and surroundings stay.
pub proof fn copies_are_dressed_as_their_originals<T, L, M, C, E, N>(
    before: ClientModel<T, L, M, C, E, N>,
    other: ClientModel<T, L, M, C, E, N>,
    after: ClientModel<T, L, M, C, E, N>,
    remap: Seq<(ObjectKey, ObjectKey)>,
    k: ObjectKey,
    old_key: ObjectKey,
)
    requires
        client_merged(before, other, after, remap),
        other.tree.nodes.contains_key(k),
        !before.materials.contains_key(copy_of(remap, k)),
    ensures
        after.materials.contains_key(copy_of(remap, k)) <==> other.materials.contains_key(k),
        other.materials.contains_key(k) ==> after.materials[copy_of(remap, k)]
            == other.materials[k],
        before.materials.contains_key(old_key) ==> after.materials.contains_key(old_key)
            && after.materials[old_key] == before.materials[old_key],
        after.camera == before.camera,
        after.environment == before.environment,
        after.environment_intensity == before.environment_intensity,
        after.agx_min_ev == before.agx_min_ev,
        after.agx_max_ev == before.agx_max_ev,
{
    let c = copy_of(remap, k);
    assert(any_object()(k));
    assert(sources(remap).contains(k));
    lemma_first_index(sources(remap), k);
    let at = crate::text::first_index(sources(remap), k);
    assert(sources(remap)[at] == remap[at].0);
    assert(remap[at].1 == c && remap[at].0 == k);
    if after.materials.contains_key(c) {
        let i = choose|i: int|
            0 <= i < remap.len() && (#[trigger] remap[i]).1 == c && other.materials.contains_key(
                remap[i].0,
            );
        assert(remap[i].1.serial == before.tree.next + i);
        assert(remap[at].1.serial == before.tree.next + at);
    }
}

/// A view without its objects has no lights and no materials either; new objects still get new
/// numbers, and camera and surroundings stay.
pub proof fn cleared_views_keep_camera_and_surroundings<T, L, M, C, E, N>(
    v: ClientModel<T, L, M, C, E, N>,
    k: ObjectKey,
)
    ensures
        !v.cleared().tree.nodes.contains_key(k),
        !v.cleared().materials.contains_key(k),
        v.cleared().tree.light_cache.len() == 0,
        v.cleared().tree.next == v.tree.next,
        v.cleared().camera == v.camera,
        v.cleared().environment == v.environment,
        v.cleared().environment_intensity == v.environment_intensity,
        v.cleared().agx_min_ev == v.agx_min_ev,
        v.cleared().agx_max_ev == v.agx_max_ev,
{
}

/// A view begins at (0, 1, 3) with full light of the surroundings and tone mapping from ten stops
/// below middle grey to six and a half above.
pub proof fn views_begin_behind_the_origin()
    ensures
        first_camera().position.x == 0,
        first_camera().position.y == crate::number::ONE,
        first_camera().position.z == 0x4040_0000,
        first_camera().yaw == 0xbfc9_0fdb,
        first_camera().pitch == 0xbe19_999a,
        first_camera().fov_y == 0x3f49_0fdb,
        first_camera().aspect == 0x3fe3_8e39,
        first_camera().near == 0x3dcc_cccd,
        first_camera().far == 0x42c8_0000,
        FULL_INTENSITY == crate::number::ONE,
        AGX_MIN_EV == 0xc120_0000,
        AGX_MAX_EV == 0x40d0_0000,
{
}

} // verus!
