//! The demonstration scene: three lights, some triangles, a stretched square, and a cube with a
//! small triangle that follows it.
use crate::client_scene::{client_merged, ClientModel, ClientScene};
use crate::handle::Handle;
use crate::material::Material;
use crate::renderer::material_or_plain;
use crate::scene::{
    any_object, hangs_below, ObjectKey, SceneModel, SceneObject, SceneObjectKind,
};
use crate::scene_merge::{copy_of, sources};
use crate::text::{first_index, lemma_first_index};
use vstd::prelude::*;

verus! {

/// Meshes and texture of the demonstration.
#[derive(Clone, Copy, Debug)]
pub struct DemoAssets {
    pub triangle: Handle,
    pub quad: Handle,
    pub cube: Handle,
    pub cube_texture: Option<Handle>,
}

/// Lights and placements of the demonstration.
#[derive(Debug)]
pub struct DemoLayout<T, L> {
    pub directional: (L, T),
    pub point: (L, T),
    pub area: (L, T),
    /// Without any shift, turn or scale.
    pub identity: T,
    pub right_triangle: T,
    pub quad: T,
    pub upper_triangle: T,
    pub cube: T,
    /// Relative to the cube.
    pub small_triangle: T,
}

/// Number of objects of the demonstration.
pub const DEMO_OBJECTS: usize = 9;

/// Object `i` of the demonstration.
pub open spec fn demo_object<T, L>(a: DemoAssets, d: DemoLayout<T, L>, i: int) -> SceneObject<T, L> {
    let (transform, kind) = if i == 0 {
        (d.directional.1, SceneObjectKind::Light(d.directional.0))
    } else if i == 1 {
        (d.point.1, SceneObjectKind::Light(d.point.0))
    } else if i == 2 {
        (d.area.1, SceneObjectKind::Light(d.area.0))
    } else if i == 3 {
        (d.identity, SceneObjectKind::Mesh(a.triangle))
    } else if i == 4 {
        (d.right_triangle, SceneObjectKind::Mesh(a.triangle))
    } else if i == 5 {
        (d.quad, SceneObjectKind::Mesh(a.quad))
    } else if i == 6 {
        (d.upper_triangle, SceneObjectKind::Mesh(a.triangle))
    } else if i == 7 {
        (d.cube, SceneObjectKind::Mesh(a.cube))
    } else {
        (d.small_triangle, SceneObjectKind::Mesh(a.triangle))
    };
    SceneObject { transform, kind }
}

/// The tree with the first `n` objects of the demonstration; the last of all hangs below the cube.
pub open spec fn demo_tree<T, L>(
    m: SceneModel<T, L>,
    a: DemoAssets,
    d: DemoLayout<T, L>,
    keys: Seq<ObjectKey>,
    n: nat,
) -> SceneModel<T, L>
    decreases n,
{
    if n == 0 {
        m
    } else {
        demo_tree(m, a, d, keys, (n - 1) as nat).with_node(
            keys[n as int - 1],
            demo_object(a, d, n as int - 1),
            if n == DEMO_OBJECTS {
                Some(keys[7])
            } else {
                None
            },
        )
    }
}

/// What the demonstration makes of an empty view.
pub open spec fn demo_shown<T, L, C, E, N>(
    v0: ClientModel<T, L, Material, C, E, N>,
    v1: ClientModel<T, L, Material, C, E, N>,
    a: DemoAssets,
    d: DemoLayout<T, L>,
    keys: Seq<ObjectKey>,
) -> bool {
    &&& keys.len() == DEMO_OBJECTS
    &&& forall|i: int| 0 <= i < keys.len() ==> (#[trigger] keys[i]).serial == v0.tree.next + i
    &&& v1.tree == demo_tree(v0.tree, a, d, keys, DEMO_OBJECTS as nat)
    &&& v1.materials == v0.materials.insert(
        keys[7],
        (Material { base_color_texture: a.cube_texture, ..Material::plain() }),
    )
    &&& v1.same_view(v0)
}

/// What the demonstration makes of an empty view, under some new keys.
pub open spec fn demo_built<T, L, C, E, N>(
    v0: ClientModel<T, L, Material, C, E, N>,
    v1: ClientModel<T, L, Material, C, E, N>,
    a: DemoAssets,
    d: DemoLayout<T, L>,
) -> bool {
    exists|keys: Seq<ObjectKey>| #[trigger] demo_shown(v0, v1, a, d, keys)
}

impl<T: Copy, L: Copy, C: Copy, E, N: Copy> ClientScene<T, L, Material, C, E, N> {
    /// The demonstration scene, in a view that is empty yet.
    pub fn demo(self, assets: DemoAssets, layout: &DemoLayout<T, L>) -> (s: ClientScene<
        T,
        L,
        Material,
        C,
        E,
        N,
    >)
        requires
            self.wf(),
            self@.tree.next <= u64::MAX - DEMO_OBJECTS,
        ensures
            s.wf(),
            demo_built(self@, s@, assets, *layout),
    {
        let ghost v0 = self@;
        let ghost a = assets;
        let ghost d = *layout;
        let mut out = self;
        let k0 = out.add_object(
            SceneObject::new(SceneObjectKind::Light(layout.directional.0), layout.directional.1),
        );
        let k1 = out.add_object(
            SceneObject::new(SceneObjectKind::Light(layout.point.0), layout.point.1),
        );
        let k2 = out.add_object(
            SceneObject::new(SceneObjectKind::Light(layout.area.0), layout.area.1),
        );
        let k3 = out.add_object(
            SceneObject::new(SceneObjectKind::Mesh(assets.triangle), layout.identity),
        );
        let k4 = out.add_object(
            SceneObject::new(SceneObjectKind::Mesh(assets.triangle), layout.right_triangle),
        );
        let k5 = out.add_object(
            SceneObject::new(SceneObjectKind::Mesh(assets.quad), layout.quad),
        );
        let k6 = out.add_object(
            SceneObject::new(SceneObjectKind::Mesh(assets.triangle), layout.upper_triangle),
        );
        let cube = out.add_object(
            SceneObject::new(SceneObjectKind::Mesh(assets.cube), layout.cube),
        );
        let ghost v8 = out@;
        let follower = out.attach_object(
            cube,
            SceneObject::new(SceneObjectKind::Mesh(assets.triangle), layout.small_triangle),
        );
        let k8 = match follower {
            Some(key) => key,
            None => cube,
        };
        let plain: Material = Material::default();
        let material = Material { base_color_texture: assets.cube_texture, ..plain };
        out.set_material(cube, material);
        proof {
            let keys = seq![k0, k1, k2, k3, k4, k5, k6, cube, k8];
            reveal_with_fuel(demo_tree, 10);
            assert(v8.tree == demo_tree(v0.tree, a, d, keys, 8));
            assert(out@.tree == demo_tree(v0.tree, a, d, keys, 9));
            assert(demo_shown(v0, out@, a, d, keys));
        }
        out
    }
}

/// Rows of copies of the test model.
pub const COPY_ROWS: u32 = 5;

/// Copies of the test model in a row.
pub const COPY_COLUMNS: u32 = 10;

/// Number of copies of the test model.
pub const COPIES: u32 = 50;

/// The object is the first mesh of the tree, by ascending node.
pub open spec fn is_first_mesh<T, L>(m: SceneModel<T, L>, k: ObjectKey) -> bool {
    &&& m.nodes.contains_key(k)
    &&& m.nodes[k].object.kind is Mesh
    &&& forall|j: ObjectKey| #[trigger]
        m.nodes.contains_key(j) && m.nodes[j].object.kind is Mesh ==> k.index <= j.index
}

/// No object of the tree is a mesh.
pub open spec fn no_mesh<T, L>(m: SceneModel<T, L>) -> bool {
    forall|j: ObjectKey| #[trigger]
        m.nodes.contains_key(j) ==> !(m.nodes[j].object.kind is Mesh)
}

/// The view with a model copied in; `roots` are the copies of its roots.
pub open spec fn copied_under<T, L, C, E, N>(
    v0: ClientModel<T, L, Material, C, E, N>,
    model: ClientModel<T, L, Material, C, E, N>,
    v1: ClientModel<T, L, Material, C, E, N>,
    roots: Seq<ObjectKey>,
) -> bool {
    exists|remap: Seq<(ObjectKey, ObjectKey)>, old_roots: Seq<ObjectKey>|
        #![trigger
            client_merged(v0, model, v1, remap),
            model.tree.lists(old_roots, hangs_below(model.tree, None))]
        client_merged(v0, model, v1, remap) && model.tree.lists(
            old_roots,
            hangs_below(model.tree, None),
        ) && roots == old_roots.map_values(|k: ObjectKey| copy_of(remap, k))
}

/// The object at `k` before and after the first `n` of some objects were placed anew.
pub open spec fn placed_anew<T, L, F: Fn(T) -> T>(
    o0: SceneObject<T, L>,
    o1: SceneObject<T, L>,
    adjust: F,
    chosen: bool,
) -> bool {
    &&& o1.kind == o0.kind
    &&& if chosen {
        call_ensures(adjust, (o0.transform,), o1.transform)
    } else {
        o1.transform == o0.transform
    }
}

/// The view with some objects placed anew, all else as before.
pub open spec fn adjusted<T, L, C, E, N, F: Fn(T) -> T>(
    v1: ClientModel<T, L, Material, C, E, N>,
    v2: ClientModel<T, L, Material, C, E, N>,
    keys: Seq<ObjectKey>,
    adjust: F,
) -> bool {
    &&& v2.tree.nodes.dom() == v1.tree.nodes.dom()
    &&& v2.tree.light_cache == v1.tree.light_cache
    &&& v2.tree.next == v1.tree.next
    &&& v2.materials == v1.materials
    &&& v2.same_view(v1)
    &&& forall|k: ObjectKey| #[trigger]
        v2.tree.nodes.contains_key(k) ==> v2.tree.nodes[k].parent == v1.tree.nodes[k].parent
            && placed_anew(
            v1.tree.nodes[k].object,
            v2.tree.nodes[k].object,
            adjust,
            keys.contains(k),
        )
}

/// The view with the first `n` copies of a mesh, row after row.
pub open spec fn strewn<T, L, C, E, N>(
    v: ClientModel<T, L, Material, C, E, N>,
    mesh: Handle,
    material: Material,
    keys: Seq<ObjectKey>,
    places: Seq<T>,
    n: nat,
) -> ClientModel<T, L, Material, C, E, N>
    decreases n,
{
    if n == 0 {
        v
    } else {
        let w = strewn(v, mesh, material, keys, places, (n - 1) as nat);
        let k = keys[n - 1];
        ClientModel {
            tree: w.tree.with_node(
                k,
                SceneObject { transform: places[n - 1], kind: SceneObjectKind::Mesh(mesh) },
                None,
            ),
            materials: w.materials.insert(k, material),
            ..w
        }
    }
}

/// Copy `i` lies where row and column say.
pub open spec fn in_rows<T, G: Fn(u32, u32) -> T>(places: Seq<T>, place: G) -> bool {
    forall|i: int|
        0 <= i < places.len() ==> call_ensures(
            place,
            ((i / COPY_COLUMNS as int) as u32, (i % COPY_COLUMNS as int) as u32),
            #[trigger] places[i],
        )
}

/// The view with all copies of a mesh, under some new keys.
pub open spec fn all_strewn<T, L, C, E, N, G: Fn(u32, u32) -> T>(
    v2: ClientModel<T, L, Material, C, E, N>,
    v3: ClientModel<T, L, Material, C, E, N>,
    mesh: Handle,
    material: Material,
    place: G,
) -> bool {
    exists|keys: Seq<ObjectKey>, places: Seq<T>|
        #[trigger] copies_fit(v2.tree.next, keys, places) && in_rows(places, place) && v3
            == strewn(v2, mesh, material, keys, places, COPIES as nat)
}

/// As many new keys and places as there are copies.
pub open spec fn copies_fit<T>(next: u64, keys: Seq<ObjectKey>, places: Seq<T>) -> bool {
    &&& keys.len() == COPIES
    &&& places.len() == COPIES
    &&& forall|i: int| 0 <= i < keys.len() ==> (#[trigger] keys[i]).serial == next + i
}

/// What adding the test model makes of a view: the model is copied in and its roots are placed
/// anew; then its first mesh is strewn about, where it has one.
pub open spec fn model_added<T, L, C, E, N, F: Fn(T) -> T, G: Fn(u32, u32) -> T>(
    v0: ClientModel<T, L, Material, C, E, N>,
    model: ClientModel<T, L, Material, C, E, N>,
    v3: ClientModel<T, L, Material, C, E, N>,
    adjust: F,
    place: G,
) -> bool {
    exists|
        v1: ClientModel<T, L, Material, C, E, N>,
        v2: ClientModel<T, L, Material, C, E, N>,
        roots: Seq<ObjectKey>,
    |
        #![trigger copied_under(v0, model, v1, roots), adjusted(v1, v2, roots, adjust)]
        copied_under(v0, model, v1, roots) && adjusted(v1, v2, roots, adjust)
            && mesh_strewn(v2, model, v3, place)
}

/// The first mesh of the model is strewn about, where it has one.
pub open spec fn mesh_strewn<T, L, C, E, N, G: Fn(u32, u32) -> T>(
    v2: ClientModel<T, L, Material, C, E, N>,
    model: ClientModel<T, L, Material, C, E, N>,
    v3: ClientModel<T, L, Material, C, E, N>,
    place: G,
) -> bool {
    if no_mesh(model.tree) {
        v3 == v2
    } else {
        exists|k: ObjectKey| #[trigger]
            is_first_mesh(model.tree, k) && all_strewn(
                v2,
                v3,
                model.tree.nodes[k].object.kind->Mesh_0,
                material_or_plain(model, k),
                place,
            )
    }
}

impl<T: Copy, L: Copy, C: Copy, E, N: Copy> ClientScene<T, L, Material, C, E, N> {
    /// The first object that is a mesh, with that mesh.
    pub fn first_mesh(&self) -> (r: Option<(ObjectKey, Handle)>)
        requires
            self.wf(),
        ensures
            match r {
                Some((k, h)) => is_first_mesh(self@.tree, k) && self@.tree.nodes[k].object.kind
                    == SceneObjectKind::<L>::Mesh(h),
                None => no_mesh(self@.tree),
            },
    {
        let list = self.scene().objects();
        let ghost tree = self@.tree;
        let mut i: usize = 0;
        while i < list.len()
            invariant
                self.wf(),
                tree == self@.tree,
                i <= list@.len(),
                tree.lists(list@, any_object()),
                forall|j: int|
                    0 <= j < i ==> !(tree.nodes[#[trigger] list@[j]].object.kind is Mesh),
            decreases list@.len() - i,
        {
            let key = list[i];
            proof {
                assert(list@.contains(key));
            }
            if let Some(object) = self.scene().object(key) {
                if let Some(h) = object.mesh_handle() {
                    proof {
                        assert forall|j: ObjectKey| #[trigger]
                            tree.nodes.contains_key(j)
                                && tree.nodes[j].object.kind is Mesh implies key.index
                            <= j.index by {
                            assert(any_object()(j));
                            assert(list@.contains(j));
                            let at = choose|at: int| 0 <= at < list@.len() && list@[at] == j;
                            assert(at >= i);
                            if at > i {
                                assert(list@[i as int].index < list@[at].index);
                            }
                        }
                    }
                    return Some((key, h));
                }
            }
            i += 1;
        }
        proof {
            assert forall|j: ObjectKey| #[trigger] tree.nodes.contains_key(j) implies !(
            tree.nodes[j].object.kind is Mesh) by {
                assert(any_object()(j));
                assert(list@.contains(j));
                let at = choose|at: int| 0 <= at < list@.len() && list@[at] == j;
                assert(!(tree.nodes[list@[at]].object.kind is Mesh));
            }
        }
        None
    }

    fn adjust_all<F: Fn(T) -> T>(&mut self, keys: &Vec<ObjectKey>, adjust: &F)
        requires
            old(self).wf(),
            keys@.no_duplicates(),
            forall|t: T| call_requires(*adjust, (t,)),
        ensures
            final(self).wf(),
            adjusted(old(self)@, final(self)@, keys@, *adjust),
    {
        let ghost v1 = self@;
        let mut i: usize = 0;
        while i < keys.len()
            invariant
                self.wf(),
                v1 == old(self)@,
                keys@.no_duplicates(),
                i <= keys@.len(),
                forall|t: T| call_requires(*adjust, (t,)),
                adjusted(v1, self@, keys@.take(i as int), *adjust),
            decreases keys@.len() - i,
        {
            let key = keys[i];
            let ghost v = self@;
            let ghost done = keys@.take(i as int);
            let ghost more = keys@.take(i + 1);
            proof {
                assert forall|k: ObjectKey| #[trigger] more.contains(k) <==> done.contains(k) || k
                    == key by {
                    if done.contains(k) {
                        let j = choose|j: int| 0 <= j < done.len() && done[j] == k;
                        assert(more[j] == k);
                    }
                    if k == key {
                        assert(more[i as int] == k);
                    }
                    if more.contains(k) {
                        let j = choose|j: int| 0 <= j < more.len() && more[j] == k;
                        if j < i {
                            assert(done[j] == k);
                        }
                    }
                }
                assert(!done.contains(key)) by {
                    if done.contains(key) {
                        let j = choose|j: int| 0 <= j < done.len() && done[j] == key;
                        assert(keys@[j] == keys@[i as int]);
                    }
                }
            }
            let found: Option<SceneObject<T, L>> = match self.scene().object(key) {
                Some(object) => Some(*object),
                None => None,
            };
            if let Some(object) = found {
                let transform = adjust(object.transform);
                let moved = SceneObject { transform, kind: object.kind };
                self.set_object(key, moved);
                proof {
                    assert(v.tree.nodes.contains_key(key));
                    assert(self@.tree.nodes.dom() =~= v1.tree.nodes.dom());
                    assert forall|k: ObjectKey| #[trigger] self@.tree.nodes.contains_key(k)
                        implies self@.tree.nodes[k].parent == v1.tree.nodes[k].parent
                        && placed_anew(
                        v1.tree.nodes[k].object,
                        self@.tree.nodes[k].object,
                        *adjust,
                        more.contains(k),
                    ) by {
                        assert(v.tree.nodes.contains_key(k));
                    }
                }
            }
            i += 1;
        }
        proof {
            assert(keys@.take(keys@.len() as int) =~= keys@);
        }
    }

    fn strew<G: Fn(u32, u32) -> T>(&mut self, mesh: Handle, material: Material, place: &G)
        requires
            old(self).wf(),
            old(self)@.tree.next <= u64::MAX - COPIES,
            forall|row: u32, column: u32| call_requires(*place, (row, column)),
        ensures
            final(self).wf(),
            all_strewn(old(self)@, final(self)@, mesh, material, *place),
    {
        let ghost v2 = self@;
        let ghost mut keys: Seq<ObjectKey> = Seq::empty();
        let ghost mut places: Seq<T> = Seq::empty();
        let mut i: u32 = 0;
        while i < COPIES
            invariant
                self.wf(),
                v2 == old(self)@,
                v2.tree.next <= u64::MAX - COPIES,
                i <= COPIES,
                keys.len() == i,
                places.len() == i,
                self@.tree.next == v2.tree.next + i,
                forall|row: u32, column: u32| call_requires(*place, (row, column)),
                forall|j: int|
                    0 <= j < keys.len() ==> (#[trigger] keys[j]).serial == v2.tree.next + j,
                in_rows(places, *place),
                self@ == strewn(v2, mesh, material, keys, places, i as nat),
            decreases COPIES - i,
        {
            let ghost keys0 = keys;
            let ghost places0 = places;
            let transform = place(i / COPY_COLUMNS, i % COPY_COLUMNS);
            let key = self.add_object(SceneObject::new(SceneObjectKind::Mesh(mesh), transform));
            self.set_material(key, material);
            proof {
                keys = keys.push(key);
                places = places.push(transform);
                lemma_strewn_prefix(v2, mesh, material, keys0, places0, key, transform, i as nat);
                assert(in_rows(places, *place)) by {
                    assert forall|j: int| 0 <= j < places.len() implies call_ensures(
                        *place,
                        ((j / COPY_COLUMNS as int) as u32, (j % COPY_COLUMNS as int) as u32),
                        #[trigger] places[j],
                    ) by {
                        if j < i {
                            assert(places[j] == places0[j]);
                        }
                    }
                }
                assert(self@ =~= strewn(v2, mesh, material, keys, places, (i + 1) as nat));
            }
            i += 1;
        }
        proof {
            assert(copies_fit(v2.tree.next, keys, places));
        }
    }

    /// Copies the test model into the view and places its roots anew, then strews copies of its
    /// first mesh in rows.
    pub fn add_test_model<F: Fn(T) -> T, G: Fn(u32, u32) -> T>(
        &mut self,
        model: &ClientScene<T, L, Material, C, E, N>,
        adjust: F,
        place: G,
    )
        requires
            old(self).wf(),
            model.wf(),
            old(self)@.tree.next + model@.tree.nodes.dom().len() + COPIES <= u64::MAX,
            forall|t: T| call_requires(adjust, (t,)),
            forall|row: u32, column: u32| call_requires(place, (row, column)),
        ensures
            final(self).wf(),
            model_added(old(self)@, model@, final(self)@, adjust, place),
    {
        let ghost v0 = self@;
        let ghost om = model@;
        let roots = self.merge(model);
        let ghost v1 = self@;
        let ghost r = roots@;
        proof {
            assert(copied_under(v0, om, v1, r));
            lemma_copies(v0, om, v1, r);
        }
        self.adjust_all(&roots, &adjust);
        let ghost v2 = self@;
        if let Some((key, mesh)) = model.first_mesh() {
            let material = match model.material(key) {
                Some(m) => *m,
                None => Material::default(),
            };
            self.strew(mesh, material, &place);
            proof {
                assert(om.tree.nodes.contains_key(key));
                assert(is_first_mesh(om.tree, key));
            }
        }
        proof {
            assert(copied_under(v0, om, v1, r) && adjusted(v1, v2, r, adjust));
            assert(mesh_strewn(v2, om, self@, place));
        }
    }
}

/// The copies of different roots are different, and there is one new object for each of the model.
proof fn lemma_copies<T, L, C, E, N>(
    v0: ClientModel<T, L, Material, C, E, N>,
    model: ClientModel<T, L, Material, C, E, N>,
    v1: ClientModel<T, L, Material, C, E, N>,
    roots: Seq<ObjectKey>,
)
    requires
        copied_under(v0, model, v1, roots),
    ensures
        roots.no_duplicates(),
        v1.tree.next == v0.tree.next + model.tree.nodes.dom().len(),
{
    let (remap, old_roots) = choose|
        remap: Seq<(ObjectKey, ObjectKey)>,
        old_roots: Seq<ObjectKey>,
    |
        #![trigger
            client_merged(v0, model, v1, remap),
            model.tree.lists(old_roots, hangs_below(model.tree, None))]
        client_merged(v0, model, v1, remap) && model.tree.lists(
            old_roots,
            hangs_below(model.tree, None),
        ) && roots == old_roots.map_values(|k: ObjectKey| copy_of(remap, k));
    let list = sources(remap);
    assert forall|a: int, b: int|
        0 <= a < roots.len() && 0 <= b < roots.len() && a != b implies roots[a] != roots[b] by {
        let ka = old_roots[a];
        let kb = old_roots[b];
        assert(old_roots.contains(ka) && old_roots.contains(kb));
        assert(any_object()(ka) && any_object()(kb));
        assert(list.contains(ka) && list.contains(kb));
        lemma_first_index(list, ka);
        lemma_first_index(list, kb);
        let ia = first_index(list, ka);
        let ib = first_index(list, kb);
        assert(list[ia] == ka && list[ib] == kb);
        assert(ka.index != kb.index) by {
            if a < b {
                assert(old_roots[a].index < old_roots[b].index);
            } else {
                assert(old_roots[b].index < old_roots[a].index);
            }
        }
        assert(remap[ia].1.serial == v0.tree.next + ia);
        assert(remap[ib].1.serial == v0.tree.next + ib);
    }
    assert(list.no_duplicates()) by {
        assert forall|a: int, b: int|
            0 <= a < list.len() && 0 <= b < list.len() && a != b implies list[a] != list[b] by {
            if a < b {
                assert(list[a].index < list[b].index);
            } else {
                assert(list[b].index < list[a].index);
            }
        }
    }
    list.unique_seq_to_set();
    assert(list.to_set() =~= model.tree.nodes.dom()) by {
        assert forall|k: ObjectKey|
            list.to_set().contains(k) == model.tree.nodes.dom().contains(k) by {
            assert(list.contains(k) <==> model.tree.nodes.contains_key(k) && any_object()(k));
        }
    }
}

/// Further keys and places do not change what was strewn before.
proof fn lemma_strewn_prefix<T, L, C, E, N>(
    v: ClientModel<T, L, Material, C, E, N>,
    mesh: Handle,
    material: Material,
    keys: Seq<ObjectKey>,
    places: Seq<T>,
    key: ObjectKey,
    place: T,
    n: nat,
)
    requires
        n <= keys.len(),
        n <= places.len(),
    ensures
        strewn(v, mesh, material, keys.push(key), places.push(place), n) == strewn(
            v,
            mesh,
            material,
            keys,
            places,
            n,
        ),
    decreases n,
{
    if n > 0 {
        lemma_strewn_prefix(v, mesh, material, keys, places, key, place, (n - 1) as nat);
    }
}

proof fn lemma_demo_tree<T, L>(
    m: SceneModel<T, L>,
    a: DemoAssets,
    d: DemoLayout<T, L>,
    keys: Seq<ObjectKey>,
    n: nat,
    i: int,
    other: ObjectKey,
)
    requires
        n <= DEMO_OBJECTS,
        keys.len() == DEMO_OBJECTS,
        forall|j: int| 0 <= j < keys.len() ==> (#[trigger] keys[j]).serial == m.next + j,
    ensures
        0 <= i < n ==> demo_tree(m, a, d, keys, n).nodes.contains_key(keys[i]) && demo_tree(
            m,
            a,
            d,
            keys,
            n,
        ).nodes[keys[i]].object == demo_object(a, d, i) && demo_tree(
            m,
            a,
            d,
            keys,
            n,
        ).nodes[keys[i]].parent == (if i == 8 {
            Some(keys[7])
        } else {
            None
        }),
        other.serial < m.next ==> demo_tree(m, a, d, keys, n).nodes.contains_key(other)
            == m.nodes.contains_key(other) && (m.nodes.contains_key(other) ==> demo_tree(
            m,
            a,
            d,
            keys,
            n,
        ).nodes[other] == m.nodes[other]),
    decreases n,
{
    if n > 0 {
        lemma_demo_tree(m, a, d, keys, (n - 1) as nat, i, other);
        assert(keys[n - 1].serial == m.next + n - 1);
        if 0 <= i < n - 1 {
            assert(keys[i].serial == m.next + i);
        }
    }
}

/// The demonstration shows three lights, three triangles, a square and a cube, each where the layout
/// puts it, and on the cube a small triangle. Only the cube is dressed: plain, with its texture.
/// What was there stays.
pub proof fn demos_show_what_the_layout_says<T, L, C, E, N>(
    v0: ClientModel<T, L, Material, C, E, N>,
    v1: ClientModel<T, L, Material, C, E, N>,
    a: DemoAssets,
    d: DemoLayout<T, L>,
    keys: Seq<ObjectKey>,
    i: int,
    other: ObjectKey,
)
    requires
        demo_shown(v0, v1, a, d, keys),
        0 <= i < 9,
    ensures
        keys.len() == 9,
        v1.tree.nodes.contains_key(keys[i]),
        ({
            let o = v1.tree.nodes[keys[i]].object;
            &&& i == 0 ==> o.transform == d.directional.1 && o.kind == SceneObjectKind::<L>::Light(
                d.directional.0,
            )
            &&& i == 1 ==> o.transform == d.point.1 && o.kind == SceneObjectKind::<L>::Light(
                d.point.0,
            )
            &&& i == 2 ==> o.transform == d.area.1 && o.kind == SceneObjectKind::<L>::Light(
                d.area.0,
            )
            &&& i == 3 ==> o.transform == d.identity && o.kind == SceneObjectKind::<L>::Mesh(
                a.triangle,
            )
            &&& i == 4 ==> o.transform == d.right_triangle && o.kind == SceneObjectKind::<L>::Mesh(
                a.triangle,
            )
            &&& i == 5 ==> o.transform == d.quad && o.kind == SceneObjectKind::<L>::Mesh(a.quad)
            &&& i == 6 ==> o.transform == d.upper_triangle && o.kind == SceneObjectKind::<L>::Mesh(
                a.triangle,
            )
            &&& i == 7 ==> o.transform == d.cube && o.kind == SceneObjectKind::<L>::Mesh(a.cube)
            &&& i == 8 ==> o.transform == d.small_triangle && o.kind == SceneObjectKind::<L>::Mesh(
                a.triangle,
            )
        }),
        i < 8 ==> v1.tree.nodes[keys[i]].parent is None,
        i == 8 ==> v1.tree.nodes[keys[i]].parent == Some(keys[7]),
        v1.materials.contains_key(keys[7]),
        v1.materials[keys[7]].base_color_texture == a.cube_texture,
        v1.materials[keys[7]].metallic_roughness_texture is None,
        v1.materials[keys[7]].normal_texture is None,
        other != keys[7] ==> v1.materials.contains_key(other) == v0.materials.contains_key(other),
        other.serial < v0.tree.next && v0.tree.nodes.contains_key(other)
            ==> v1.tree.nodes.contains_key(other) && v1.tree.nodes[other] == v0.tree.nodes[other],
{
    lemma_demo_tree(v0.tree, a, d, keys, DEMO_OBJECTS as nat, i, other);
}

/// After an adjustment the chosen objects are where the adjustment takes them, and all others where
/// they were; nothing else changes.
pub proof fn only_chosen_objects_are_adjusted<T, L, C, E, N, F: Fn(T) -> T>(
    v1: ClientModel<T, L, Material, C, E, N>,
    v2: ClientModel<T, L, Material, C, E, N>,
    keys: Seq<ObjectKey>,
    adjust: F,
    k: ObjectKey,
)
    requires
        adjusted(v1, v2, keys, adjust),
    ensures
        v2.tree.nodes.contains_key(k) == v1.tree.nodes.contains_key(k),
        v1.tree.nodes.contains_key(k) ==> v2.tree.nodes[k].parent == v1.tree.nodes[k].parent
            && v2.tree.nodes[k].object.kind == v1.tree.nodes[k].object.kind,
        v1.tree.nodes.contains_key(k) && keys.contains(k) ==> call_ensures(
            adjust,
            (v1.tree.nodes[k].object.transform,),
            v2.tree.nodes[k].object.transform,
        ),
        v1.tree.nodes.contains_key(k) && !keys.contains(k) ==> v2.tree.nodes[k].object.transform
            == v1.tree.nodes[k].object.transform,
        v2.materials == v1.materials,
        v2.camera == v1.camera,
        v2.environment == v1.environment,
{
    assert(v2.tree.nodes.dom().contains(k) == v1.tree.nodes.dom().contains(k));
}

proof fn lemma_strewn<T, L, C, E, N>(
    v: ClientModel<T, L, Material, C, E, N>,
    mesh: Handle,
    material: Material,
    keys: Seq<ObjectKey>,
    places: Seq<T>,
    n: nat,
    i: int,
    other: ObjectKey,
)
    requires
        n <= keys.len(),
        forall|j: int| 0 <= j < keys.len() ==> (#[trigger] keys[j]).serial == v.tree.next + j,
    ensures
        ({
            let w = strewn(v, mesh, material, keys, places, n);
            &&& 0 <= i < n ==> {
                &&& w.tree.nodes.contains_key(keys[i])
                &&& w.tree.nodes[keys[i]].object.transform == places[i]
                &&& w.tree.nodes[keys[i]].object.kind == SceneObjectKind::<L>::Mesh(mesh)
                &&& w.tree.nodes[keys[i]].parent is None
                &&& w.materials.contains_key(keys[i])
                &&& w.materials[keys[i]] == material
            }
            &&& other.serial < v.tree.next ==> w.tree.nodes.contains_key(other)
                == v.tree.nodes.contains_key(other) && (v.tree.nodes.contains_key(other)
                ==> w.tree.nodes[other] == v.tree.nodes[other])
        }),
    decreases n,
{
    if n > 0 {
        lemma_strewn(v, mesh, material, keys, places, (n - 1) as nat, i, other);
        assert(keys[n - 1].serial == v.tree.next + n - 1);
        if 0 <= i < n - 1 {
            assert(keys[i].serial == v.tree.next + i);
        }
    }
}

/// Fifty copies of a mesh are strewn, five rows of ten: the copy in some row and column is the mesh,
/// dressed in the material, below no other object, and lies where the place of that row and column
/// says. What was there stays.
pub proof fn copies_lie_in_rows_and_columns<T, L, C, E, N, G: Fn(u32, u32) -> T>(
    v2: ClientModel<T, L, Material, C, E, N>,
    v3: ClientModel<T, L, Material, C, E, N>,
    mesh: Handle,
    material: Material,
    place: G,
    row: u32,
    column: u32,
    other: ObjectKey,
) -> (key: ObjectKey)
    requires
        all_strewn(v2, v3, mesh, material, place),
        row < 5,
        column < 10,
    ensures
        key.serial == v2.tree.next + row * 10 + column,
        v3.tree.nodes.contains_key(key),
        call_ensures(place, (row, column), v3.tree.nodes[key].object.transform),
        v3.tree.nodes[key].object.kind == SceneObjectKind::<L>::Mesh(mesh),
        v3.tree.nodes[key].parent is None,
        v3.materials.contains_key(key),
        v3.materials[key] == material,
        other.serial < v2.tree.next && v2.tree.nodes.contains_key(other)
            ==> v3.tree.nodes.contains_key(other) && v3.tree.nodes[other] == v2.tree.nodes[other],
{
    let (keys, places) = choose|keys: Seq<ObjectKey>, places: Seq<T>|
        #[trigger] copies_fit(v2.tree.next, keys, places) && in_rows(places, place) && v3
            == strewn(v2, mesh, material, keys, places, COPIES as nat);
    let i = row as int * 10 + column as int;
    lemma_strewn(v2, mesh, material, keys, places, COPIES as nat, i, other);
    assert(keys[i].serial == v2.tree.next + i);
    assert(i / 10 == row as int && i % 10 == column as int);
    assert(call_ensures(
        place,
        ((i / COPY_COLUMNS as int) as u32, (i % COPY_COLUMNS as int) as u32),
        places[i],
    ));
    assert((i / COPY_COLUMNS as int) as u32 == row);
    assert((i % COPY_COLUMNS as int) as u32 == column);
    keys[i]
}

/// The first mesh of a tree is a mesh of it, and no mesh has a lesser node; without any mesh there
/// is none.
pub proof fn first_meshes_have_the_least_node<T, L>(m: SceneModel<T, L>, k: ObjectKey, j: ObjectKey)
    ensures
        is_first_mesh(m, k) ==> m.nodes.contains_key(k) && m.nodes[k].object.kind is Mesh,
        is_first_mesh(m, k) && m.nodes.contains_key(j) && m.nodes[j].object.kind is Mesh ==> k.index
            <= j.index,
        no_mesh(m) && m.nodes.contains_key(j) ==> !(m.nodes[j].object.kind is Mesh),
        is_first_mesh(m, k) ==> !no_mesh(m),
{
}

/// A test model is copied into the view; the copies of its roots are adjusted, and fifty copies of
/// its first mesh, dressed as that mesh is or plainly, are strewn around. A model without mesh
/// strews none.
pub proof fn test_models_are_copied_and_strewn<T, L, C, E, N, F: Fn(T) -> T, G: Fn(u32, u32) -> T>(
    v0: ClientModel<T, L, Material, C, E, N>,
    model: ClientModel<T, L, Material, C, E, N>,
    v3: ClientModel<T, L, Material, C, E, N>,
    adjust: F,
    place: G,
) -> (views: (ClientModel<T, L, Material, C, E, N>, ClientModel<T, L, Material, C, E, N>))
    requires
        model_added(v0, model, v3, adjust, place),
    ensures
        exists|remap: Seq<(ObjectKey, ObjectKey)>, roots: Seq<ObjectKey>|
            #![trigger client_merged(v0, model, views.0, remap), adjusted(
                views.0,
                views.1,
                roots,
                adjust,
            )]
            client_merged(v0, model, views.0, remap) && adjusted(views.0, views.1, roots, adjust)
                && (forall|k: ObjectKey| #[trigger]
                model.tree.nodes.contains_key(k) && model.tree.nodes[k].parent is None
                    ==> roots.contains(copy_of(remap, k))),
        (forall|j: ObjectKey| #[trigger]
            model.tree.nodes.contains_key(j) ==> !(model.tree.nodes[j].object.kind is Mesh)) ==> v3
            == views.1,
        (exists|j: ObjectKey| #[trigger]
            model.tree.nodes.contains_key(j) && model.tree.nodes[j].object.kind is Mesh) ==> exists|
            k: ObjectKey,
        | #[trigger]
            is_first_mesh(model.tree, k) && all_strewn(
                views.1,
                v3,
                model.tree.nodes[k].object.kind->Mesh_0,
                if model.materials.contains_key(k) {
                    model.materials[k]
                } else {
                    Material::plain()
                },
                place,
            ),
{
    let (v1, v2, roots) = choose|
        v1: ClientModel<T, L, Material, C, E, N>,
        v2: ClientModel<T, L, Material, C, E, N>,
        roots: Seq<ObjectKey>,
    |
        #![trigger copied_under(v0, model, v1, roots), adjusted(v1, v2, roots, adjust)]
        copied_under(v0, model, v1, roots) && adjusted(v1, v2, roots, adjust) && mesh_strewn(
            v2,
            model,
            v3,
            place,
        );
    let (remap, old_roots) = choose|
        remap: Seq<(ObjectKey, ObjectKey)>,
        old_roots: Seq<ObjectKey>,
    |
        #![trigger
            client_merged(v0, model, v1, remap),
            model.tree.lists(old_roots, hangs_below(model.tree, None))]
        client_merged(v0, model, v1, remap) && model.tree.lists(
            old_roots,
            hangs_below(model.tree, None),
        ) && roots == old_roots.map_values(|k: ObjectKey| copy_of(remap, k));
    assert forall|k: ObjectKey| #[trigger]
        model.tree.nodes.contains_key(k) && model.tree.nodes[k].parent is None implies roots.contains(
        copy_of(remap, k),
    ) by {
        assert(hangs_below(model.tree, None)(k));
        assert(old_roots.contains(k));
        let i = choose|i: int| 0 <= i < old_roots.len() && old_roots[i] == k;
        assert(roots[i] == copy_of(remap, k));
    }
    let views = (v1, v2);
    assert(views.0 == v1 && views.1 == v2);
    assert(client_merged(v0, model, views.0, remap) && adjusted(views.0, views.1, roots, adjust)
        && (forall|k: ObjectKey| #[trigger]
        model.tree.nodes.contains_key(k) && model.tree.nodes[k].parent is None ==> roots.contains(
            copy_of(remap, k),
        )));
    views
}

} // verus!
