//! Loading glTF files into the registries of the client: meshes, textures and whole scenes.
use crate::client_scene::{ClientModel, ClientScene};
use crate::document::{gltf_roots, read_counts, read_materials, read_nodes, read_roots, Placement};
use crate::game_path::{Address, GamePath};
use crate::glb::{
    glb_of, glb_readable, listed, number_up, numbers, parse_glb, GlbAssets,
};
use crate::handle::Handle;
use crate::material::Material;
use crate::memory::MemoryLayer;
use crate::mesh::Mesh;
use crate::registry::{AssetRegistry, RegistryModel};
use crate::residency::{all_registered, register_entries, AssetLoader, Locators};
use crate::resource::MergedResourceSpace;
use crate::scene::ObjectKey;
use crate::scene_load::{document_of, scene_readable, TemplateError};
use crate::template::{
    build_scene, plan_scene, planned, template_made, DocumentModel, GltfDocument, SceneTemplate,
};
use crate::texture::{FloatMath, Texture};
use vstd::prelude::*;

verus! {

/// Reads files of the resource space.
pub trait FileReader {
    /// The bytes of a file; `None` where it cannot be read.
    fn read(&self, space: &MergedResourceSpace, path: &GamePath) -> Option<Vec<u8>>;
}

/// Reads meshes and textures out of glTF files.
#[derive(Debug)]
pub struct GlbLoader<Q: FloatMath, R: FileReader> {
    pub math: Q,
    pub files: R,
}

/// What comes of reading a file with those bytes.
pub open spec fn glb_read<Q: FloatMath>(
    math: &Q,
    bytes: Option<Vec<u8>>,
    r: Option<GlbAssets>,
) -> bool {
    match bytes {
        None => r is None,
        Some(b) => (r is Some <==> glb_readable(b@)) && (r matches Some(assets) ==> glb_of(
            math,
            b@,
            assets,
        )),
    }
}

/// What comes of reading a file.
pub open spec fn glb_loaded<Q: FloatMath, R: FileReader>(
    loader: &GlbLoader<Q, R>,
    space: &MergedResourceSpace,
    path: &GamePath,
    r: Option<GlbAssets>,
) -> bool {
    exists|bytes: Option<Vec<u8>>| #[trigger]
        call_ensures(R::read, (&loader.files, space, path), bytes) && glb_read(
            &loader.math,
            bytes,
            r,
        )
}

impl<Q: FloatMath, R: FileReader> GlbLoader<Q, R> {
    /// Reads and parses a file.
    pub fn load_assets(&self, space: &MergedResourceSpace, path: &GamePath) -> (r: Option<
        GlbAssets,
    >)
        ensures
            glb_loaded(self, space, path, r),
    {
        let bytes = self.files.read(space, path);
        let r = match &bytes {
            None => None,
            Some(b) => parse_glb(&self.math, b.as_slice()),
        };
        proof {
            assert(glb_read(&self.math, bytes, r));
        }
        r
    }
}

impl<Q: FloatMath, R: FileReader> AssetLoader<Mesh> for GlbLoader<Q, R> {
    type Parsed = GlbAssets;

    open spec fn listed(&self, parsed: GlbAssets) -> Locators {
        numbers(parsed.meshes@.len())
    }

    open spec fn found(&self, parsed: GlbAssets, extra: u64) -> Option<Mesh> {
        if extra < parsed.meshes@.len() {
            Some(parsed.meshes@[extra as int])
        } else {
            None
        }
    }

    open spec fn may_load(
        &self,
        space: &MergedResourceSpace,
        path: &GamePath,
        r: Option<GlbAssets>,
    ) -> bool {
        glb_loaded(self, space, path, r)
    }

    fn load(&self, space: &MergedResourceSpace, path: &GamePath) -> (r: Option<GlbAssets>) {
        self.load_assets(space, path)
    }

    fn entries(&self, parsed: &GlbAssets) -> (list: Vec<u64>) {
        number_up(parsed.meshes.len())
    }

    fn entry<'a>(&self, parsed: &'a GlbAssets, extra: u64) -> (r: Option<&'a Mesh>) {
        if extra < parsed.meshes.len() as u64 {
            Some(&parsed.meshes[extra as usize])
        } else {
            None
        }
    }
}

impl<Q: FloatMath, R: FileReader> AssetLoader<Texture> for GlbLoader<Q, R> {
    type Parsed = GlbAssets;

    open spec fn listed(&self, parsed: GlbAssets) -> Locators {
        numbers(parsed.textures@.len())
    }

    open spec fn found(&self, parsed: GlbAssets, extra: u64) -> Option<Texture> {
        if extra < parsed.textures@.len() {
            Some(parsed.textures@[extra as int])
        } else {
            None
        }
    }

    open spec fn may_load(
        &self,
        space: &MergedResourceSpace,
        path: &GamePath,
        r: Option<GlbAssets>,
    ) -> bool {
        glb_loaded(self, space, path, r)
    }

    fn load(&self, space: &MergedResourceSpace, path: &GamePath) -> (r: Option<GlbAssets>) {
        self.load_assets(space, path)
    }

    fn entries(&self, parsed: &GlbAssets) -> (list: Vec<u64>) {
        number_up(parsed.textures.len())
    }

    fn entry<'a>(&self, parsed: &'a GlbAssets, extra: u64) -> (r: Option<&'a Texture>) {
        if extra < parsed.textures.len() as u64 {
            Some(&parsed.textures[extra as usize])
        } else {
            None
        }
    }
}

/// The materials of the first `n` entries of a list.
pub open spec fn dressed(list: Seq<(ObjectKey, Material)>, n: nat) -> Map<ObjectKey, Material>
    decreases n,
{
    if n == 0 {
        Map::empty()
    } else {
        dressed(list, (n - 1) as nat).insert(list[n as int - 1].0, list[n as int - 1].1)
    }
}

/// The view shows the scene of a template with its materials.
pub open spec fn shows<T: Copy, L: Copy, C, E, N>(
    before: ClientModel<T, L, Material, C, E, N>,
    after: ClientModel<T, L, Material, C, E, N>,
    template: SceneTemplate<T, L>,
) -> bool {
    &&& after.tree == template.scene@
    &&& after.materials == dressed(template.materials@, template.materials@.len())
    &&& after.same_view(before)
}

/// The view shows the scene that is made of the listed objects.
pub open spec fn shows_plan<T: Copy, L: Copy, C, E, N, P: Fn(Placement) -> T>(
    before: ClientModel<T, L, Material, C, E, N>,
    after: ClientModel<T, L, Material, C, E, N>,
    plan: Seq<crate::template::PlanItem>,
    identity: T,
    place: P,
) -> bool {
    exists|template: SceneTemplate<T, L>| #[trigger]
        template_made(plan, identity, place, template) && shows(before, after, template)
}

/// Shows the scene of a template. All materials belong to objects of the template.
pub fn show_template<T: Copy, L: Copy, C: Copy, E, N: Copy>(
    view: ClientScene<T, L, Material, C, E, N>,
    template: SceneTemplate<T, L>,
) -> (s: ClientScene<T, L, Material, C, E, N>)
    requires
        template.scene.wf(),
        forall|i: int|
            0 <= i < template.materials@.len() ==> template.scene@.nodes.contains_key(
                (#[trigger] template.materials@[i]).0,
            ),
    ensures
        s.wf(),
        shows(view@, s@, template),
{
    let ghost given = template;
    let list = template.materials;
    let mut s = view.from_scene(template.scene);
    let ghost first = s@;
    let mut i: usize = 0;
    while i < list.len()
        invariant
            s.wf(),
            i <= list@.len(),
            list@ == given.materials@,
            first.tree == given.scene@,
            s@ == (ClientModel { materials: dressed(list@, i as nat), ..first }),
            forall|j: int|
                0 <= j < list@.len() ==> given.scene@.nodes.contains_key((#[trigger] list@[j]).0),
        decreases list@.len() - i,
    {
        let (key, material) = list[i];
        proof {
            assert(given.scene@.nodes.contains_key(list@[i as int].0));
        }
        s.set_material(key, material);
        i += 1;
    }
    s
}

/// What comes of a document once its meshes and textures have the given handles.
pub open spec fn document_shown<T: Copy, L: Copy, C, E, N, P: Fn(Placement) -> T>(
    d: DocumentModel,
    m: Seq<Handle>,
    t: Seq<Handle>,
    view: ClientModel<T, L, Material, C, E, N>,
    identity: T,
    place: P,
    r: Result<ClientModel<T, L, Material, C, E, N>, TemplateError>,
) -> bool {
    match planned(d, m, t) {
        None => r is Err && r->Err_0 == TemplateError::Malformed,
        Some(plan) => r is Ok && shows_plan(view, r->Ok_0, plan, identity, place),
    }
}

/// Meshes and textures of a file are registered and the document is shown with their handles.
pub open spec fn scene_registered<GM, GT, T: Copy, L: Copy, C, E, N, P: Fn(Placement) -> T>(
    d: DocumentModel,
    path: Address,
    assets: GlbAssets,
    meshes: (RegistryModel<Mesh, GM>, RegistryModel<Mesh, GM>),
    textures: (RegistryModel<Texture, GT>, RegistryModel<Texture, GT>),
    view: ClientModel<T, L, Material, C, E, N>,
    identity: T,
    place: P,
    r: Result<ClientModel<T, L, Material, C, E, N>, TemplateError>,
) -> bool {
    exists|m: Seq<Handle>, t: Seq<Handle>| #[trigger]
        document_shown(d, m, t, view, identity, place, r) && all_registered(
            meshes.0,
            meshes.1,
            m,
            path,
            numbers(assets.meshes@.len()),
        ) && all_registered(
            textures.0,
            textures.1,
            t,
            path,
            numbers(assets.textures@.len()),
        )
}

/// What becomes of memory layer and registries when a scene is loaded from readable bytes, and
/// what it gives.
pub open spec fn client_scene_loaded<
    Q: FloatMath,
    GM,
    GT,
    T: Copy,
    L: Copy,
    C,
    E,
    N,
    P: Fn(Placement) -> T,
>(
    math: &Q,
    path: Address,
    bytes: Seq<u8>,
    memory: (Map<Address, GlbAssets>, Map<Address, GlbAssets>),
    meshes: (RegistryModel<Mesh, GM>, RegistryModel<Mesh, GM>),
    textures: (RegistryModel<Texture, GT>, RegistryModel<Texture, GT>),
    view: ClientModel<T, L, Material, C, E, N>,
    identity: T,
    place: P,
    r: Result<ClientModel<T, L, Material, C, E, N>, TemplateError>,
) -> bool {
    let unchanged = memory.0 == memory.1 && meshes.0 == meshes.1 && textures.0 == textures.1;
    if !scene_readable(bytes) {
        unchanged && r is Err && r->Err_0 == TemplateError::Unparsable
    } else {
        match gltf_roots(bytes) {
            None => unchanged && r is Err && r->Err_0 == TemplateError::NoDefaultScene,
            Some(roots) => exists|assets: GlbAssets| #[trigger]
                glb_of(math, bytes, assets) && if meshes.0.roomy(assets.meshes@.len() as int)
                    && textures.0.roomy(assets.textures@.len() as int) {
                    &&& memory.1 == memory.0.insert(path, assets)
                    &&& scene_registered(
                        document_of(bytes, roots),
                        path,
                        assets,
                        meshes,
                        textures,
                        view,
                        identity,
                        place,
                        r,
                    )
                } else {
                    unchanged && r is Err && r->Err_0 == TemplateError::Full
                },
        }
    }
}

/// The contents of a view that may be missing.
pub open spec fn view_model<T, L, C, E, N>(
    r: Result<ClientScene<T, L, Material, C, E, N>, TemplateError>,
) -> Result<ClientModel<T, L, Material, C, E, N>, TemplateError> {
    match r {
        Ok(s) => Ok(s@),
        Err(e) => Err(e),
    }
}

/// Loads the scene of a file: registers its meshes and textures, keeps them in the memory layer
/// and shows the default scene with its materials. `bytes` is `None` where the file could not be
/// read; `view` gives camera and surroundings; `place` gives the placement of a node.
pub fn load_scene<
    Q: FloatMath,
    GM,
    GT,
    T: Copy,
    L: Copy,
    C: Copy,
    E,
    N: Copy,
    P: Fn(Placement) -> T,
>(
    math: &Q,
    path: &GamePath,
    bytes: Option<&[u8]>,
    memory: &mut MemoryLayer<GlbAssets>,
    meshes: &mut AssetRegistry<Mesh, GM>,
    textures: &mut AssetRegistry<Texture, GT>,
    view: ClientScene<T, L, Material, C, E, N>,
    identity: T,
    place: P,
) -> (r: Result<ClientScene<T, L, Material, C, E, N>, TemplateError>)
    requires
        old(meshes).wf(),
        old(textures).wf(),
        forall|p: Placement| call_requires(place, (p,)),
    ensures
        final(meshes).wf(),
        final(textures).wf(),
        r matches Ok(s) ==> s.wf(),
        match bytes {
            None => {
                &&& final(memory)@ == old(memory)@
                &&& final(meshes)@ == old(meshes)@
                &&& final(textures)@ == old(textures)@
                &&& r is Err && r->Err_0 == TemplateError::Unreadable
            },
            Some(b) => client_scene_loaded(
                math,
                path@,
                b@,
                (old(memory)@, final(memory)@),
                (old(meshes)@, final(meshes)@),
                (old(textures)@, final(textures)@),
                view@,
                identity,
                place,
                view_model(r),
            ),
        },
{
    let ghost r0 = meshes@;
    let ghost t0 = textures@;
    let b = match bytes {
        None => {
            return Err(TemplateError::Unreadable);
        },
        Some(b) => b,
    };
    let assets = match parse_glb(math, b) {
        None => {
            return Err(TemplateError::Unparsable);
        },
        Some(assets) => assets,
    };
    let (nodes, counts, materials) = match (read_nodes(b), read_counts(b), read_materials(b)) {
        (Some(nodes), Some(counts), Some(materials)) => (nodes, counts, materials),
        _ => {
            return Err(TemplateError::Unparsable);
        },
    };
    let roots = match read_roots(b) {
        None => {
            return Err(TemplateError::NoDefaultScene);
        },
        Some(roots) => roots,
    };
    let ghost found = assets;
    if assets.meshes.len() as u64 > meshes.room() || assets.textures.len() as u64
        > textures.room() {
        proof {
            assert(glb_of(math, b@, found));
        }
        return Err(TemplateError::Full);
    }
    proof {
        assert(meshes@.roomy(assets.meshes@.len() as int));
        assert(textures@.roomy(assets.textures@.len() as int));
    }
    let mesh_handles = register_entries(meshes, path, &number_up(assets.meshes.len()));
    let texture_handles = register_entries(textures, path, &number_up(assets.textures.len()));
    memory.insert(path.clone(), assets);
    let doc = GltfDocument { nodes, roots, counts, materials };
    proof {
        assert(doc@ == document_of(b@, doc.roots@));
    }
    let ghost v0 = view@;
    let r = match plan_scene(&doc, &mesh_handles, &texture_handles) {
        None => Err(TemplateError::Malformed),
        Some(plan) => {
            let template = build_scene(&plan, identity, place);
            let ghost made = template;
            proof {
                crate::template::lemma_materials_belong(plan@, identity, place, template);
            }
            let s = show_template(view, template);
            proof {
                assert(template_made(plan@, identity, place, made));
                assert(shows_plan(v0, s@, plan@, identity, place));
            }
            Ok(s)
        },
    };
    proof {
        assert(glb_of(math, b@, found));
        assert(all_registered(r0, meshes@, mesh_handles@, path@, numbers(found.meshes@.len())));
        assert(all_registered(
            t0,
            textures@,
            texture_handles@,
            path@,
            numbers(found.textures@.len()),
        ));
        let vr = view_model(r);
        assert(document_shown(doc@, mesh_handles@, texture_handles@, v0, identity, place, vr));
        assert(scene_registered(
            doc@,
            path@,
            found,
            (r0, meshes@),
            (t0, textures@),
            v0,
            identity,
            place,
            vr,
        ));
    }
    r
}

/// An object of a shown template is dressed in the material that the template lists for it, and in
/// none where it lists none; of two the later one counts.
pub proof fn shown_objects_wear_their_material(
    list: Seq<(ObjectKey, Material)>,
    n: nat,
    i: int,
    k: ObjectKey,
)
    requires
        n <= list.len(),
        0 <= i < n,
    ensures
        list[i].0 == k && (forall|j: int| i < j < n ==> (#[trigger] list[j]).0 != k) ==> dressed(
            list,
            n,
        ).contains_key(k) && dressed(list, n)[k] == list[i].1,
        (forall|j: int| 0 <= j < n ==> (#[trigger] list[j]).0 != k) ==> !dressed(
            list,
            n,
        ).contains_key(k),
    decreases n,
{
    if n > 1 {
        if i < n - 1 {
            shown_objects_wear_their_material(list, (n - 1) as nat, i, k);
        } else {
            shown_objects_wear_their_material(list, (n - 1) as nat, 0, k);
        }
    }
    reveal_with_fuel(dressed, 2);
}

/// A shown template has the objects of the template, and camera and surroundings of the view.
pub proof fn shown_templates_keep_the_view<T: Copy, L: Copy, C, E, N>(
    before: ClientModel<T, L, Material, C, E, N>,
    after: ClientModel<T, L, Material, C, E, N>,
    template: SceneTemplate<T, L>,
)
    requires
        shows(before, after, template),
    ensures
        after.tree == template.scene@,
        after.camera == before.camera,
        after.environment == before.environment,
        after.environment_intensity == before.environment_intensity,
        after.agx_min_ev == before.agx_min_ev,
        after.agx_max_ev == before.agx_max_ev,
{
}

/// The locators of a file are the places of its meshes, or of its textures; each finds what is at
/// that place, and a number beyond them finds nothing.
pub proof fn locators_find_what_is_at_their_place<Q: FloatMath, R: FileReader>(
    loader: &GlbLoader<Q, R>,
    parsed: GlbAssets,
    extra: u64,
    i: int,
)
    requires
        parsed.meshes@.len() <= u64::MAX,
        parsed.textures@.len() <= u64::MAX,
    ensures
        extra < parsed.meshes@.len() ==> AssetLoader::<Mesh>::found(loader, parsed, extra) == Some(
            parsed.meshes@[extra as int],
        ),
        extra >= parsed.meshes@.len() ==> AssetLoader::<Mesh>::found(loader, parsed, extra) is None,
        AssetLoader::<Mesh>::listed(loader, parsed).len() == parsed.meshes@.len(),
        0 <= i < parsed.meshes@.len() ==> AssetLoader::<Mesh>::listed(loader, parsed)[i] == i,
        extra < parsed.textures@.len() ==> AssetLoader::<Texture>::found(loader, parsed, extra)
            == Some(parsed.textures@[extra as int]),
        extra >= parsed.textures@.len() ==> AssetLoader::<Texture>::found(
            loader,
            parsed,
            extra,
        ) is None,
        AssetLoader::<Texture>::listed(loader, parsed).len() == parsed.textures@.len(),
        0 <= i < parsed.textures@.len() ==> AssetLoader::<Texture>::listed(loader, parsed)[i] == i,
{
}

/// A file is loaded exactly where it could be read and its bytes are sound, and then into what the
/// bytes say.
pub proof fn loaded_files_are_what_was_read<Q: FloatMath, R: FileReader>(
    loader: &GlbLoader<Q, R>,
    space: &MergedResourceSpace,
    path: &GamePath,
    r: Option<GlbAssets>,
)
    requires
        glb_loaded(loader, space, path, r),
    ensures
        exists|bytes: Option<Vec<u8>>| #[trigger]
            call_ensures(R::read, (&loader.files, space, path), bytes) && (r is Some
                <==> bytes is Some && glb_readable(bytes->0@)) && (r is Some ==> glb_of(
                &loader.math,
                bytes->0@,
                r->0,
            )),
{
    let bytes = choose|bytes: Option<Vec<u8>>| #[trigger]
        call_ensures(R::read, (&loader.files, space, path), bytes) && glb_read(
            &loader.math,
            bytes,
            r,
        );
    assert(call_ensures(R::read, (&loader.files, space, path), bytes));
}

/// A scene is shown exactly where its file can be read, names a default scene, finds room and leads
/// nowhere astray. What was parsed is then kept under the path; mesh `i` and texture `i` of the file
/// have the handles `i` of the two lists, which the plan of the document is made with, and which
/// lead to that path and to place `i`. Each failure has a name of its own, and only one that shows
/// in the plan leaves anything behind.
pub proof fn shown_scenes_use_the_handles_of_their_file<
    Q: FloatMath,
    GM,
    GT,
    T: Copy,
    L: Copy,
    C,
    E,
    N,
    P: Fn(Placement) -> T,
>(
    math: &Q,
    path: Address,
    bytes: Seq<u8>,
    memory: (Map<Address, GlbAssets>, Map<Address, GlbAssets>),
    meshes: (RegistryModel<Mesh, GM>, RegistryModel<Mesh, GM>),
    textures: (RegistryModel<Texture, GT>, RegistryModel<Texture, GT>),
    view: ClientModel<T, L, Material, C, E, N>,
    identity: T,
    place: P,
    r: Result<ClientModel<T, L, Material, C, E, N>, TemplateError>,
)
    requires
        client_scene_loaded(
            math,
            path,
            bytes,
            memory,
            meshes,
            textures,
            view,
            identity,
            place,
            r,
        ),
    ensures
        !scene_readable(bytes) <==> r is Err && r->Err_0 == TemplateError::Unparsable,
        r is Err && r->Err_0 == TemplateError::NoDefaultScene ==> gltf_roots(bytes) is None,
        r is Err && r->Err_0 != TemplateError::Malformed ==> memory.0 == memory.1 && meshes.0
            == meshes.1 && textures.0 == textures.1,
        r is Ok ==> memory.1.contains_key(path) && glb_of(math, bytes, memory.1[path]) && memory.1
            == memory.0.insert(path, memory.1[path]),
        r is Ok ==> exists|m: Seq<Handle>, t: Seq<Handle>|
            #![trigger planned(document_of(bytes, gltf_roots(bytes)->0), m, t)]
            planned(document_of(bytes, gltf_roots(bytes)->0), m, t) is Some && m.len()
                == memory.1[path].meshes@.len() && t.len() == memory.1[path].textures@.len()
                && all_registered(meshes.0, meshes.1, m, path, numbers(m.len())) && all_registered(
                textures.0,
                textures.1,
                t,
                path,
                numbers(t.len()),
            ) && shows_plan(
                view,
                r->Ok_0,
                planned(document_of(bytes, gltf_roots(bytes)->0), m, t)->0,
                identity,
                place,
            ),
{
    if scene_readable(bytes) && gltf_roots(bytes) is Some {
        let roots = gltf_roots(bytes)->0;
        let unchanged = memory.0 == memory.1 && meshes.0 == meshes.1 && textures.0 == textures.1;
        let d = document_of(bytes, roots);
        let assets = choose|assets: GlbAssets| #[trigger]
            glb_of(math, bytes, assets) && if meshes.0.roomy(assets.meshes@.len() as int)
                && textures.0.roomy(assets.textures@.len() as int) {
                &&& memory.1 == memory.0.insert(path, assets)
                &&& scene_registered(
                    d,
                    path,
                    assets,
                    meshes,
                    textures,
                    view,
                    identity,
                    place,
                    r,
                )
            } else {
                unchanged && r is Err && r->Err_0 == TemplateError::Full
            };
        if meshes.0.roomy(assets.meshes@.len() as int) && textures.0.roomy(
            assets.textures@.len() as int,
        ) {
            assert(memory.1[path] == assets);
            let (m, t) = choose|m: Seq<Handle>, t: Seq<Handle>| #[trigger]
                document_shown(d, m, t, view, identity, place, r) && all_registered(
                    meshes.0,
                    meshes.1,
                    m,
                    path,
                    numbers(assets.meshes@.len()),
                ) && all_registered(
                    textures.0,
                    textures.1,
                    t,
                    path,
                    numbers(assets.textures@.len()),
                );
            assert(m.len() == numbers(assets.meshes@.len()).len());
            assert(t.len() == numbers(assets.textures@.len()).len());
            if r is Ok {
                assert(planned(d, m, t) is Some);
            }
        }
    }
}

/// What is shown of a plan is a template that was made of it, with its objects and materials.
pub proof fn shown_plans_are_templates<T: Copy, L: Copy, C, E, N, P: Fn(Placement) -> T>(
    before: ClientModel<T, L, Material, C, E, N>,
    after: ClientModel<T, L, Material, C, E, N>,
    plan: Seq<crate::template::PlanItem>,
    identity: T,
    place: P,
) -> (template: SceneTemplate<T, L>)
    requires
        shows_plan(before, after, plan, identity, place),
    ensures
        template_made(plan, identity, place, template),
        after.tree == template.scene@,
        after.materials == dressed(template.materials@, template.materials@.len()),
        after.camera == before.camera,
{
    choose|template: SceneTemplate<T, L>| #[trigger]
        template_made(plan, identity, place, template) && shows(before, after, template)
}

} // verus!
