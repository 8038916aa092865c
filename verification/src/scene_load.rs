//! Loading the scene of a glTF file: its meshes and textures go into the asset library, its node
//! hierarchy becomes a scene template.
use crate::asset::load::{all_entries, parsed_file_registered, Batch, FileLoader};
use crate::asset::{keys_in, typed_keys, AssetManager, AssetModel};
use crate::document::{
    gltf_counts, gltf_materials, gltf_nodes, gltf_roots, read_counts, read_materials, read_nodes,
    read_roots, Placement,
};
use crate::game_path::{Address, GamePath};
use crate::glb::{glb_readable, parsed_as, GlbData, GlbFileLoader, MESH_TYPE, TEXTURE_TYPE};
use crate::handle::Handle;
use crate::template::{
    build_scene, plan_scene, planned, template_made, DocumentModel, GltfDocument, SceneTemplate,
};
use crate::texture::FloatMath;
use vstd::prelude::*;

verus! {

/// Why the scene of a file could not be loaded.
#[derive(Clone, Copy, Debug, PartialEq, Eq, Structural)]
pub enum TemplateError {
    /// The bytes could not be read.
    Unreadable,
    /// The bytes could not be parsed.
    Unparsable,
    /// The file names no default scene.
    NoDefaultScene,
    /// The library has no room for the entries of the file.
    Full,
    /// A number in the file leads nowhere, or a node lies below itself.
    Malformed,
}

/// The nodes, meshes and materials of a file and the roots of a scene in it.
pub open spec fn document_of(bytes: Seq<u8>, roots: Seq<usize>) -> DocumentModel {
    DocumentModel {
        nodes: gltf_nodes(bytes)->0,
        roots,
        counts: gltf_counts(bytes)->0,
        materials: gltf_materials(bytes)->0,
    }
}

/// The file can be parsed, hierarchy and materials included.
pub open spec fn scene_readable(bytes: Seq<u8>) -> bool {
    glb_readable(bytes) && gltf_nodes(bytes) is Some && gltf_counts(bytes) is Some
        && gltf_materials(bytes) is Some
}

/// The handles are those of the entries of one type that came out of a file.
pub open spec fn handles_of(
    m: AssetModel<GlbData>,
    source: Address,
    type_tag: u64,
    handles: Seq<Handle>,
) -> bool {
    handles.map_values(|h: Handle| h.spec_key()) == typed_keys(
        m.records,
        keys_in(m, source),
        type_tag,
    )
}

/// The scene that the file makes with the given handles for its meshes and textures.
pub open spec fn scene_made<T: Copy, L: Copy, P: Fn(Placement) -> T>(
    d: DocumentModel,
    meshes: Seq<Handle>,
    textures: Seq<Handle>,
    identity: T,
    place: P,
    r: Result<SceneTemplate<T, L>, TemplateError>,
) -> bool {
    match planned(d, meshes, textures) {
        None => r is Err && r->Err_0 == TemplateError::Malformed,
        Some(plan) => r is Ok && r->Ok_0.scene.wf() && template_made(
            plan,
            identity,
            place,
            r->Ok_0,
        ),
    }
}

/// What loading the scene of a file with readable bytes makes of the library, and what it gives.
pub open spec fn scene_loaded<Q: FloatMath, T: Copy, L: Copy, P: Fn(Placement) -> T>(
    before: AssetModel<GlbData>,
    after: AssetModel<GlbData>,
    math: &Q,
    source: Address,
    bytes: Seq<u8>,
    identity: T,
    place: P,
    r: Result<SceneTemplate<T, L>, TemplateError>,
) -> bool {
    if !scene_readable(bytes) {
        after == before && r is Err && r->Err_0 == TemplateError::Unparsable
    } else {
        match gltf_roots(bytes) {
            None => after == before && r is Err && r->Err_0 == TemplateError::NoDefaultScene,
            Some(roots) => exists|batches: Seq<Batch<GlbData>>| #[trigger]
                parsed_as(math, bytes, batches) && if before.takes(
                    source,
                    all_entries(batches).len() as int,
                ) {
                    &&& parsed_file_registered(before, after, source, batches, Ok(()))
                    &&& exists|meshes: Seq<Handle>, textures: Seq<Handle>|
                        #![trigger handles_of(after, source, MESH_TYPE, meshes), handles_of(after, source, TEXTURE_TYPE, textures)]
                        handles_of(after, source, MESH_TYPE, meshes) && handles_of(
                            after,
                            source,
                            TEXTURE_TYPE,
                            textures,
                        ) && scene_made(
                            document_of(bytes, roots),
                            meshes,
                            textures,
                            identity,
                            place,
                            r,
                        )
                } else {
                    after == before && r is Err && r->Err_0 == TemplateError::Full
                },
        }
    }
}

impl AssetManager<GlbData> {
    /// Loads the scene of a file: registers its meshes and textures, unless the file is known
    /// already, and makes a template of its default scene. `bytes` is `None` where the file could
    /// not be read; `place` gives the placement of a node.
    pub fn load_scene_template<Q: FloatMath, T: Copy, L: Copy, P: Fn(Placement) -> T>(
        &mut self,
        loader: &GlbFileLoader<Q>,
        path: GamePath,
        bytes: Option<&[u8]>,
        identity: T,
        place: P,
    ) -> (r: Result<SceneTemplate<T, L>, TemplateError>)
        requires
            old(self).wf(),
            forall|p: Placement| call_requires(place, (p,)),
        ensures
            final(self).wf(),
            final(self).spec_space() == old(self).spec_space(),
            old(self).issued().subset_of(final(self).issued()),
            match bytes {
                None => final(self)@ == old(self)@ && r is Err && r->Err_0
                    == TemplateError::Unreadable,
                Some(b) => scene_loaded(
                    old(self)@,
                    final(self)@,
                    &loader.math,
                    path@,
                    b@,
                    identity,
                    place,
                    r,
                ),
            },
    {
        let b = match bytes {
            None => {
                return Err(TemplateError::Unreadable);
            },
            Some(b) => b,
        };
        let batches = match loader.parse(b) {
            None => {
                return Err(TemplateError::Unparsable);
            },
            Some(batches) => batches,
        };
        let (nodes, counts, materials) = match (
            read_nodes(b),
            read_counts(b),
            read_materials(b),
        ) {
            (Some(nodes), Some(counts), Some(materials)) => (nodes, counts, materials),
            _ => {
                return Err(TemplateError::Unparsable);
            },
        };
        let roots = match read_roots(b) {
            None => {
                return Err(TemplateError::NoDefaultScene);
            },
            Some(roots) => roots,
        };
        let ghost parsed = batches@;
        let ghost before = self@;
        proof {
            assert(parsed_as(&loader.math, b@, parsed));
        }
        let source = path.clone();
        match self.register_where_room(path, batches) {
            Err(_) => {
                return Err(TemplateError::Full);
            },
            Ok(()) => {},
        }
        let meshes = self.loaded_handles_of(MESH_TYPE, &source);
        let textures = self.loaded_handles_of(TEXTURE_TYPE, &source);
        let doc = GltfDocument { nodes, roots, counts, materials };
        proof {
            assert(doc@ == document_of(b@, doc.roots@));
            assert(handles_of(self@, path@, MESH_TYPE, meshes@));
            assert(handles_of(self@, path@, TEXTURE_TYPE, textures@));
        }
        let r = match plan_scene(&doc, &meshes, &textures) {
            None => Err(TemplateError::Malformed),
            Some(plan) => {
                let template = build_scene(&plan, identity, place);
                proof {
                    assert(template_made(plan@, identity, place, template));
                }
                Ok(template)
            },
        };
        proof {
            assert(scene_made(doc@, meshes@, textures@, identity, place, r));
            assert(parsed_file_registered(before, self@, path@, parsed, Ok(())));
            assert(parsed_as(&loader.math, b@, parsed));
        }
        r
    }
}

/// A document has the nodes, counts and materials of its file, and the given roots.
pub proof fn documents_hold_what_the_file_has(bytes: Seq<u8>, roots: Seq<usize>)
    ensures
        document_of(bytes, roots).nodes == gltf_nodes(bytes)->0,
        document_of(bytes, roots).roots == roots,
        document_of(bytes, roots).counts == gltf_counts(bytes)->0,
        document_of(bytes, roots).materials == gltf_materials(bytes)->0,
{
}

/// A scene is loaded exactly where its file can be read, names a default scene, finds room and leads
/// nowhere astray; it is then made of the plan of its document with the handles of the file's own
/// meshes and textures, each in the order of their registration. Each failure has a name of its
/// own, and only one that shows in the plan leaves the file registered.
pub proof fn scenes_are_made_of_their_files_handles<
    Q: FloatMath,
    T: Copy,
    L: Copy,
    P: Fn(Placement) -> T,
>(
    before: AssetModel<GlbData>,
    after: AssetModel<GlbData>,
    math: &Q,
    source: Address,
    bytes: Seq<u8>,
    identity: T,
    place: P,
    r: Result<SceneTemplate<T, L>, TemplateError>,
)
    requires
        scene_loaded(before, after, math, source, bytes, identity, place, r),
    ensures
        !(glb_readable(bytes) && gltf_nodes(bytes) is Some && gltf_counts(bytes) is Some
            && gltf_materials(bytes) is Some) <==> r == Err::<SceneTemplate<T, L>, TemplateError>(
            TemplateError::Unparsable,
        ),
        r == Err::<SceneTemplate<T, L>, TemplateError>(TemplateError::NoDefaultScene) ==> gltf_roots(
            bytes,
        ) is None,
        r is Err && r->Err_0 != TemplateError::Malformed ==> after == before,
        r is Ok ==> exists|meshes: Seq<Handle>, textures: Seq<Handle>, plan: Seq<
            crate::template::PlanItem,
        >|
            #![trigger planned(document_of(bytes, gltf_roots(bytes)->0), meshes, textures),
                template_made(plan, identity, place, r->Ok_0)]
            meshes.map_values(|h: Handle| h.spec_key()) == typed_keys(
                after.records,
                keys_in(after, source),
                MESH_TYPE,
            ) && textures.map_values(|h: Handle| h.spec_key()) == typed_keys(
                after.records,
                keys_in(after, source),
                TEXTURE_TYPE,
            ) && planned(document_of(bytes, gltf_roots(bytes)->0), meshes, textures) == Some(plan)
                && template_made(plan, identity, place, r->Ok_0),
{
    if scene_readable(bytes) && gltf_roots(bytes) is Some {
        let roots = gltf_roots(bytes)->0;
        let batches = choose|batches: Seq<Batch<GlbData>>| #[trigger]
            parsed_as(math, bytes, batches) && if before.takes(
                source,
                all_entries(batches).len() as int,
            ) {
                &&& parsed_file_registered(before, after, source, batches, Ok(()))
                &&& exists|meshes: Seq<Handle>, textures: Seq<Handle>|
                    #![trigger handles_of(after, source, MESH_TYPE, meshes), handles_of(after, source, TEXTURE_TYPE, textures)]
                    handles_of(after, source, MESH_TYPE, meshes) && handles_of(
                        after,
                        source,
                        TEXTURE_TYPE,
                        textures,
                    ) && scene_made(
                        document_of(bytes, roots),
                        meshes,
                        textures,
                        identity,
                        place,
                        r,
                    )
            } else {
                after == before && r is Err && r->Err_0 == TemplateError::Full
            };
        if before.takes(source, all_entries(batches).len() as int) {
            let (meshes, textures) = choose|meshes: Seq<Handle>, textures: Seq<Handle>|
                #![trigger handles_of(after, source, MESH_TYPE, meshes), handles_of(after, source, TEXTURE_TYPE, textures)]
                handles_of(after, source, MESH_TYPE, meshes) && handles_of(
                    after,
                    source,
                    TEXTURE_TYPE,
                    textures,
                ) && scene_made(
                    document_of(bytes, roots),
                    meshes,
                    textures,
                    identity,
                    place,
                    r,
                );
            if r is Ok {
                let plan = planned(document_of(bytes, roots), meshes, textures)->0;
                assert(template_made(plan, identity, place, r->Ok_0));
                assert(planned(document_of(bytes, gltf_roots(bytes)->0), meshes, textures) == Some(
                    plan,
                ));
            }
        }
    }
}

} // verus!
