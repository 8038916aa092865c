//! Keeping what a view shows on the GPU: the meshes of its objects and the textures of their
//! materials.
use crate::client_load::{FileReader, GlbLoader};
use crate::client_scene::{ClientModel, ClientScene};
use crate::game_path::Address;
use crate::glb::GlbAssets;
use crate::handle::Handle;
use crate::material::Material;
use crate::memory::MemoryLayer;
use crate::mesh::Mesh;
use crate::registry::{AssetRegistry, RegistryModel};
use crate::residency::{asset_pinned, pin, GpuUploader};
use crate::resource::MergedResourceSpace;
use crate::scene::{any_object, ObjectKey, SceneObjectKind};
use crate::spawn::textures_of;
use crate::texture::{FloatMath, Texture};
use vstd::prelude::*;

verus! {

/// An asset that has to be on the GPU.
#[derive(Clone, Copy, Debug, PartialEq, Eq)]
pub enum PinTarget {
    Mesh(Handle),
    Texture(Handle),
}

/// What an object needs: its mesh, then the textures of its material.
pub open spec fn object_targets<T, L, C, E, N>(
    view: ClientModel<T, L, Material, C, E, N>,
    k: ObjectKey,
) -> Seq<PinTarget> {
    let mesh = match view.tree.nodes[k].object.kind {
        SceneObjectKind::Mesh(h) => seq![PinTarget::Mesh(h)],
        _ => seq![],
    };
    let textures = if view.materials.contains_key(k) {
        textures_of(view.materials[k]).map_values(|h: Handle| PinTarget::Texture(h))
    } else {
        seq![]
    };
    mesh + textures
}

/// What the objects of a list need, one after another.
pub open spec fn targets_of<T, L, C, E, N>(
    view: ClientModel<T, L, Material, C, E, N>,
    list: Seq<ObjectKey>,
) -> Seq<PinTarget>
    decreases list.len(),
{
    if list.len() == 0 {
        seq![]
    } else {
        targets_of(view, list.drop_last()) + object_targets(view, list.last())
    }
}

/// What the objects of a view need, in the order of the objects.
pub open spec fn view_targets<T, L, C, E, N>(
    view: ClientModel<T, L, Material, C, E, N>,
    targets: Seq<PinTarget>,
) -> bool {
    exists|list: Seq<ObjectKey>| #[trigger]
        view.tree.lists(list, any_object()) && targets == targets_of(view, list)
}

/// Lists what the objects of a view need: for each object its mesh, then the textures of its
/// material.
pub fn pin_targets<T: Copy, L: Copy, C: Copy, E, N: Copy>(
    view: &ClientScene<T, L, Material, C, E, N>,
) -> (targets: Vec<PinTarget>)
    requires
        view.wf(),
    ensures
        view_targets(view@, targets@),
{
    let list = view.scene().objects();
    let ghost v = view@;
    let mut targets: Vec<PinTarget> = Vec::new();
    let mut i: usize = 0;
    proof {
        assert(list@.take(0) =~= seq![]);
    }
    while i < list.len()
        invariant
            view.wf(),
            v == view@,
            i <= list@.len(),
            v.tree.lists(list@, any_object()),
            targets@ == targets_of(v, list@.take(i as int)),
        decreases list@.len() - i,
    {
        let key = list[i];
        let ghost before = targets@;
        proof {
            assert(list@.contains(key));
            assert(v.tree.nodes.contains_key(key));
        }
        if let Some(object) = view.scene().object(key) {
            if let Some(h) = object.mesh_handle() {
                targets.push(PinTarget::Mesh(h));
            }
        }
        let ghost drawn = targets@;
        if let Some(material) = view.material(key) {
            let textures = material.texture_handles();
            let mut k: usize = 0;
            proof {
                assert(drawn + textures@.take(0).map_values(|h: Handle| PinTarget::Texture(h))
                    =~= drawn);
            }
            while k < textures.len()
                invariant
                    k <= textures@.len(),
                    targets@ == drawn + textures@.take(k as int).map_values(
                        |h: Handle| PinTarget::Texture(h),
                    ),
                decreases textures@.len() - k,
            {
                targets.push(PinTarget::Texture(textures[k]));
                proof {
                    assert(targets@ =~= drawn + textures@.take(k as int + 1).map_values(
                        |h: Handle| PinTarget::Texture(h),
                    ));
                }
                k += 1;
            }
            proof {
                assert(textures@.take(k as int) =~= textures@);
            }
        }
        proof {
            let next = list@.take(i as int + 1);
            assert(next.drop_last() =~= list@.take(i as int));
            assert(next.last() == key);
            assert(targets@ =~= before + object_targets(v, key));
        }
        i += 1;
    }
    proof {
        assert(list@.take(i as int) =~= list@);
    }
    targets
}

/// What is in memory, and the two registries of the client.
pub struct Stock<G, H> {
    pub memory: Map<Address, GlbAssets>,
    pub meshes: RegistryModel<Mesh, G>,
    pub textures: RegistryModel<Texture, H>,
}

/// Pinning one asset made one stock of another.
pub open spec fn target_pinned<
    G,
    H,
    Q: FloatMath,
    R: FileReader,
    U: GpuUploader<Mesh, G>,
    W: GpuUploader<Texture, H>,
>(
    loader: &GlbLoader<Q, R>,
    mesh_uploader: Option<&U>,
    texture_uploader: Option<&W>,
    space: &MergedResourceSpace,
    before: Stock<G, H>,
    target: PinTarget,
    after: Stock<G, H>,
) -> bool {
    match target {
        PinTarget::Mesh(h) => after.textures == before.textures && exists|done: bool| #[trigger]
            asset_pinned(
                loader,
                mesh_uploader,
                space,
                before.memory,
                before.meshes,
                after.memory,
                after.meshes,
                h,
                done,
            ),
        PinTarget::Texture(h) => after.meshes == before.meshes && exists|done: bool| #[trigger]
            asset_pinned(
                loader,
                texture_uploader,
                space,
                before.memory,
                before.textures,
                after.memory,
                after.textures,
                h,
                done,
            ),
    }
}

/// Pinning the assets one after another made each stock of the one before it.
pub open spec fn pinned_in_turn<
    G,
    H,
    Q: FloatMath,
    R: FileReader,
    U: GpuUploader<Mesh, G>,
    W: GpuUploader<Texture, H>,
>(
    loader: &GlbLoader<Q, R>,
    mesh_uploader: Option<&U>,
    texture_uploader: Option<&W>,
    space: &MergedResourceSpace,
    stocks: Seq<Stock<G, H>>,
    targets: Seq<PinTarget>,
) -> bool {
    &&& stocks.len() == targets.len() + 1
    &&& forall|i: int|
        0 <= i < targets.len() ==> target_pinned(
            loader,
            mesh_uploader,
            texture_uploader,
            space,
            stocks[i],
            #[trigger] targets[i],
            stocks[i + 1],
        )
}

/// Pins assets one after another; those that cannot be had are passed over.
pub fn pin_all<
    G,
    H,
    Q: FloatMath,
    R: FileReader,
    U: GpuUploader<Mesh, G>,
    W: GpuUploader<Texture, H>,
>(
    targets: &Vec<PinTarget>,
    memory: &mut MemoryLayer<GlbAssets>,
    meshes: &mut AssetRegistry<Mesh, G>,
    textures: &mut AssetRegistry<Texture, H>,
    loader: &GlbLoader<Q, R>,
    mesh_uploader: Option<&U>,
    texture_uploader: Option<&W>,
    space: &MergedResourceSpace,
)
    requires
        old(meshes).wf(),
        old(textures).wf(),
    ensures
        final(meshes).wf(),
        final(textures).wf(),
        exists|stocks: Seq<Stock<G, H>>| #[trigger]
            pinned_in_turn(loader, mesh_uploader, texture_uploader, space, stocks, targets@)
                && stocks[0] == (Stock {
                memory: old(memory)@,
                meshes: old(meshes)@,
                textures: old(textures)@,
            }) && stocks.last() == (Stock {
                memory: final(memory)@,
                meshes: final(meshes)@,
                textures: final(textures)@,
            }),
{
    let ghost mut stocks: Seq<Stock<G, H>> = seq![
        Stock { memory: memory@, meshes: meshes@, textures: textures@ },
    ];
    let mut i: usize = 0;
    while i < targets.len()
        invariant
            meshes.wf(),
            textures.wf(),
            i <= targets@.len(),
            stocks.len() == i + 1,
            stocks[0] == (Stock {
                memory: old(memory)@,
                meshes: old(meshes)@,
                textures: old(textures)@,
            }),
            stocks.last() == (Stock { memory: memory@, meshes: meshes@, textures: textures@ }),
            forall|j: int|
                0 <= j < i ==> target_pinned(
                    loader,
                    mesh_uploader,
                    texture_uploader,
                    space,
                    stocks[j],
                    #[trigger] targets@[j],
                    stocks[j + 1],
                ),
        decreases targets@.len() - i,
    {
        let ghost before = stocks;
        match targets[i] {
            PinTarget::Mesh(h) => {
                let done = pin(memory, meshes, loader, mesh_uploader, space, h);
                proof {
                    let now = Stock { memory: memory@, meshes: meshes@, textures: textures@ };
                    assert(asset_pinned(
                        loader,
                        mesh_uploader,
                        space,
                        before.last().memory,
                        before.last().meshes,
                        now.memory,
                        now.meshes,
                        h,
                        done,
                    ));
                    stocks = stocks.push(now);
                }
            },
            PinTarget::Texture(h) => {
                let done = pin(memory, textures, loader, texture_uploader, space, h);
                proof {
                    let now = Stock { memory: memory@, meshes: meshes@, textures: textures@ };
                    assert(asset_pinned(
                        loader,
                        texture_uploader,
                        space,
                        before.last().memory,
                        before.last().textures,
                        now.memory,
                        now.textures,
                        h,
                        done,
                    ));
                    stocks = stocks.push(now);
                }
            },
        }
        proof {
            assert(target_pinned(
                loader,
                mesh_uploader,
                texture_uploader,
                space,
                before.last(),
                targets@[i as int],
                stocks.last(),
            ));
            assert forall|j: int| 0 <= j < i + 1 implies target_pinned(
                loader,
                mesh_uploader,
                texture_uploader,
                space,
                stocks[j],
                #[trigger] targets@[j],
                stocks[j + 1],
            ) by {
                assert(stocks[j] == before[j]);
                if j < i {
                    assert(stocks[j + 1] == before[j + 1]);
                }
            }
        }
        i += 1;
    }
    proof {
        assert(pinned_in_turn(loader, mesh_uploader, texture_uploader, space, stocks, targets@));
    }
}

/// Keeps all that a view shows on the GPU: pins for each object its mesh, then the textures of its
/// material.
pub fn pin_scene_assets<
    T: Copy,
    L: Copy,
    C: Copy,
    E,
    N: Copy,
    G,
    H,
    Q: FloatMath,
    R: FileReader,
    U: GpuUploader<Mesh, G>,
    W: GpuUploader<Texture, H>,
>(
    view: &ClientScene<T, L, Material, C, E, N>,
    memory: &mut MemoryLayer<GlbAssets>,
    meshes: &mut AssetRegistry<Mesh, G>,
    textures: &mut AssetRegistry<Texture, H>,
    loader: &GlbLoader<Q, R>,
    mesh_uploader: Option<&U>,
    texture_uploader: Option<&W>,
    space: &MergedResourceSpace,
)
    requires
        view.wf(),
        old(meshes).wf(),
        old(textures).wf(),
    ensures
        final(meshes).wf(),
        final(textures).wf(),
        exists|targets: Seq<PinTarget>, stocks: Seq<Stock<G, H>>| #[trigger]
            pinned_in_turn(loader, mesh_uploader, texture_uploader, space, stocks, targets)
                && view_targets(view@, targets) && stocks[0] == (Stock {
                memory: old(memory)@,
                meshes: old(meshes)@,
                textures: old(textures)@,
            }) && stocks.last() == (Stock {
                memory: final(memory)@,
                meshes: final(meshes)@,
                textures: final(textures)@,
            }),
{
    let targets = pin_targets(view);
    pin_all(
        &targets,
        memory,
        meshes,
        textures,
        loader,
        mesh_uploader,
        texture_uploader,
        space,
    );
}

/// Of an object its mesh and the textures of its material are pinned, slot by slot, each as what it
/// is, and nothing else; of a list of objects, what each of them needs.
pub proof fn targets_are_meshes_and_textures<T, L, C, E, N>(
    view: ClientModel<T, L, Material, C, E, N>,
    list: Seq<ObjectKey>,
    k: ObjectKey,
    h: Handle,
    target: PinTarget,
)
    ensures
        object_targets(view, k).contains(PinTarget::Mesh(h)) <==> view.tree.nodes[k].object.kind
            == SceneObjectKind::<L>::Mesh(h),
        object_targets(view, k).contains(PinTarget::Texture(h)) <==> view.materials.contains_key(k)
            && (view.materials[k].base_color_texture == Some(h)
            || view.materials[k].metallic_roughness_texture == Some(h)
            || view.materials[k].normal_texture == Some(h)),
        targets_of(view, list).contains(target) <==> exists|i: int|
            0 <= i < list.len() && object_targets(view, #[trigger] list[i]).contains(target),
{
    let mesh = match view.tree.nodes[k].object.kind {
        SceneObjectKind::Mesh(h) => seq![PinTarget::Mesh(h)],
        _ => seq![],
    };
    let own = textures_of(view.materials[k]);
    let textures = if view.materials.contains_key(k) {
        own.map_values(|h: Handle| PinTarget::Texture(h))
    } else {
        seq![]
    };
    let all = object_targets(view, k);
    assert(all == mesh + textures);
    crate::spawn::lemma_textures_of(view.materials[k], h);
    if view.tree.nodes[k].object.kind == SceneObjectKind::<L>::Mesh(h) {
        assert(all[0] == PinTarget::Mesh(h));
    }
    if view.materials.contains_key(k) && own.contains(h) {
        let i = choose|i: int| 0 <= i < own.len() && own[i] == h;
        assert(textures[i] == PinTarget::Texture(h));
        assert(all[mesh.len() + i] == PinTarget::Texture(h));
    }
    if all.contains(PinTarget::Mesh(h)) {
        let i = choose|i: int| 0 <= i < all.len() && all[i] == PinTarget::Mesh(h);
        if i >= mesh.len() {
            assert(all[i] == textures[i - mesh.len()]);
        }
    }
    if all.contains(PinTarget::Texture(h)) {
        let i = choose|i: int| 0 <= i < all.len() && all[i] == PinTarget::Texture(h);
        if i >= mesh.len() {
            assert(all[i] == textures[i - mesh.len()]);
            assert(own[i - mesh.len()] == h);
        }
    }
    lemma_targets_of(view, list, target);
}

proof fn lemma_targets_of<T, L, C, E, N>(
    view: ClientModel<T, L, Material, C, E, N>,
    list: Seq<ObjectKey>,
    target: PinTarget,
)
    ensures
        targets_of(view, list).contains(target) <==> exists|i: int|
            0 <= i < list.len() && object_targets(view, #[trigger] list[i]).contains(target),
    decreases list.len(),
{
    if list.len() > 0 {
        let front = list.drop_last();
        let before = targets_of(view, front);
        let last = object_targets(view, list.last());
        let all = targets_of(view, list);
        lemma_targets_of(view, front, target);
        if before.contains(target) {
            let x = choose|x: int| 0 <= x < before.len() && before[x] == target;
            assert(all[x] == target);
            let i = choose|i: int|
                0 <= i < front.len() && object_targets(view, #[trigger] front[i]).contains(target);
            assert(object_targets(view, list[i]).contains(target));
        }
        if last.contains(target) {
            let x = choose|x: int| 0 <= x < last.len() && last[x] == target;
            assert(all[before.len() + x] == target);
            assert(object_targets(view, list[list.len() - 1]).contains(target));
        }
        if all.contains(target) {
            let x = choose|x: int| 0 <= x < all.len() && all[x] == target;
            if x < before.len() {
                assert(before[x] == target);
            } else {
                assert(last[x - before.len()] == target);
            }
        }
        if exists|i: int|
            0 <= i < list.len() && object_targets(view, #[trigger] list[i]).contains(target) {
            let i = choose|i: int|
                0 <= i < list.len() && object_targets(view, #[trigger] list[i]).contains(target);
            if i < front.len() {
                assert(object_targets(view, front[i]).contains(target));
            }
        }
    }
}

/// Pinning a mesh asks the mesh uploader for that mesh and leaves the textures alone; pinning a
/// texture asks the texture uploader for that texture and leaves the meshes alone.
pub proof fn targets_are_pinned_as_what_they_are<
    G,
    H,
    Q: FloatMath,
    R: FileReader,
    U: GpuUploader<Mesh, G>,
    W: GpuUploader<Texture, H>,
>(
    loader: &GlbLoader<Q, R>,
    mesh_uploader: Option<&U>,
    texture_uploader: Option<&W>,
    space: &MergedResourceSpace,
    stocks: Seq<Stock<G, H>>,
    targets: Seq<PinTarget>,
    i: int,
)
    requires
        pinned_in_turn(loader, mesh_uploader, texture_uploader, space, stocks, targets),
        0 <= i < targets.len(),
    ensures
        stocks.len() == targets.len() + 1,
        targets[i] matches PinTarget::Mesh(h) ==> stocks[i + 1].textures == stocks[i].textures
            && exists|done: bool| #[trigger]
            asset_pinned(
                loader,
                mesh_uploader,
                space,
                stocks[i].memory,
                stocks[i].meshes,
                stocks[i + 1].memory,
                stocks[i + 1].meshes,
                h,
                done,
            ),
        targets[i] matches PinTarget::Texture(h) ==> stocks[i + 1].meshes == stocks[i].meshes
            && exists|done: bool| #[trigger]
            asset_pinned(
                loader,
                texture_uploader,
                space,
                stocks[i].memory,
                stocks[i].textures,
                stocks[i + 1].memory,
                stocks[i + 1].textures,
                h,
                done,
            ),
{
    assert(target_pinned(
        loader,
        mesh_uploader,
        texture_uploader,
        space,
        stocks[i],
        targets[i],
        stocks[i + 1],
    ));
}

/// What a view needs on the GPU is what its objects need: the meshes they show and the textures in
/// the slots of their materials, and nothing else.
pub proof fn views_need_what_their_objects_need<T, L, C, E, N>(
    view: ClientModel<T, L, Material, C, E, N>,
    targets: Seq<PinTarget>,
    h: Handle,
)
    requires
        view_targets(view, targets),
    ensures
        targets.contains(PinTarget::Mesh(h)) <==> exists|k: ObjectKey| #[trigger]
            view.tree.nodes.contains_key(k) && view.tree.nodes[k].object.kind
                == SceneObjectKind::<L>::Mesh(h),
        targets.contains(PinTarget::Texture(h)) <==> exists|k: ObjectKey| #[trigger]
            view.tree.nodes.contains_key(k) && view.materials.contains_key(k) && (
            view.materials[k].base_color_texture == Some(h)
                || view.materials[k].metallic_roughness_texture == Some(h)
                || view.materials[k].normal_texture == Some(h)),
{
    let list = choose|list: Seq<ObjectKey>| #[trigger]
        view.tree.lists(list, any_object()) && targets == targets_of(view, list);
    let mesh = PinTarget::Mesh(h);
    let texture = PinTarget::Texture(h);
    lemma_targets_of(view, list, mesh);
    lemma_targets_of(view, list, texture);
    if targets.contains(mesh) {
        let i = choose|i: int|
            0 <= i < list.len() && object_targets(view, #[trigger] list[i]).contains(mesh);
        targets_are_meshes_and_textures(view, list, list[i], h, mesh);
        assert(list.contains(list[i]));
        assert(view.tree.nodes.contains_key(list[i]));
    }
    if targets.contains(texture) {
        let i = choose|i: int|
            0 <= i < list.len() && object_targets(view, #[trigger] list[i]).contains(texture);
        targets_are_meshes_and_textures(view, list, list[i], h, texture);
        assert(list.contains(list[i]));
        assert(view.tree.nodes.contains_key(list[i]));
    }
    assert forall|k: ObjectKey| #[trigger]
        view.tree.nodes.contains_key(k) implies (view.tree.nodes[k].object.kind
        == SceneObjectKind::<L>::Mesh(h) ==> targets.contains(mesh)) && (
    view.materials.contains_key(k) && (view.materials[k].base_color_texture == Some(h)
        || view.materials[k].metallic_roughness_texture == Some(h)
        || view.materials[k].normal_texture == Some(h)) ==> targets.contains(texture)) by {
        targets_are_meshes_and_textures(view, list, k, h, mesh);
        assert(any_object()(k));
        assert(list.contains(k));
        let i = choose|i: int| 0 <= i < list.len() && list[i] == k;
        assert(object_targets(view, list[i]) == object_targets(view, k));
    }
}

} // verus!
