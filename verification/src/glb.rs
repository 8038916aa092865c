//! The meshes and textures of glTF files, and the loader that hands them to the asset library.
use crate::asset::load::{Batch, FileLoader, LoadedEntry, ScannedType};
use crate::description::has_sound_attributes;
use crate::document::{
    gltf_counts, gltf_geometry, gltf_image_count, gltf_images, gltf_mapping, gltf_shading,
    parse_geometry, parse_mapping, parse_shading, read_counts, read_image_count, read_images, total,
    views, GeometryModel, MappingModel, RawGeometry, RawMapping, RawShading, ShadingModel,
};
use crate::lists::reversed;
use crate::mesh::{
    is_numberable, items, mesh_from_primitive, mesh_of, numberable, primitive_objection, Float2,
    Float3, Float4, Mesh, PrimitiveMode, PrimitiveModel, RawPrimitive,
};
use crate::texture::{
    gltf_image_to_texture, has_whole_pixels, size_fits, texture_of, whole_pixels, FloatMath,
    ImageModel, RawImage, Texture,
};
use vstd::prelude::*;

verus! {

/// Type of the mesh entries of the asset library.
pub const MESH_TYPE: u64 = 0;

/// Type of the texture entries of the asset library.
pub const TEXTURE_TYPE: u64 = 1;

/// All meshes and textures of a file: a mesh for each primitive, a texture for each image.
#[derive(Debug)]
pub struct GlbAssets {
    pub meshes: Vec<Mesh>,
    pub textures: Vec<Texture>,
}

/// Data of an entry of the asset library.
#[derive(Debug)]
pub enum GlbData {
    Mesh(Mesh),
    Texture(Texture),
}

/// The mode with the given number in the format.
pub open spec fn mode_of(code: u32) -> PrimitiveMode {
    match code {
        1 => PrimitiveMode::Lines,
        2 => PrimitiveMode::LineLoop,
        3 => PrimitiveMode::LineStrip,
        4 => PrimitiveMode::Triangles,
        5 => PrimitiveMode::TriangleStrip,
        6 => PrimitiveMode::TriangleFan,
        _ => PrimitiveMode::Points,
    }
}

/// The mode with the given number in the format.
pub fn mode_from(code: u32) -> (mode: PrimitiveMode)
    ensures
        mode == mode_of(code),
{
    match code {
        1 => PrimitiveMode::Lines,
        2 => PrimitiveMode::LineLoop,
        3 => PrimitiveMode::LineStrip,
        4 => PrimitiveMode::Triangles,
        5 => PrimitiveMode::TriangleStrip,
        6 => PrimitiveMode::TriangleFan,
        _ => PrimitiveMode::Points,
    }
}

/// A missing list is an empty one.
pub open spec fn or_empty<A>(list: Option<Seq<A>>) -> Seq<A> {
    match list {
        Some(s) => s,
        None => seq![],
    }
}

/// Numbers by twos.
pub open spec fn pairs(list: Option<Seq<[u32; 2]>>) -> Option<Seq<Float2>> {
    match list {
        Some(s) => Some(s.map_values(|a: [u32; 2]| Float2 { x: a[0], y: a[1] })),
        None => None,
    }
}

fn to_pairs(list: Option<Vec<[u32; 2]>>) -> (r: Option<Vec<Float2>>)
    ensures
        items(r) == pairs(items(list)),
{
    match list {
        None => None,
        Some(given) => {
            let ghost wanted = given@.map_values(|a: [u32; 2]| Float2 { x: a[0], y: a[1] });
            let mut out: Vec<Float2> = Vec::new();
            let mut i: usize = 0;
            while i < given.len()
                invariant
                    i <= given@.len(),
                    wanted == given@.map_values(|a: [u32; 2]| Float2 { x: a[0], y: a[1] }),
                    out@ =~= wanted.take(i as int),
                decreases given@.len() - i,
            {
                let a = given[i];
                out.push(Float2 { x: a[0], y: a[1] });
                i += 1;
            }
            proof {
                assert(wanted.take(i as int) =~= wanted);
            }
            Some(out)
        },
    }
}

/// Numbers by threes.
pub open spec fn triples(list: Option<Seq<[u32; 3]>>) -> Option<Seq<Float3>> {
    match list {
        Some(s) => Some(s.map_values(|a: [u32; 3]| Float3 { x: a[0], y: a[1], z: a[2] })),
        None => None,
    }
}

fn to_triples(list: Option<Vec<[u32; 3]>>) -> (r: Option<Vec<Float3>>)
    ensures
        items(r) == triples(items(list)),
{
    match list {
        None => None,
        Some(given) => {
            let ghost wanted = given@.map_values(|a: [u32; 3]| Float3 { x: a[0], y: a[1], z: a[2] });
            let mut out: Vec<Float3> = Vec::new();
            let mut i: usize = 0;
            while i < given.len()
                invariant
                    i <= given@.len(),
                    wanted == given@.map_values(|a: [u32; 3]| Float3 { x: a[0], y: a[1], z: a[2] }),
                    out@ =~= wanted.take(i as int),
                decreases given@.len() - i,
            {
                let a = given[i];
                out.push(Float3 { x: a[0], y: a[1], z: a[2] });
                i += 1;
            }
            proof {
                assert(wanted.take(i as int) =~= wanted);
            }
            Some(out)
        },
    }
}

/// Numbers by fours.
pub open spec fn fours(list: Option<Seq<[u32; 4]>>) -> Option<Seq<Float4>> {
    match list {
        Some(s) => Some(s.map_values(|a: [u32; 4]| Float4 { x: a[0], y: a[1], z: a[2], w: a[3] })),
        None => None,
    }
}

fn to_fours(list: Option<Vec<[u32; 4]>>) -> (r: Option<Vec<Float4>>)
    ensures
        items(r) == fours(items(list)),
{
    match list {
        None => None,
        Some(given) => {
            let ghost wanted = given@.map_values(|a: [u32; 4]| Float4 { x: a[0], y: a[1], z: a[2], w: a[3] });
            let mut out: Vec<Float4> = Vec::new();
            let mut i: usize = 0;
            while i < given.len()
                invariant
                    i <= given@.len(),
                    wanted == given@.map_values(|a: [u32; 4]| Float4 { x: a[0], y: a[1], z: a[2], w: a[3] }),
                    out@ =~= wanted.take(i as int),
                decreases given@.len() - i,
            {
                let a = given[i];
                out.push(Float4 { x: a[0], y: a[1], z: a[2], w: a[3] });
                i += 1;
            }
            proof {
                assert(wanted.take(i as int) =~= wanted);
            }
            Some(out)
        },
    }
}

/// A primitive out of the parts in which it was read.
pub open spec fn joined(g: GeometryModel, s: ShadingModel, m: MappingModel) -> PrimitiveModel {
    PrimitiveModel {
        mode: mode_of(g.mode),
        positions: triples(g.positions),
        normals: or_empty(triples(s.normals)),
        tangents: or_empty(fours(m.tangents)),
        tex_coords: or_empty(pairs(m.tex_coords)),
        colors: or_empty(triples(s.colors)),
        indices: g.indices,
    }
}

/// The primitives of a file.
pub open spec fn file_primitives(bytes: Seq<u8>) -> Option<Seq<PrimitiveModel>> {
    match (gltf_geometry(bytes), gltf_shading(bytes), gltf_mapping(bytes)) {
        (Some(g), Some(s), Some(m)) => Some(Seq::new(g.len(), |i: int| joined(g[i], s[i], m[i]))),
        _ => None,
    }
}

fn unwrap_list<A>(list: Option<Vec<A>>) -> (out: Vec<A>)
    ensures
        out@ == or_empty(items(list)),
{
    match list {
        Some(v) => v,
        None => Vec::new(),
    }
}

/// A primitive out of the parts in which it was read.
pub fn join(g: RawGeometry, s: RawShading, m: RawMapping) -> (p: RawPrimitive)
    ensures
        p@ == joined(g@, s@, m@),
{
    RawPrimitive {
        mode: mode_from(g.mode),
        positions: to_triples(g.positions),
        normals: unwrap_list(to_triples(s.normals)),
        tangents: unwrap_list(to_fours(m.tangents)),
        tex_coords: unwrap_list(to_pairs(m.tex_coords)),
        colors: unwrap_list(to_triples(s.colors)),
        indices: g.indices,
    }
}

/// The primitives of a file.
pub fn read_primitives(bytes: &[u8]) -> (r: Option<Vec<RawPrimitive>>)
    ensures
        views(r) == file_primitives(bytes@),
        r matches Some(list) ==> (gltf_counts(bytes@) matches Some(counts) && list@.len() == total(
            counts,
        )),
{
    if !has_sound_attributes(bytes) {
        return None;
    }
    let (mut geometry, mut shading, mut mapping) = match (
        parse_geometry(bytes),
        parse_shading(bytes),
        parse_mapping(bytes),
    ) {
        (Some(g), Some(s), Some(m)) => (g, s, m),
        _ => {
            return None;
        },
    };
    let ghost g0 = geometry@;
    let ghost s0 = shading@;
    let ghost m0 = mapping@;
    let ghost wanted = file_primitives(bytes@)->0;
    let mut backwards: Vec<RawPrimitive> = Vec::new();
    proof {
        assert forall|i: int| 0 <= i < g0.len() implies #[trigger] wanted[i] == joined(
            g0[i]@,
            s0[i]@,
            m0[i]@,
        ) by {
            assert(views(Some(geometry)) == gltf_geometry(bytes@));
            assert(gltf_geometry(bytes@)->0[i] == g0[i]@);
            assert(gltf_shading(bytes@)->0[i] == s0[i]@);
            assert(gltf_mapping(bytes@)->0[i] == m0[i]@);
        }
    }
    while geometry.len() > 0
        invariant
            g0.len() == s0.len() == m0.len(),
            wanted.len() == g0.len(),
            geometry@ =~= g0.take(geometry@.len() as int),
            shading@ =~= s0.take(geometry@.len() as int),
            mapping@ =~= m0.take(geometry@.len() as int),
            geometry@.len() + backwards@.len() == g0.len(),
            forall|i: int|
                0 <= i < g0.len() ==> #[trigger] wanted[i] == joined(g0[i]@, s0[i]@, m0[i]@),
            forall|i: int|
                0 <= i < backwards@.len() ==> (#[trigger] backwards@[i])@ == wanted[g0.len() - 1
                    - i],
        decreases geometry@.len(),
    {
        if let (Some(g), Some(s), Some(m)) = (geometry.pop(), shading.pop(), mapping.pop()) {
            backwards.push(join(g, s, m));
        }
    }
    let list = reversed(backwards);
    proof {
        assert(list@.map_values(|p: RawPrimitive| p@) =~= wanted);
    }
    Some(list)
}

/// All primitives make meshes and all images make textures.
pub open spec fn convertible(primitives: Seq<PrimitiveModel>, images: Seq<ImageModel>) -> bool {
    &&& forall|i: int|
        0 <= i < primitives.len() ==> numberable(#[trigger] primitives[i]) && primitive_objection(
            primitives[i],
        ) is None
    &&& forall|i: int|
        0 <= i < images.len() ==> whole_pixels(#[trigger] images[i]) && size_fits(images[i])
}

/// The meshes of the primitives and the textures of the images, in their order.
pub open spec fn converted_to<Q: FloatMath>(
    math: &Q,
    primitives: Seq<PrimitiveModel>,
    images: Seq<ImageModel>,
    assets: GlbAssets,
) -> bool {
    &&& assets.meshes@.len() == primitives.len()
    &&& forall|i: int|
        0 <= i < primitives.len() ==> mesh_of(
            math,
            #[trigger] primitives[i],
            assets.meshes@[i],
        )
    &&& assets.textures@.len() == images.len()
    &&& forall|i: int|
        0 <= i < images.len() ==> texture_of(math, #[trigger] images[i], assets.textures@[i])
}

/// The contents of a list of primitives.
pub open spec fn primitive_models(list: Seq<RawPrimitive>) -> Seq<PrimitiveModel> {
    list.map_values(|p: RawPrimitive| p@)
}

/// The contents of a list of images.
pub open spec fn image_models(list: Seq<RawImage>) -> Seq<ImageModel> {
    list.map_values(|i: RawImage| i@)
}

/// Converts all primitives and images of a file, if all can be converted.
pub fn convert<Q: FloatMath>(
    math: &Q,
    primitives: &Vec<RawPrimitive>,
    images: &Vec<RawImage>,
) -> (r: Option<GlbAssets>)
    ensures
        r is Some <==> convertible(primitive_models(primitives@), image_models(images@)),
        r matches Some(assets) ==> converted_to(
            math,
            primitive_models(primitives@),
            image_models(images@),
            assets,
        ),
{
    let ghost ps = primitive_models(primitives@);
    let ghost is = image_models(images@);
    let mut meshes: Vec<Mesh> = Vec::new();
    let mut i: usize = 0;
    while i < primitives.len()
        invariant
            i <= primitives@.len(),
            ps == primitive_models(primitives@),
            is == image_models(images@),
            meshes@.len() == i,
            forall|j: int|
                0 <= j < i ==> numberable(#[trigger] ps[j]) && primitive_objection(ps[j]) is None
                    && mesh_of(math, ps[j], meshes@[j]),
        decreases primitives@.len() - i,
    {
        proof {
            assert(ps[i as int] == primitives@[i as int]@);
        }
        if !is_numberable(&primitives[i]) {
            return None;
        }
        match mesh_from_primitive(math, &primitives[i]) {
            Ok(mesh) => {
                meshes.push(mesh);
            },
            Err(_) => {
                return None;
            },
        }
        i += 1;
    }
    let mut textures: Vec<Texture> = Vec::new();
    let mut k: usize = 0;
    while k < images.len()
        invariant
            k <= images@.len(),
            ps == primitive_models(primitives@),
            is == image_models(images@),
            textures@.len() == k,
            forall|j: int|
                0 <= j < k ==> whole_pixels(#[trigger] is[j]) && size_fits(is[j]) && texture_of(
                    math,
                    is[j],
                    textures@[j],
                ),
        decreases images@.len() - k,
    {
        proof {
            assert(is[k as int] == images@[k as int]@);
        }
        if !has_whole_pixels(&images[k]) {
            return None;
        }
        match gltf_image_to_texture(math, &images[k]) {
            Ok(texture) => {
                textures.push(texture);
            },
            Err(_) => {
                return None;
            },
        }
        k += 1;
    }
    Some(GlbAssets { meshes, textures })
}

/// The file can be read and everything in it converted.
pub open spec fn glb_readable(bytes: Seq<u8>) -> bool {
    match (file_primitives(bytes), gltf_images(bytes)) {
        (Some(primitives), Some(images)) => convertible(primitives, images),
        _ => false,
    }
}

/// The meshes and textures of a file.
pub open spec fn glb_of<Q: FloatMath>(math: &Q, bytes: Seq<u8>, assets: GlbAssets) -> bool {
    &&& glb_readable(bytes)
    &&& converted_to(math, file_primitives(bytes)->0, gltf_images(bytes)->0, assets)
}

/// A mesh for each primitive and a texture for each image that the file lists.
pub open spec fn listed(bytes: Seq<u8>, assets: GlbAssets) -> bool {
    match (gltf_counts(bytes), gltf_image_count(bytes)) {
        (Some(counts), Some(images)) => assets.meshes@.len() == total(counts)
            && assets.textures@.len() == images,
        _ => false,
    }
}

/// Reads the meshes and textures of a file.
pub fn parse_glb<Q: FloatMath>(math: &Q, bytes: &[u8]) -> (r: Option<GlbAssets>)
    ensures
        r is Some <==> glb_readable(bytes@),
        r matches Some(assets) ==> glb_of(math, bytes@, assets) && listed(bytes@, assets),
{
    match (read_primitives(bytes), read_images(bytes)) {
        (Some(primitives), Some(images)) => {
            proof {
                assert(file_primitives(bytes@) == Some(primitive_models(primitives@)));
                assert(gltf_images(bytes@) == Some(image_models(images@)));
                assert(images@.len() == images.len());
            }
            convert(math, &primitives, &images)
        },
        _ => None,
    }
}

/// The entries of a type: data in order, each located by its number.
pub open spec fn numbered(entries: Seq<LoadedEntry<GlbData>>, data: Seq<GlbData>) -> bool {
    &&& entries.len() == data.len()
    &&& forall|i: int|
        0 <= i < data.len() ==> (#[trigger] entries[i]).data == data[i] && entries[i].extra == i
}

/// The data of the mesh entries.
pub open spec fn mesh_data(assets: GlbAssets) -> Seq<GlbData> {
    assets.meshes@.map_values(|m: Mesh| GlbData::Mesh(m))
}

/// The data of the texture entries.
pub open spec fn texture_data(assets: GlbAssets) -> Seq<GlbData> {
    assets.textures@.map_values(|t: Texture| GlbData::Texture(t))
}

/// The batches that hand the meshes and textures to the asset library.
pub open spec fn batches_of(assets: GlbAssets, batches: Seq<Batch<GlbData>>) -> bool {
    &&& batches.len() == 2
    &&& batches[0].type_tag == MESH_TYPE
    &&& numbered(batches[0].entries@, mesh_data(assets))
    &&& batches[1].type_tag == TEXTURE_TYPE
    &&& numbered(batches[1].entries@, texture_data(assets))
}

/// The batches of the meshes and textures of a file.
pub open spec fn parsed_as<Q: FloatMath>(
    math: &Q,
    bytes: Seq<u8>,
    batches: Seq<Batch<GlbData>>,
) -> bool {
    exists|assets: GlbAssets|
        glb_of(math, bytes, assets) && listed(bytes, assets) && #[trigger] batches_of(
            assets,
            batches,
        )
}

fn number_entries(data: Vec<GlbData>) -> (entries: Vec<LoadedEntry<GlbData>>)
    ensures
        numbered(entries@, data@),
{
    let ghost given = data@;
    let mut rest = data;
    let mut backwards: Vec<LoadedEntry<GlbData>> = Vec::new();
    while rest.len() > 0
        invariant
            rest@ =~= given.take(rest@.len() as int),
            rest@.len() + backwards@.len() == given.len(),
            forall|i: int|
                0 <= i < backwards@.len() ==> (#[trigger] backwards@[i]).data == given[given.len()
                    - 1 - i] && backwards@[i].extra == given.len() - 1 - i,
        decreases rest@.len(),
    {
        if let Some(d) = rest.pop() {
            backwards.push(LoadedEntry { data: d, extra: rest.len() as u64 });
        }
    }
    reversed(backwards)
}

/// The batches that hand the meshes and textures to the asset library.
pub fn to_batches(assets: GlbAssets) -> (batches: Vec<Batch<GlbData>>)
    ensures
        batches_of(assets, batches@),
{
    let ghost given = assets;
    let mut meshes = assets.meshes;
    let mut textures = assets.textures;
    let mut backwards: Vec<GlbData> = Vec::new();
    while meshes.len() > 0
        invariant
            meshes@ =~= given.meshes@.take(meshes@.len() as int),
            meshes@.len() + backwards@.len() == given.meshes@.len(),
            forall|i: int|
                0 <= i < backwards@.len() ==> #[trigger] backwards@[i] == GlbData::Mesh(
                    given.meshes@[given.meshes@.len() - 1 - i],
                ),
        decreases meshes@.len(),
    {
        if let Some(mesh) = meshes.pop() {
            backwards.push(GlbData::Mesh(mesh));
        }
    }
    let mesh_list = reversed(backwards);
    proof {
        assert(mesh_list@ =~= mesh_data(given));
    }
    let mut turned: Vec<GlbData> = Vec::new();
    while textures.len() > 0
        invariant
            textures@ =~= given.textures@.take(textures@.len() as int),
            textures@.len() + turned@.len() == given.textures@.len(),
            forall|i: int|
                0 <= i < turned@.len() ==> #[trigger] turned@[i] == GlbData::Texture(
                    given.textures@[given.textures@.len() - 1 - i],
                ),
        decreases textures@.len(),
    {
        if let Some(texture) = textures.pop() {
            turned.push(GlbData::Texture(texture));
        }
    }
    let texture_list = reversed(turned);
    proof {
        assert(texture_list@ =~= texture_data(given));
    }
    let mut batches: Vec<Batch<GlbData>> = Vec::new();
    batches.push(Batch { type_tag: MESH_TYPE, entries: number_entries(mesh_list) });
    batches.push(Batch { type_tag: TEXTURE_TYPE, entries: number_entries(texture_list) });
    batches
}

/// The numbers below `n`.
pub open spec fn numbers(n: nat) -> Seq<u64> {
    Seq::new(n, |i: int| i as u64)
}

/// The locators of a file with so many primitives and images.
pub open spec fn scanned_as(primitives: nat, images: nat, types: Seq<ScannedType>) -> bool {
    &&& types.len() == 2
    &&& types[0].type_tag == MESH_TYPE
    &&& types[0].extras@ == numbers(primitives)
    &&& types[1].type_tag == TEXTURE_TYPE
    &&& types[1].extras@ == numbers(images)
}

/// The numbers below `n`.
pub fn number_up(n: usize) -> (list: Vec<u64>)
    ensures
        list@ == numbers(n as nat),
{
    let mut list: Vec<u64> = Vec::new();
    let mut i: usize = 0;
    while i < n
        invariant
            i <= n,
            list@ =~= numbers(i as nat),
        decreases n - i,
    {
        list.push(i as u64);
        i += 1;
    }
    list
}

/// The locators of a file with so many primitives in each mesh and so many images; `None` where
/// the primitives cannot be numbered.
pub fn scan_types(counts: &Vec<usize>, images: usize) -> (r: Option<Vec<ScannedType>>)
    ensures
        r is Some <==> total(counts@) <= usize::MAX,
        r matches Some(types) ==> scanned_as(total(counts@), images as nat, types@),
{
    let mut sum: usize = 0;
    let mut i: usize = 0;
    while i < counts.len()
        invariant
            i <= counts@.len(),
            sum == total(counts@.take(i as int)),
        decreases counts@.len() - i,
    {
        proof {
            let next = counts@.take(i as int + 1);
            assert(next.drop_last() =~= counts@.take(i as int));
            assert(total(next) == total(counts@.take(i as int)) + counts@[i as int]);
        }
        match sum.checked_add(counts[i]) {
            Some(s) => {
                sum = s;
            },
            None => {
                proof {
                    lemma_total_prefix(counts@, i as int + 1);
                }
                return None;
            },
        }
        i += 1;
    }
    proof {
        assert(counts@.take(i as int) =~= counts@);
    }
    let mut types: Vec<ScannedType> = Vec::new();
    types.push(ScannedType { type_tag: MESH_TYPE, extras: number_up(sum) });
    types.push(ScannedType { type_tag: TEXTURE_TYPE, extras: number_up(images) });
    Some(types)
}

/// The sum of a prefix is no more than the sum.
pub proof fn lemma_total_prefix(counts: Seq<usize>, n: int)
    requires
        0 <= n <= counts.len(),
    ensures
        total(counts.take(n)) <= total(counts),
    decreases counts.len(),
{
    if n < counts.len() {
        lemma_total_prefix(counts.drop_last(), n);
        assert(counts.drop_last().take(n) =~= counts.take(n));
    } else {
        assert(counts.take(n) =~= counts);
    }
}

/// The scan of a file succeeds.
pub open spec fn scannable(bytes: Seq<u8>) -> bool {
    gltf_counts(bytes) matches Some(counts) && gltf_image_count(bytes) is Some && total(counts)
        <= usize::MAX
}

/// Reads meshes and textures out of glTF files.
#[derive(Debug)]
pub struct GlbFileLoader<Q: FloatMath> {
    pub math: Q,
}

impl<Q: FloatMath> FileLoader<GlbData> for GlbFileLoader<Q> {
    open spec fn same_entry(&self, a: u64, b: u64) -> bool {
        a == b
    }

    fn scan(&self, bytes: &[u8]) -> (r: Option<Vec<ScannedType>>)
        ensures
            r is Some <==> scannable(bytes@),
            r matches Some(types) ==> scanned_as(
                total(gltf_counts(bytes@)->0),
                gltf_image_count(bytes@)->0 as nat,
                types@,
            ),
    {
        match (read_counts(bytes), read_image_count(bytes)) {
            (Some(counts), Some(images)) => scan_types(&counts, images),
            _ => None,
        }
    }

    fn parse(&self, bytes: &[u8]) -> (r: Option<Vec<Batch<GlbData>>>)
        ensures
            r is Some <==> glb_readable(bytes@),
            r matches Some(batches) ==> parsed_as(&self.math, bytes@, batches@),
    {
        match parse_glb(&self.math, bytes) {
            Some(assets) => {
                let ghost found = assets;
                let batches = to_batches(assets);
                proof {
                    assert(batches_of(found, batches@));
                    assert(parsed_as(&self.math, bytes@, batches@));
                }
                Some(batches)
            },
            None => None,
        }
    }

    fn extra_eq(&self, a: u64, b: u64) -> (same: bool) {
        a == b
    }
}

/// A scan lists, type by type, exactly the entries that parsing the same file gives, in the same
/// order: every placeholder finds its data.
pub proof fn scan_agrees_with_parse<Q: FloatMath>(
    math: &Q,
    bytes: Seq<u8>,
    types: Seq<ScannedType>,
    batches: Seq<Batch<GlbData>>,
)
    requires
        scannable(bytes),
        scanned_as(total(gltf_counts(bytes)->0), gltf_image_count(bytes)->0 as nat, types),
        parsed_as(math, bytes, batches),
    ensures
        types.len() == batches.len(),
        forall|t: int|
            0 <= t < types.len() ==> (#[trigger] types[t]).type_tag == batches[t].type_tag
                && types[t].extras@ == batches[t].entries@.map_values(
                |e: LoadedEntry<GlbData>| e.extra,
            ),
{
    let assets = choose|assets: GlbAssets|
        glb_of(math, bytes, assets) && listed(bytes, assets) && #[trigger] batches_of(
            assets,
            batches,
        );
    assert forall|t: int| 0 <= t < types.len() implies (#[trigger] types[t]).type_tag
        == batches[t].type_tag && types[t].extras@ == batches[t].entries@.map_values(
        |e: LoadedEntry<GlbData>| e.extra,
    ) by {
        let extras = batches[t].entries@.map_values(|e: LoadedEntry<GlbData>| e.extra);
        assert(types[t].extras@ =~= extras) by {
            assert(types[t].extras@.len() == extras.len());
            assert forall|i: int| 0 <= i < extras.len() implies extras[i] == types[t].extras@[i] by {
                assert(batches[t].entries@[i].extra == i);
            }
        }
    }
}

/// The modes by their numbers in a file.
pub proof fn modes_have_their_numbers(code: u32)
    ensures
        mode_of(code) is Points <==> code == 0 || code > 6,
        mode_of(code) is Lines <==> code == 1,
        mode_of(code) is LineLoop <==> code == 2,
        mode_of(code) is LineStrip <==> code == 3,
        mode_of(code) is Triangles <==> code == 4,
        mode_of(code) is TriangleStrip <==> code == 5,
        mode_of(code) is TriangleFan <==> code == 6,
{
}

/// A primitive is put together attribute by attribute: each list has as many elements as the file
/// gives, coordinate for coordinate, and none where the file gives no list.
pub proof fn attributes_are_put_together(
    g: GeometryModel,
    s: ShadingModel,
    m: MappingModel,
    i: int,
)
    ensures
        joined(g, s, m).mode == mode_of(g.mode),
        joined(g, s, m).indices == g.indices,
        joined(g, s, m).positions is Some <==> g.positions is Some,
        g.positions is Some ==> joined(g, s, m).positions->0.len() == g.positions->0.len(),
        g.positions is Some && 0 <= i < g.positions->0.len() ==> {
            let p = joined(g, s, m).positions->0[i];
            &&& p.x == g.positions->0[i][0]
            &&& p.y == g.positions->0[i][1]
            &&& p.z == g.positions->0[i][2]
        },
        joined(g, s, m).normals.len() == (if s.normals is Some {
            s.normals->0.len()
        } else {
            0
        }),
        s.normals is Some && 0 <= i < s.normals->0.len() ==> {
            let p = joined(g, s, m).normals[i];
            &&& p.x == s.normals->0[i][0]
            &&& p.y == s.normals->0[i][1]
            &&& p.z == s.normals->0[i][2]
        },
        joined(g, s, m).colors.len() == (if s.colors is Some {
            s.colors->0.len()
        } else {
            0
        }),
        s.colors is Some && 0 <= i < s.colors->0.len() ==> {
            let p = joined(g, s, m).colors[i];
            &&& p.x == s.colors->0[i][0]
            &&& p.y == s.colors->0[i][1]
            &&& p.z == s.colors->0[i][2]
        },
        joined(g, s, m).tangents.len() == (if m.tangents is Some {
            m.tangents->0.len()
        } else {
            0
        }),
        m.tangents is Some && 0 <= i < m.tangents->0.len() ==> {
            let p = joined(g, s, m).tangents[i];
            &&& p.x == m.tangents->0[i][0]
            &&& p.y == m.tangents->0[i][1]
            &&& p.z == m.tangents->0[i][2]
            &&& p.w == m.tangents->0[i][3]
        },
        joined(g, s, m).tex_coords.len() == (if m.tex_coords is Some {
            m.tex_coords->0.len()
        } else {
            0
        }),
        m.tex_coords is Some && 0 <= i < m.tex_coords->0.len() ==> {
            let p = joined(g, s, m).tex_coords[i];
            &&& p.x == m.tex_coords->0[i][0]
            &&& p.y == m.tex_coords->0[i][1]
        },
{
}

/// Primitive `i` of a file is put together of what the file gives for primitive `i`.
pub proof fn primitives_keep_their_place(bytes: Seq<u8>, i: int)
    ensures
        file_primitives(bytes) is Some <==> gltf_geometry(bytes) is Some && gltf_shading(
            bytes,
        ) is Some && gltf_mapping(bytes) is Some,
        file_primitives(bytes) is Some ==> file_primitives(bytes)->0.len() == gltf_geometry(
            bytes,
        )->0.len(),
        file_primitives(bytes) is Some && 0 <= i < gltf_geometry(bytes)->0.len()
            ==> file_primitives(bytes)->0[i] == joined(
            gltf_geometry(bytes)->0[i],
            gltf_shading(bytes)->0[i],
            gltf_mapping(bytes)->0[i],
        ),
{
}

/// A file can be read exactly where every primitive of it makes a mesh and every image fits its
/// size; then mesh `i` is that of primitive `i` and texture `i` that of image `i`.
pub proof fn files_are_read_piece_by_piece<Q: FloatMath>(
    math: &Q,
    bytes: Seq<u8>,
    assets: GlbAssets,
    i: int,
)
    ensures
        glb_readable(bytes) ==> file_primitives(bytes) is Some && gltf_images(bytes) is Some,
        glb_readable(bytes) && 0 <= i < file_primitives(bytes)->0.len() ==> primitive_objection(
            file_primitives(bytes)->0[i],
        ) is None,
        glb_readable(bytes) && 0 <= i < gltf_images(bytes)->0.len() ==> size_fits(
            gltf_images(bytes)->0[i],
        ),
        file_primitives(bytes) is Some && gltf_images(bytes) is Some && (forall|j: int|
            0 <= j < file_primitives(bytes)->0.len() ==> numberable(
                #[trigger] file_primitives(bytes)->0[j],
            ) && primitive_objection(file_primitives(bytes)->0[j]) is None) && (forall|j: int|
            0 <= j < gltf_images(bytes)->0.len() ==> whole_pixels(
                #[trigger] gltf_images(bytes)->0[j],
            ) && size_fits(gltf_images(bytes)->0[j])) ==> glb_readable(bytes),
        glb_of(math, bytes, assets) ==> assets.meshes@.len() == file_primitives(bytes)->0.len()
            && assets.textures@.len() == gltf_images(bytes)->0.len(),
        glb_of(math, bytes, assets) && 0 <= i < assets.meshes@.len() ==> mesh_of(
            math,
            file_primitives(bytes)->0[i],
            assets.meshes@[i],
        ),
        glb_of(math, bytes, assets) && 0 <= i < assets.textures@.len() ==> texture_of(
            math,
            gltf_images(bytes)->0[i],
            assets.textures@[i],
        ),
{
    if glb_of(math, bytes, assets) {
        let primitives = file_primitives(bytes)->0;
        let images = gltf_images(bytes)->0;
        assert(converted_to(math, primitives, images, assets));
        if 0 <= i < primitives.len() {
            assert(mesh_of(math, primitives[i], assets.meshes@[i]));
        }
        if 0 <= i < images.len() {
            assert(texture_of(math, images[i], assets.textures@[i]));
        }
    }
}

/// What a file is parsed into are its meshes and then its textures, each numbered by its place:
/// entry `i` holds mesh or texture `i`, and two entries of a type are one exactly where their
/// numbers are the same.
pub proof fn entries_are_numbered_by_their_place<Q: FloatMath>(
    loader: &GlbFileLoader<Q>,
    assets: GlbAssets,
    batches: Seq<Batch<GlbData>>,
    i: int,
    a: u64,
    b: u64,
)
    requires
        batches_of(assets, batches),
    ensures
        batches.len() == 2,
        batches[0].type_tag == MESH_TYPE,
        batches[1].type_tag == TEXTURE_TYPE,
        batches[0].entries@.len() == assets.meshes@.len(),
        batches[1].entries@.len() == assets.textures@.len(),
        0 <= i < assets.meshes@.len() ==> batches[0].entries@[i].extra == i
            && batches[0].entries@[i].data == GlbData::Mesh(assets.meshes@[i]),
        0 <= i < assets.textures@.len() ==> batches[1].entries@[i].extra == i
            && batches[1].entries@[i].data == GlbData::Texture(assets.textures@[i]),
        loader.same_entry(a, b) <==> a == b,
        MESH_TYPE != TEXTURE_TYPE,
{
    if 0 <= i < assets.meshes@.len() {
        assert(batches[0].entries@[i].data == mesh_data(assets)[i]);
    }
    if 0 <= i < assets.textures@.len() {
        assert(batches[1].entries@[i].data == texture_data(assets)[i]);
    }
}

/// A scan lists as many meshes as the file has primitives and as many textures as it has images,
/// each by its place.
pub proof fn scans_number_by_place(primitives: nat, images: nat, types: Seq<ScannedType>, i: int)
    requires
        scanned_as(primitives, images, types),
        primitives <= u64::MAX,
        images <= u64::MAX,
    ensures
        types.len() == 2,
        types[0].type_tag == MESH_TYPE,
        types[1].type_tag == TEXTURE_TYPE,
        types[0].extras@.len() == primitives,
        types[1].extras@.len() == images,
        0 <= i < primitives ==> types[0].extras@[i] == i,
        0 <= i < images ==> types[1].extras@[i] == i,
{
}

} // verus!
