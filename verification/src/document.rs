//! What a glTF file holds, as plain values: read with the `gltf` crate, one part at a time.
//!
//! All readers take the bytes of a binary or textual glTF 2.0 file that refers to no other file. A
//! file whose description the crate cannot follow is as good as one that is no glTF.
use crate::description::{
    attributes_sound, has_sound_images, images_sound, is_parsable, parsable,
};
use crate::lists::reversed;
use crate::mesh::items;
use crate::texture::{ImageModel, PixelFormat, RawImage};
use gltf::image::Format;
use gltf::scene::Transform;
use vstd::prelude::*;

verus! {

/// Placement of a node relative to its parent, in bit patterns of floating-point numbers.
#[derive(Clone, Copy, Debug, PartialEq, Eq)]
pub enum Placement {
    /// Translation, rotation and scale.
    Parts { translation: [u32; 3], rotation: [u32; 4], scale: [u32; 3] },
    /// A matrix, column after column.
    Matrix { columns: [[u32; 4]; 4] },
}

/// A node of the file.
#[derive(Debug)]
pub struct RawNode {
    pub mesh: Option<usize>,
    pub children: Vec<usize>,
    pub placement: Placement,
}

/// The contents of a node.
pub struct NodeModel {
    pub mesh: Option<usize>,
    pub children: Seq<usize>,
    pub placement: Placement,
}

impl View for RawNode {
    type V = NodeModel;

    open spec fn view(&self) -> NodeModel {
        NodeModel { mesh: self.mesh, children: self.children@, placement: self.placement }
    }
}

/// Mesh and children of a node.
#[derive(Debug)]
pub struct RawLinks {
    pub mesh: Option<usize>,
    pub children: Vec<usize>,
}

/// The contents of the links of a node.
pub struct LinksModel {
    pub mesh: Option<usize>,
    pub children: Seq<usize>,
}

impl View for RawLinks {
    type V = LinksModel;

    open spec fn view(&self) -> LinksModel {
        LinksModel { mesh: self.mesh, children: self.children@ }
    }
}

/// The material of a primitive; images by their number in the file.
#[derive(Clone, Copy, Debug, PartialEq, Eq)]
pub struct RawMaterial {
    pub base_color: [u32; 4],
    pub metallic: u32,
    pub roughness: u32,
    pub base_color_image: Option<usize>,
    pub metallic_roughness_image: Option<usize>,
    pub normal_image: Option<usize>,
}

/// Positions, indices and mode (by its number in the format) of a primitive.
#[derive(Debug)]
pub struct RawGeometry {
    pub mode: u32,
    pub positions: Option<Vec<[u32; 3]>>,
    pub indices: Option<Vec<u32>>,
}

/// The contents of a geometry.
pub struct GeometryModel {
    pub mode: u32,
    pub positions: Option<Seq<[u32; 3]>>,
    pub indices: Option<Seq<u32>>,
}

impl View for RawGeometry {
    type V = GeometryModel;

    open spec fn view(&self) -> GeometryModel {
        GeometryModel {
            mode: self.mode,
            positions: items(self.positions),
            indices: items(self.indices),
        }
    }
}

/// Normals and colours of a primitive.
#[derive(Debug)]
pub struct RawShading {
    pub normals: Option<Vec<[u32; 3]>>,
    pub colors: Option<Vec<[u32; 3]>>,
}

/// The contents of a shading.
pub struct ShadingModel {
    pub normals: Option<Seq<[u32; 3]>>,
    pub colors: Option<Seq<[u32; 3]>>,
}

impl View for RawShading {
    type V = ShadingModel;

    open spec fn view(&self) -> ShadingModel {
        ShadingModel { normals: items(self.normals), colors: items(self.colors) }
    }
}

/// Tangents and texture coordinates of a primitive.
#[derive(Debug)]
pub struct RawMapping {
    pub tangents: Option<Vec<[u32; 4]>>,
    pub tex_coords: Option<Vec<[u32; 2]>>,
}

/// The contents of a mapping.
pub struct MappingModel {
    pub tangents: Option<Seq<[u32; 4]>>,
    pub tex_coords: Option<Seq<[u32; 2]>>,
}

impl View for RawMapping {
    type V = MappingModel;

    open spec fn view(&self) -> MappingModel {
        MappingModel { tangents: items(self.tangents), tex_coords: items(self.tex_coords) }
    }
}

/// The contents of all elements of a list that may be missing.
pub open spec fn views<A: View>(list: Option<Vec<A>>) -> Option<Seq<A::V>> {
    match list {
        Some(v) => Some(v@.map_values(|a: A| a@)),
        None => None,
    }
}

/// The sum of a list.
pub open spec fn total(counts: Seq<usize>) -> nat
    decreases counts.len(),
{
    if counts.len() == 0 {
        0
    } else {
        total(counts.drop_last()) + counts.last() as nat
    }
}

/// A list with one element for each primitive of the file.
pub open spec fn for_each_primitive(len: nat, bytes: Seq<u8>) -> bool {
    match gltf_counts(bytes) {
        Some(counts) => len == total(counts),
        None => false,
    }
}

/// The number of primitives of each mesh of a glTF file.
pub uninterp spec fn counts_in(bytes: Seq<u8>) -> Option<Seq<usize>>;

/// As `counts_in`, for files that the crate can follow.
pub open spec fn gltf_counts(bytes: Seq<u8>) -> Option<Seq<usize>> {
    if parsable(bytes) {
        counts_in(bytes)
    } else {
        None
    }
}

/// The number of images of a glTF file.
pub uninterp spec fn image_count_in(bytes: Seq<u8>) -> Option<usize>;

/// As `image_count_in`, for files that the crate can follow.
pub open spec fn gltf_image_count(bytes: Seq<u8>) -> Option<usize> {
    if parsable(bytes) {
        image_count_in(bytes)
    } else {
        None
    }
}

/// Mode, positions and indices of each primitive of a glTF file, mesh after mesh.
pub uninterp spec fn geometry_in(bytes: Seq<u8>) -> Option<Seq<GeometryModel>>;

/// As `geometry_in`, for files that the crate can follow.
pub open spec fn gltf_geometry(bytes: Seq<u8>) -> Option<Seq<GeometryModel>> {
    if attributes_sound(bytes) {
        geometry_in(bytes)
    } else {
        None
    }
}

/// Normals and colours of each primitive of a glTF file, mesh after mesh.
pub uninterp spec fn shading_in(bytes: Seq<u8>) -> Option<Seq<ShadingModel>>;

/// As `shading_in`, for files that the crate can follow.
pub open spec fn gltf_shading(bytes: Seq<u8>) -> Option<Seq<ShadingModel>> {
    if attributes_sound(bytes) {
        shading_in(bytes)
    } else {
        None
    }
}

/// Tangents and texture coordinates of each primitive of a glTF file, mesh after mesh.
pub uninterp spec fn mapping_in(bytes: Seq<u8>) -> Option<Seq<MappingModel>>;

/// As `mapping_in`, for files that the crate can follow.
pub open spec fn gltf_mapping(bytes: Seq<u8>) -> Option<Seq<MappingModel>> {
    if attributes_sound(bytes) {
        mapping_in(bytes)
    } else {
        None
    }
}

/// The material of each primitive of a glTF file, mesh after mesh.
pub uninterp spec fn materials_in(bytes: Seq<u8>) -> Option<Seq<RawMaterial>>;

/// As `materials_in`, for files that the crate can follow.
pub open spec fn gltf_materials(bytes: Seq<u8>) -> Option<Seq<RawMaterial>> {
    if parsable(bytes) {
        materials_in(bytes)
    } else {
        None
    }
}

/// Mesh and children of each node of a glTF file.
pub uninterp spec fn links_in(bytes: Seq<u8>) -> Option<Seq<LinksModel>>;

/// As `links_in`, for files that the crate can follow.
pub open spec fn gltf_links(bytes: Seq<u8>) -> Option<Seq<LinksModel>> {
    if parsable(bytes) {
        links_in(bytes)
    } else {
        None
    }
}

/// The placement of each node of a glTF file.
pub uninterp spec fn placements_in(bytes: Seq<u8>) -> Option<Seq<Placement>>;

/// As `placements_in`, for files that the crate can follow.
pub open spec fn gltf_placements(bytes: Seq<u8>) -> Option<Seq<Placement>> {
    if parsable(bytes) {
        placements_in(bytes)
    } else {
        None
    }
}

/// The root nodes of the default scene of a glTF file; `None` without a default scene.
pub uninterp spec fn roots_in(bytes: Seq<u8>) -> Option<Seq<usize>>;

/// As `roots_in`, for files that the crate can follow.
pub open spec fn gltf_roots(bytes: Seq<u8>) -> Option<Seq<usize>> {
    if parsable(bytes) {
        roots_in(bytes)
    } else {
        None
    }
}

/// The decoded images of a glTF file.
pub uninterp spec fn images_in(bytes: Seq<u8>) -> Option<Seq<ImageModel>>;

/// As `images_in`, for files that the crate can follow.
pub open spec fn gltf_images(bytes: Seq<u8>) -> Option<Seq<ImageModel>> {
    if images_sound(bytes) {
        images_in(bytes)
    } else {
        None
    }
}

/// The number of primitives of each mesh (`gltf::Gltf::from_slice`, `Document::meshes`,
/// `Mesh::primitives`). The claim is that it depends on the bytes alone; `None` where they are no
/// valid glTF.
#[verifier::external_body]
fn parse_counts(bytes: &[u8]) -> (r: Option<Vec<usize>>)
    requires
        parsable(bytes@),
    ensures
        items(r) == counts_in(bytes@),
{
    let file = gltf::Gltf::from_slice(bytes).ok()?;
    Some(file.document.meshes().map(|mesh| mesh.primitives().len()).collect())
}

/// Reads what `gltf_counts` names.
pub(crate) fn read_counts(bytes: &[u8]) -> (r: Option<Vec<usize>>)
    ensures
        items(r) == gltf_counts(bytes@),
{
    if is_parsable(bytes) {
        parse_counts(bytes)
    } else {
        None
    }
}

/// The number of images (`gltf::Gltf::from_slice`, `Document::images`). The claim is that it
/// depends on the bytes alone, and that it is there exactly where the primitives can be counted:
/// both come out of the same parsed document.
#[verifier::external_body]
fn parse_image_count(bytes: &[u8]) -> (r: Option<usize>)
    requires
        parsable(bytes@),
    ensures
        r == image_count_in(bytes@),
        r is Some <==> counts_in(bytes@) is Some,
{
    let file = gltf::Gltf::from_slice(bytes).ok()?;
    Some(file.document.images().len())
}

/// Reads what `gltf_image_count` names.
pub(crate) fn read_image_count(bytes: &[u8]) -> (r: Option<usize>)
    ensures
        r == gltf_image_count(bytes@),
        r is Some <==> gltf_counts(bytes@) is Some,
{
    if is_parsable(bytes) {
        parse_image_count(bytes)
    } else {
        None
    }
}

/// Mode, positions and indices of each primitive (`gltf::import_buffers`, `Primitive::mode`,
/// `Reader::read_positions`, `Reader::read_indices`). The claim is that they depend on the bytes
/// alone, and that there is one for each primitive; `None` where the bytes are no valid glTF or
/// a buffer cannot be had.
#[verifier::external_body]
pub(crate) fn parse_geometry(bytes: &[u8]) -> (r: Option<Vec<RawGeometry>>)
    requires
        attributes_sound(bytes@),
    ensures
        views(r) == geometry_in(bytes@),
        r is Some ==> for_each_primitive(r->0@.len(), bytes@),
{
    let gltf::Gltf { document, blob } = gltf::Gltf::from_slice(bytes).ok()?;
    let data = gltf::import_buffers(&document, None, blob).ok()?;
    let read = document.meshes().flat_map(|mesh| mesh.primitives()).map(|p| {
        let reader = p.reader(|buffer| Some(&data[buffer.index()][..]));
        let positions = reader.read_positions();
        RawGeometry {
            mode: p.mode().as_gl_enum(),
            positions: positions.map(|p| p.map(|v| v.map(|c| c.to_bits())).collect()),
            indices: reader.read_indices().map(|i| i.into_u32().collect()),
        }
    });
    Some(read.collect())
}

/// Normals and colours of each primitive (`gltf::import_buffers`, `Reader::read_normals`,
/// `Reader::read_colors`). The claim is that they depend on the bytes alone, and that there is
/// one for each primitive; `None` where the bytes are no valid glTF or a buffer cannot be had.
#[verifier::external_body]
pub(crate) fn parse_shading(bytes: &[u8]) -> (r: Option<Vec<RawShading>>)
    requires
        attributes_sound(bytes@),
    ensures
        views(r) == shading_in(bytes@),
        r is Some ==> for_each_primitive(r->0@.len(), bytes@),
{
    let gltf::Gltf { document, blob } = gltf::Gltf::from_slice(bytes).ok()?;
    let data = gltf::import_buffers(&document, None, blob).ok()?;
    let read = document.meshes().flat_map(|mesh| mesh.primitives()).map(|p| {
        let reader = p.reader(|buffer| Some(&data[buffer.index()][..]));
        RawShading {
            normals: reader.read_normals().map(|n| n.map(|v| v.map(|c| c.to_bits())).collect()),
            colors: reader.read_colors(0).map(|c| c.into_rgb_f32().map(|v| v.map(|c| c.to_bits())).collect()),
        }
    });
    Some(read.collect())
}

/// Tangents and texture coordinates of each primitive (`gltf::import_buffers`,
/// `Reader::read_tangents`, `Reader::read_tex_coords`). The claim is that they depend on the
/// bytes alone, and that there is one for each primitive; `None` where the bytes are no valid
/// glTF or a buffer cannot be had.
#[verifier::external_body]
pub(crate) fn parse_mapping(bytes: &[u8]) -> (r: Option<Vec<RawMapping>>)
    requires
        attributes_sound(bytes@),
    ensures
        views(r) == mapping_in(bytes@),
        r is Some ==> for_each_primitive(r->0@.len(), bytes@),
{
    let gltf::Gltf { document, blob } = gltf::Gltf::from_slice(bytes).ok()?;
    let data = gltf::import_buffers(&document, None, blob).ok()?;
    let read = document.meshes().flat_map(|mesh| mesh.primitives()).map(|p| {
        let reader = p.reader(|buffer| Some(&data[buffer.index()][..]));
        RawMapping {
            tangents: reader.read_tangents().map(|t| t.map(|v| v.map(|c| c.to_bits())).collect()),
            tex_coords: reader.read_tex_coords(0).map(|t| t.into_f32().map(|v| v.map(|c| c.to_bits())).collect()),
        }
    });
    Some(read.collect())
}

/// The material of each primitive (`gltf::Gltf::from_slice`, `Primitive::material` and what it
/// gives). The claim is that they depend on the bytes alone, and that there is one for each
/// primitive; `None` where the bytes are no valid glTF.
#[verifier::external_body]
fn parse_materials(bytes: &[u8]) -> (r: Option<Vec<RawMaterial>>)
    requires
        parsable(bytes@),
    ensures
        items(r) == materials_in(bytes@),
        r is Some ==> for_each_primitive(r->0@.len(), bytes@),
{
    let file = gltf::Gltf::from_slice(bytes).ok()?;
    Some(file.meshes().flat_map(|mesh| mesh.primitives()).map(|primitive| {
        let m = primitive.material();
        let pbr = m.pbr_metallic_roughness();
        RawMaterial {
            base_color: pbr.base_color_factor().map(|c| c.to_bits()),
            metallic: pbr.metallic_factor().to_bits(),
            roughness: pbr.roughness_factor().to_bits(),
            base_color_image: pbr.base_color_texture().map(|t| t.texture().source().index()),
            metallic_roughness_image: pbr.metallic_roughness_texture().map(|t| t.texture().source().index()),
            normal_image: m.normal_texture().map(|t| t.texture().source().index()),
        }
    }).collect())
}

/// Reads what `gltf_materials` names.
pub(crate) fn read_materials(bytes: &[u8]) -> (r: Option<Vec<RawMaterial>>)
    ensures
        items(r) == gltf_materials(bytes@),
        r is Some ==> for_each_primitive(r->0@.len(), bytes@),
{
    if is_parsable(bytes) {
        parse_materials(bytes)
    } else {
        None
    }
}

/// Mesh and children of each node (`gltf::Gltf::from_slice`, `Document::nodes`, `Node::mesh`,
/// `Node::children`). The claim is that they depend on the bytes alone; `None` where the bytes are
/// no valid glTF.
#[verifier::external_body]
fn parse_links(bytes: &[u8]) -> (r: Option<Vec<RawLinks>>)
    requires
        parsable(bytes@),
    ensures
        views(r) == links_in(bytes@),
{
    let file = gltf::Gltf::from_slice(bytes).ok()?;
    let read = file.document.nodes().map(|node| RawLinks {
        mesh: node.mesh().map(|mesh| mesh.index()),
        children: node.children().map(|child| child.index()).collect(),
    });
    Some(read.collect())
}

/// Reads what `gltf_links` names.
pub(crate) fn read_links(bytes: &[u8]) -> (r: Option<Vec<RawLinks>>)
    ensures
        views(r) == gltf_links(bytes@),
{
    if is_parsable(bytes) {
        parse_links(bytes)
    } else {
        None
    }
}

/// The placement of each node (`gltf::Gltf::from_slice`, `Document::nodes`, `Node::transform`). The
/// claim is that they depend on the bytes alone, and that there is one for each node: both lists
/// come out of the same parsed document.
#[verifier::external_body]
fn parse_placements(bytes: &[u8]) -> (r: Option<Vec<Placement>>)
    requires
        parsable(bytes@),
    ensures
        items(r) == placements_in(bytes@),
        r is Some <==> links_in(bytes@) is Some,
        r is Some ==> links_in(bytes@)->0.len() == r->0@.len(),
{
    let file = gltf::Gltf::from_slice(bytes).ok()?;
    let read = file.document.nodes().map(|node| match node.transform() {
        Transform::Matrix { matrix } => {
            Placement::Matrix { columns: matrix.map(|column| column.map(|v| v.to_bits())) }
        },
        Transform::Decomposed { translation, rotation, scale } => {
            let rotation = rotation.map(|v| v.to_bits());
            let [translation, scale] = [translation, scale].map(|part| part.map(|v| v.to_bits()));
            Placement::Parts { translation, rotation, scale }
        },
    });
    Some(read.collect())
}

/// Reads what `gltf_placements` names.
pub(crate) fn read_placements(bytes: &[u8]) -> (r: Option<Vec<Placement>>)
    ensures
        items(r) == gltf_placements(bytes@),
        r is Some <==> gltf_links(bytes@) is Some,
        r is Some ==> gltf_links(bytes@)->0.len() == r->0@.len(),
{
    if is_parsable(bytes) {
        parse_placements(bytes)
    } else {
        None
    }
}

/// The nodes of a glTF file.
pub open spec fn gltf_nodes(bytes: Seq<u8>) -> Option<Seq<NodeModel>> {
    match (gltf_links(bytes), gltf_placements(bytes)) {
        (Some(l), Some(p)) => Some(
            Seq::new(
                l.len(),
                |i: int|
                    NodeModel { mesh: l[i].mesh, children: l[i].children, placement: p[i] },
            ),
        ),
        _ => None,
    }
}

/// Reads the nodes of a glTF file.
pub fn read_nodes(bytes: &[u8]) -> (r: Option<Vec<RawNode>>)
    ensures
        views(r) == gltf_nodes(bytes@),
{
    let (mut links, mut placements) = match (read_links(bytes), read_placements(bytes)) {
        (Some(links), Some(placements)) => (links, placements),
        _ => {
            return None;
        },
    };
    let ghost l0 = links@;
    let ghost p0 = placements@;
    let ghost wanted = gltf_nodes(bytes@)->0;
    let mut backwards: Vec<RawNode> = Vec::new();
    proof {
        assert forall|i: int| 0 <= i < l0.len() implies #[trigger] wanted[i] == (NodeModel {
            mesh: l0[i].mesh,
            children: l0[i].children@,
            placement: p0[i],
        }) by {
            assert(gltf_links(bytes@)->0[i] == l0[i]@);
        }
    }
    while links.len() > 0
        invariant
            l0.len() == p0.len(),
            wanted.len() == l0.len(),
            links@ =~= l0.take(links@.len() as int),
            placements@ =~= p0.take(links@.len() as int),
            links@.len() + backwards@.len() == l0.len(),
            forall|i: int|
                0 <= i < l0.len() ==> #[trigger] wanted[i] == (NodeModel {
                    mesh: l0[i].mesh,
                    children: l0[i].children@,
                    placement: p0[i],
                }),
            forall|i: int|
                0 <= i < backwards@.len() ==> (#[trigger] backwards@[i])@ == wanted[l0.len() - 1
                    - i],
        decreases links@.len(),
    {
        if let (Some(link), Some(placement)) = (links.pop(), placements.pop()) {
            backwards.push(RawNode { mesh: link.mesh, children: link.children, placement });
        }
    }
    let list = reversed(backwards);
    proof {
        assert(list@.map_values(|n: RawNode| n@) =~= wanted);
    }
    Some(list)
}

/// The root nodes of the default scene (`gltf::Gltf::from_slice`, `Document::default_scene`,
/// `Scene::nodes`). The claim is that they depend on the bytes alone; `None` where the bytes are
/// no valid glTF or name no default scene.
#[verifier::external_body]
fn parse_roots(bytes: &[u8]) -> (r: Option<Vec<usize>>)
    requires
        parsable(bytes@),
    ensures
        items(r) == roots_in(bytes@),
{
    let file = gltf::Gltf::from_slice(bytes).ok()?;
    Some(file.document.default_scene()?.nodes().map(|node| node.index()).collect())
}

/// Reads what `gltf_roots` names.
pub(crate) fn read_roots(bytes: &[u8]) -> (r: Option<Vec<usize>>)
    ensures
        items(r) == gltf_roots(bytes@),
{
    if is_parsable(bytes) {
        parse_roots(bytes)
    } else {
        None
    }
}

/// The decoded images (`gltf::import_slice`). The claim is that they depend on the bytes alone,
/// and that there is one for each image of the file; `None` where the bytes are no valid glTF, or
/// a buffer or an image cannot be had. The images are decoded by the `image` crate: a file with a
/// JPEG image of an unusual layout, or in which the level of a block would overflow where that
/// crate multiplies it, is not handed over, nor one with a PNG image whose palette is cut off
/// within a colour.
#[verifier::external_body]
fn parse_images(bytes: &[u8]) -> (r: Option<Vec<RawImage>>)
    requires
        images_sound(bytes@),
    ensures
        views(r) == images_in(bytes@),
        r is Some ==> image_count_in(bytes@) == Some(r->0@.len() as usize),
{
    let format = |f: Format| match f {
        Format::R8 => PixelFormat::R8,
        Format::R8G8 => PixelFormat::R8G8,
        Format::R8G8B8 => PixelFormat::R8G8B8,
        Format::R8G8B8A8 => PixelFormat::R8G8B8A8,
        Format::R16 => PixelFormat::R16,
        Format::R16G16 => PixelFormat::R16G16,
        Format::R16G16B16 => PixelFormat::R16G16B16,
        Format::R16G16B16A16 => PixelFormat::R16G16B16A16,
        Format::R32G32B32FLOAT => PixelFormat::R32G32B32Float,
        Format::R32G32B32A32FLOAT => PixelFormat::R32G32B32A32Float,
    };
    let images = gltf::import_slice(bytes).ok()?.2.into_iter();
    Some(images.map(|i| RawImage { width: i.width, height: i.height, format: format(i.format), pixels: i.pixels }).collect())
}

/// Reads what `gltf_images` names.
pub(crate) fn read_images(bytes: &[u8]) -> (r: Option<Vec<RawImage>>)
    ensures
        views(r) == gltf_images(bytes@),
        r is Some ==> gltf_image_count(bytes@) == Some(r->0@.len() as usize),
{
    if has_sound_images(bytes) {
        parse_images(bytes)
    } else {
        None
    }
}

/// Counts add up: no meshes have no primitives, one more mesh adds its own, and of two lists
/// together the sums add.
pub proof fn counts_add_up(a: Seq<usize>, b: Seq<usize>, n: usize)
    ensures
        total(Seq::<usize>::empty()) == 0,
        total(a.push(n)) == total(a) + n,
        total(a + b) == total(a) + total(b),
    decreases b.len(),
{
    assert(a.push(n).drop_last() =~= a);
    if b.len() == 0 {
        assert(a + b =~= a);
    } else {
        counts_add_up(a, b.drop_last(), n);
        assert((a + b).drop_last() =~= a + b.drop_last());
    }
}

/// Node `i` of a file has the mesh, the children and the placement that the file gives for node
/// `i`.
pub proof fn nodes_are_put_together(bytes: Seq<u8>, i: int)
    ensures
        gltf_nodes(bytes) is Some <==> gltf_links(bytes) is Some && gltf_placements(bytes) is Some,
        gltf_nodes(bytes) is Some ==> gltf_nodes(bytes)->0.len() == gltf_links(bytes)->0.len(),
        gltf_nodes(bytes) is Some && 0 <= i < gltf_links(bytes)->0.len() ==> {
            &&& gltf_nodes(bytes)->0[i].mesh == gltf_links(bytes)->0[i].mesh
            &&& gltf_nodes(bytes)->0[i].children == gltf_links(bytes)->0[i].children
            &&& gltf_nodes(bytes)->0[i].placement == gltf_placements(bytes)->0[i]
        },
{
}

/// What is known of the parts of a file is what they hold.
pub proof fn parts_are_seen_as_they_are(
    n: RawNode,
    l: RawLinks,
    g: RawGeometry,
    s: RawShading,
    m: RawMapping,
)
    ensures
        n@.mesh == n.mesh && n@.children == n.children@ && n@.placement == n.placement,
        l@.mesh == l.mesh && l@.children == l.children@,
        g@.mode == g.mode,
        g.positions is Some ==> g@.positions == Some(g.positions->0@),
        g.positions is None ==> g@.positions is None,
        g.indices is Some ==> g@.indices == Some(g.indices->0@),
        g.indices is None ==> g@.indices is None,
        s.normals is Some ==> s@.normals == Some(s.normals->0@),
        s.normals is None ==> s@.normals is None,
        s.colors is Some ==> s@.colors == Some(s.colors->0@),
        s.colors is None ==> s@.colors is None,
        m.tangents is Some ==> m@.tangents == Some(m.tangents->0@),
        m.tangents is None ==> m@.tangents is None,
        m.tex_coords is Some ==> m@.tex_coords == Some(m.tex_coords->0@),
        m.tex_coords is None ==> m@.tex_coords is None,
{
}

} // verus!
