//! How a glTF file describes its buffers, as plain values, and the test that tells whether the
//! `gltf` crate can follow the description.
//!
//! The crate relies on the description: it panics where a file refers to something that is not
//! there or gives an attribute a type that the format forbids. Such files are told apart here,
//! before the crate is asked for what they hold.
use crate::document::views;
use crate::jpeg::{is_sound_jpeg, jpeg_sound};
use crate::mesh::items;
use crate::png::{is_sound_png, png_sound};
use gltf::accessor::Dimensions;
use gltf::buffer::Source;
use gltf::json::validation::Checked;
use gltf::{Gltf, Semantic};
use vstd::prelude::*;
use vstd::string::StringExecFns;

verus! {

/// Number of the type of bytes in the format.
pub const BYTE: u32 = 5121;

/// Number of the type of signed numbers of two bytes in the format.
pub const SIGNED_SHORT: u32 = 5122;

/// Number of the type of numbers of two bytes in the format.
pub const SHORT: u32 = 5123;

/// Number of the type of numbers of four bytes in the format.
pub const INTEGER: u32 = 5125;

/// Number of the type of floating-point numbers in the format.
pub const FLOAT: u32 = 5126;

/// What the parts of a file refer to before anything is checked: for each primitive the accessor of
/// its positions, and the number of accessors that there are.
#[derive(Debug)]
pub struct RawOutline {
    pub positions: Vec<Option<usize>>,
    pub accessors: usize,
}

/// The contents of an outline.
pub struct OutlineModel {
    pub positions: Seq<Option<usize>>,
    pub accessors: usize,
}

impl View for RawOutline {
    type V = OutlineModel;

    open spec fn view(&self) -> OutlineModel {
        OutlineModel { positions: self.positions@, accessors: self.accessors }
    }
}

/// Where an image comes from: a part of a buffer and its type, or an address.
#[derive(Debug)]
pub struct RawImageSource {
    pub view: Option<usize>,
    pub mime_type: Option<String>,
    pub uri: Option<String>,
}

/// The contents of the source of an image.
pub struct ImageSourceModel {
    pub view: Option<usize>,
    pub mime_type: Option<Seq<char>>,
    pub uri: Option<Seq<char>>,
}

/// The contents of a text that may be missing.
pub open spec fn text_of(text: Option<String>) -> Option<Seq<char>> {
    match text {
        Some(s) => Some(s@),
        None => None,
    }
}

impl View for RawImageSource {
    type V = ImageSourceModel;

    open spec fn view(&self) -> ImageSourceModel {
        ImageSourceModel {
            view: self.view,
            mime_type: text_of(self.mime_type),
            uri: text_of(self.uri),
        }
    }
}

/// A part of a buffer.
#[derive(Clone, Copy, Debug, PartialEq, Eq)]
pub struct RawView {
    pub buffer: usize,
    pub offset: usize,
    pub length: usize,
    /// Distance of the items in it, where they do not lie one behind another.
    pub stride: Option<usize>,
}

/// Items that replace some of the items of an accessor.
#[derive(Clone, Copy, Debug, PartialEq, Eq)]
pub struct RawSparse {
    pub count: usize,
    /// Bytes of the number of a replaced item.
    pub index_size: usize,
    pub indices_view: usize,
    pub indices_offset: usize,
    pub values_view: usize,
    pub values_offset: usize,
}

/// How the components of an item are arranged.
#[derive(Clone, Copy, Debug, PartialEq, Eq, Structural)]
pub enum Shape {
    Scalar,
    Vec2,
    Vec3,
    Vec4,
    Mat2,
    Mat3,
    Mat4,
}

/// A list of items in a part of a buffer.
#[derive(Clone, Copy, Debug, PartialEq, Eq)]
pub struct RawAccessor {
    /// Type of the components of an item, by its number in the format.
    pub component: u32,
    pub count: usize,
    pub offset: usize,
    pub view: Option<usize>,
    pub sparse: Option<RawSparse>,
}

/// The accessors of a primitive.
#[derive(Clone, Copy, Debug, PartialEq, Eq)]
pub struct RawUses {
    pub positions: Option<usize>,
    pub normals: Option<usize>,
    pub tangents: Option<usize>,
    pub tex_coords: Option<usize>,
    pub colors: Option<usize>,
    pub indices: Option<usize>,
}

/// What an accessor is used for.
#[derive(Clone, Copy, Debug, PartialEq, Eq, Structural)]
pub enum Role {
    /// Positions or normals.
    Triples,
    Tangents,
    TexCoords,
    Colors,
    Indices,
}

/// The outline of a glTF file.
pub uninterp spec fn outline_in(bytes: Seq<u8>) -> Option<OutlineModel>;

/// The addresses of the buffers of a glTF file; `None` for the buffer inside the file.
pub uninterp spec fn buffer_addresses_in(bytes: Seq<u8>) -> Option<Seq<Option<Seq<char>>>>;

/// The contents of the buffers of a glTF file.
pub uninterp spec fn buffers_in(bytes: Seq<u8>) -> Option<Seq<Seq<u8>>>;

/// The sources of the images of a glTF file.
pub uninterp spec fn image_sources_in(bytes: Seq<u8>) -> Option<Seq<ImageSourceModel>>;

/// The parts of the buffers of a glTF file.
pub uninterp spec fn views_in(bytes: Seq<u8>) -> Option<Seq<RawView>>;

/// The accessors of a glTF file.
pub uninterp spec fn accessors_in(bytes: Seq<u8>) -> Option<Seq<RawAccessor>>;

/// The shapes of the items of the accessors of a glTF file.
pub uninterp spec fn shapes_in(bytes: Seq<u8>) -> Option<Seq<Shape>>;

/// The accessors of each primitive of a glTF file, mesh after mesh.
pub uninterp spec fn uses_in(bytes: Seq<u8>) -> Option<Seq<RawUses>>;

/// A binary file states a length that its own header does not exceed.
pub open spec fn header_sound(bytes: Seq<u8>) -> bool {
    bytes.len() >= 12 && bytes.take(4) == seq![0x67u8, 0x6c, 0x54, 0x46] ==> bytes[8] + 0x100
        * bytes[9] + 0x1_0000 * bytes[10] + 0x100_0000 * bytes[11] >= 12
}

/// The accessors of all positions are there.
pub open spec fn outline_sound(o: OutlineModel) -> bool {
    forall|i: int|
        0 <= i < o.positions.len() ==> ((#[trigger] o.positions[i]) matches Some(p) ==> p
            < o.accessors)
}

/// The file can be parsed and checked, whatever comes of it.
pub open spec fn parsable(bytes: Seq<u8>) -> bool {
    header_sound(bytes) && (outline_in(bytes) matches Some(o) ==> outline_sound(o))
}

/// Every buffer lies inside the file or has an address with a scheme.
pub open spec fn addresses_sound(list: Seq<Option<Seq<char>>>) -> bool {
    forall|i: int|
        0 <= i < list.len() ==> ((#[trigger] list[i]) matches Some(uri) ==> uri.contains(':'))
}

/// The buffers of the file can be asked for, whatever comes of it.
pub open spec fn importable(bytes: Seq<u8>) -> bool {
    parsable(bytes) && (buffer_addresses_in(bytes) matches Some(list) && addresses_sound(list))
}

/// Bytes of a component.
pub open spec fn component_size(component: u32) -> nat {
    if component == FLOAT || component == INTEGER {
        4
    } else if component == SHORT || component == SIGNED_SHORT {
        2
    } else {
        1
    }
}

/// Number of components of an item.
pub open spec fn components(shape: Shape) -> nat {
    match shape {
        Shape::Scalar => 1,
        Shape::Vec2 => 2,
        Shape::Vec3 => 3,
        Shape::Vec4 => 4,
        Shape::Mat2 => 4,
        Shape::Mat3 => 9,
        Shape::Mat4 => 16,
    }
}

/// Bytes of an item.
pub open spec fn item_size(component: u32, shape: Shape) -> nat {
    component_size(component) * components(shape)
}

/// Items of that type can be read in the role.
pub open spec fn admitted(role: Role, component: u32, shape: Shape) -> bool {
    match role {
        Role::Triples => component == FLOAT && components(shape) == 3,
        Role::Tangents => component == FLOAT && components(shape) == 4,
        Role::TexCoords => (component == BYTE || component == SHORT || component == FLOAT)
            && components(shape) == 2,
        Role::Colors => (component == BYTE || component == SHORT || component == FLOAT) && (shape
            == Shape::Vec3 || shape == Shape::Vec4),
        Role::Indices => (component == BYTE || component == SHORT || component == INTEGER)
            && components(shape) == 1,
    }
}

/// The end of the items can be computed, and they do not overlap.
pub open spec fn spans(views: Seq<RawView>, at: usize, offset: usize, item: nat, count: usize) -> bool {
    at < views.len() && {
        let view = views[at as int];
        let stride = match view.stride {
            Some(s) => s as nat,
            None => item,
        };
        &&& count > 0
        &&& stride >= item
        &&& view.offset + view.length <= usize::MAX
        &&& offset + stride * (count - 1) + item <= usize::MAX
    }
}

/// The items of an accessor can be read in a role, as far as they are there.
pub open spec fn described(role: Role, a: RawAccessor, shape: Shape, views: Seq<RawView>) -> bool {
    let item = item_size(a.component, shape);
    &&& admitted(role, a.component, shape)
    &&& 0 < a.count <= u32::MAX
    &&& a.view matches Some(v) ==> spans(views, v, a.offset, item, a.count)
    &&& a.sparse matches Some(s) ==> {
        &&& spans(views, s.indices_view, s.indices_offset, s.index_size as nat, s.count)
        &&& spans(views, s.values_view, s.values_offset, item, s.count)
    }
}

/// The accessor, if there is one, is there and can be read in the role.
pub open spec fn use_described(
    role: Role,
    at: Option<usize>,
    accessors: Seq<RawAccessor>,
    shapes: Seq<Shape>,
    views: Seq<RawView>,
) -> bool {
    at matches Some(i) ==> i < accessors.len() && i < shapes.len() && described(
        role,
        accessors[i as int],
        shapes[i as int],
        views,
    )
}

/// All accessors of a primitive can be read.
pub open spec fn primitive_described(
    u: RawUses,
    accessors: Seq<RawAccessor>,
    shapes: Seq<Shape>,
    views: Seq<RawView>,
) -> bool {
    &&& use_described(Role::Triples, u.positions, accessors, shapes, views)
    &&& use_described(Role::Triples, u.normals, accessors, shapes, views)
    &&& use_described(Role::Tangents, u.tangents, accessors, shapes, views)
    &&& use_described(Role::TexCoords, u.tex_coords, accessors, shapes, views)
    &&& use_described(Role::Colors, u.colors, accessors, shapes, views)
    &&& use_described(Role::Indices, u.indices, accessors, shapes, views)
}

/// The attributes of all primitives of the file can be read.
pub open spec fn attributes_sound(bytes: Seq<u8>) -> bool {
    importable(bytes) && match (
        uses_in(bytes),
        accessors_in(bytes),
        shapes_in(bytes),
        views_in(bytes),
    ) {
        (Some(uses), Some(accessors), Some(shapes), Some(views)) => forall|i: int|
            0 <= i < uses.len() ==> primitive_described(
                #[trigger] uses[i],
                accessors,
                shapes,
                views,
            ),
        _ => false,
    }
}

/// The image has an address, or it has a type, lies within its buffer, and is no JPEG or PNG file
/// that the `image` crate cannot decode.
pub open spec fn image_described(
    s: ImageSourceModel,
    views: Seq<RawView>,
    buffers: Seq<Seq<u8>>,
) -> bool {
    match s.view {
        None => s.uri is Some,
        Some(v) => s.mime_type is Some && v < views.len() && {
            let view = views[v as int];
            let buffer = buffers[view.buffer as int];
            let file = buffer.subrange(view.offset as int, view.offset + view.length);
            &&& view.buffer < buffers.len()
            &&& view.offset + view.length <= buffer.len()
            &&& jpeg_sound(file)
            &&& png_sound(file)
        },
    }
}

/// The images of the file can be asked for, whatever comes of it.
pub open spec fn images_sound(bytes: Seq<u8>) -> bool {
    importable(bytes) && match (
        image_sources_in(bytes),
        views_in(bytes),
        buffers_in(bytes),
    ) {
        (Some(sources), Some(views), Some(buffers)) => forall|i: int|
            0 <= i < sources.len() ==> image_described(#[trigger] sources[i], views, buffers),
        _ => false,
    }
}

/// The outline (`gltf::Gltf::from_slice_without_validation`, `Document::as_json`). The claim is that
/// it depends on the bytes alone; `None` where they cannot be parsed. A binary file whose header
/// states less than the length of the header is not handed over: the crate subtracts the two.
#[verifier::external_body]
fn read_outline(bytes: &[u8]) -> (r: Option<RawOutline>)
    requires
        header_sound(bytes@),
    ensures
        (match r {
            Some(o) => Some(o@),
            None => None,
        }) == outline_in(bytes@),
{
    let file = Gltf::from_slice_without_validation(bytes).ok()?;
    let root = file.document.as_json();
    let key = Checked::Valid(Semantic::Positions);
    let primitives = root.meshes.iter().flat_map(|mesh| mesh.primitives.iter());
    Some(RawOutline {
        positions: primitives.map(|p| p.attributes.get(&key).map(|at| at.value())).collect(),
        accessors: root.accessors.len(),
    })
}

/// The contents of addresses that may be missing.
pub open spec fn address_texts(list: Option<Vec<Option<String>>>) -> Option<Seq<Option<Seq<char>>>> {
    match list {
        Some(v) => Some(v@.map_values(|uri: Option<String>| text_of(uri))),
        None => None,
    }
}

/// The addresses of the buffers (`gltf::Gltf::from_slice`, `Document::buffers`, `Buffer::source`). The
/// claim is that they depend on the bytes alone; `None` where the bytes are no valid glTF.
#[verifier::external_body]
fn read_buffer_addresses(bytes: &[u8]) -> (r: Option<Vec<Option<String>>>)
    requires
        parsable(bytes@),
    ensures
        address_texts(r) == buffer_addresses_in(bytes@),
{
    let file = Gltf::from_slice(bytes).ok()?;
    Some(file.document.buffers().map(|buffer| match buffer.source() {
        Source::Uri(uri) => Some(uri.to_string()),
        Source::Bin => None,
    }).collect())
}

/// The contents of the buffers (`gltf::import_buffers`). The claim is that they depend on the bytes
/// alone; `None` where the bytes are no valid glTF or a buffer cannot be had.
#[verifier::external_body]
fn read_buffers(bytes: &[u8]) -> (r: Option<Vec<Vec<u8>>>)
    requires
        importable(bytes@),
    ensures
        views(r) == buffers_in(bytes@),
{
    let Gltf { document, blob } = Gltf::from_slice(bytes).ok()?;
    let data = gltf::import_buffers(&document, None, blob).ok()?;
    Some(data.into_iter().map(|buffer| buffer.0).collect())
}

/// The sources of the images (`gltf::Gltf::from_slice`, `Document::as_json`). The claim is that they
/// depend on the bytes alone; `None` where the bytes are no valid glTF.
#[verifier::external_body]
fn read_image_sources(bytes: &[u8]) -> (r: Option<Vec<RawImageSource>>)
    requires
        parsable(bytes@),
    ensures
        views(r) == image_sources_in(bytes@),
{
    let file = Gltf::from_slice(bytes).ok()?;
    Some(file.document.as_json().images.iter().map(|image| RawImageSource {
        view: image.buffer_view.map(|view| view.value()),
        mime_type: image.mime_type.as_ref().map(|t| t.0.to_string()),
        uri: image.uri.clone(),
    }).collect())
}

/// The parts of the buffers (`gltf::Gltf::from_slice`, `Document::views` and what they give). The
/// claim is that they depend on the bytes alone; `None` where the bytes are no valid glTF.
#[verifier::external_body]
fn read_views(bytes: &[u8]) -> (r: Option<Vec<RawView>>)
    requires
        parsable(bytes@),
    ensures
        items(r) == views_in(bytes@),
{
    let file = Gltf::from_slice(bytes).ok()?;
    Some(file.document.views().map(|view| RawView {
        buffer: view.buffer().index(),
        offset: view.offset(),
        length: view.length(),
        stride: view.stride(),
    }).collect())
}

/// The accessors (`gltf::Gltf::from_slice`, `Document::accessors` and what they give). The claim is
/// that they depend on the bytes alone; `None` where the bytes are no valid glTF.
#[verifier::external_body]
fn read_accessors(bytes: &[u8]) -> (r: Option<Vec<RawAccessor>>)
    requires
        parsable(bytes@),
    ensures
        items(r) == accessors_in(bytes@),
{
    let file = Gltf::from_slice(bytes).ok()?;
    Some(file.accessors().map(|a| RawAccessor {
        component: a.data_type().as_gl_enum(),
        count: a.count(),
        offset: a.offset(),
        view: a.view().map(|view| view.index()),
        sparse: a.sparse().map(|s| (s.count(), s.indices(), s.values())).map(|(count, i, v)| RawSparse {
            count,
            index_size: i.index_type().size(), indices_view: i.view().index(), indices_offset: i.offset(),
            values_view: v.view().index(), values_offset: v.offset()
        })
    }).collect())
}

/// The shapes of the items of the accessors (`gltf::Gltf::from_slice`, `Accessor::dimensions`). The
/// claim is that they depend on the bytes alone; `None` where the bytes are no valid glTF.
#[verifier::external_body]
fn read_shapes(bytes: &[u8]) -> (r: Option<Vec<Shape>>)
    requires
        parsable(bytes@),
    ensures
        items(r) == shapes_in(bytes@),
{
    let file = Gltf::from_slice(bytes).ok()?;
    Some(file.accessors().map(|a| match a.dimensions() {
        Dimensions::Scalar => Shape::Scalar,
        Dimensions::Vec2 => Shape::Vec2,
        Dimensions::Vec3 => Shape::Vec3,
        Dimensions::Vec4 => Shape::Vec4,
        Dimensions::Mat2 => Shape::Mat2,
        Dimensions::Mat3 => Shape::Mat3,
        Dimensions::Mat4 => Shape::Mat4,
    }).collect())
}

/// The accessors of each primitive (`gltf::Gltf::from_slice`, `Primitive::get`,
/// `Primitive::indices`). The claim is that they depend on the bytes alone; `None` where the bytes
/// are no valid glTF.
#[verifier::external_body]
fn read_uses(bytes: &[u8]) -> (r: Option<Vec<RawUses>>)
    requires
        parsable(bytes@),
    ensures
        items(r) == uses_in(bytes@),
{
    let file = Gltf::from_slice(bytes).ok()?;
    Some(file.meshes().flat_map(|mesh| mesh.primitives()).map(|p| RawUses {
        positions: p.get(&Semantic::Positions).map(|a| a.index()),
        normals: p.get(&Semantic::Normals).map(|a| a.index()),
        tangents: p.get(&Semantic::Tangents).map(|a| a.index()),
        tex_coords: p.get(&Semantic::TexCoords(0)).map(|a| a.index()),
        colors: p.get(&Semantic::Colors(0)).map(|a| a.index()),
        indices: p.indices().map(|a| a.index()),
    }).collect())
}

/// Whether a binary file states a length that its own header does not exceed.
fn has_sound_header(bytes: &[u8]) -> (b: bool)
    ensures
        b == header_sound(bytes@),
{
    if bytes.len() < 12 {
        return true;
    }
    let magic = bytes[0] == 0x67 && bytes[1] == 0x6c && bytes[2] == 0x54 && bytes[3] == 0x46;
    proof {
        let wanted = seq![0x67u8, 0x6c, 0x54, 0x46];
        if magic {
            assert(bytes@.take(4) =~= wanted);
        } else {
            assert(bytes@.take(4)[0] == bytes@[0] && bytes@.take(4)[1] == bytes@[1]);
            assert(bytes@.take(4)[2] == bytes@[2] && bytes@.take(4)[3] == bytes@[3]);
            assert(wanted[0] == 0x67 && wanted[1] == 0x6c && wanted[2] == 0x54 && wanted[3]
                == 0x46);
        }
    }
    !magic || bytes[8] >= 12 || bytes[9] > 0 || bytes[10] > 0 || bytes[11] > 0
}

/// Whether the file can be parsed and checked, whatever comes of it.
pub fn is_parsable(bytes: &[u8]) -> (b: bool)
    ensures
        b == parsable(bytes@),
{
    if !has_sound_header(bytes) {
        return false;
    }
    let outline = match read_outline(bytes) {
        None => {
            return true;
        },
        Some(outline) => outline,
    };
    let mut i: usize = 0;
    while i < outline.positions.len()
        invariant
            i <= outline.positions@.len(),
            outline_in(bytes@) == Some(outline@),
            forall|j: int|
                0 <= j < i ==> ((#[trigger] outline.positions@[j]) matches Some(p) ==> p
                    < outline.accessors),
        decreases outline.positions@.len() - i,
    {
        if let Some(p) = outline.positions[i] {
            if p >= outline.accessors {
                proof {
                    assert(outline@.positions[i as int] == Some(p));
                }
                return false;
            }
        }
        i += 1;
    }
    true
}

fn has_scheme(uri: &String) -> (b: bool)
    ensures
        b == uri@.contains(':'),
{
    let n = uri.as_str().unicode_len();
    let mut i: usize = 0;
    while i < n
        invariant
            n == uri@.len(),
            i <= n,
            forall|j: int| 0 <= j < i ==> uri@[j] != ':',
        decreases n - i,
    {
        if uri.as_str().get_char(i) == ':' {
            return true;
        }
        i += 1;
    }
    false
}

/// Whether the buffers of the file can be asked for, whatever comes of it.
pub fn is_importable(bytes: &[u8]) -> (b: bool)
    ensures
        b == importable(bytes@),
{
    if !is_parsable(bytes) {
        return false;
    }
    let list = match read_buffer_addresses(bytes) {
        None => {
            return false;
        },
        Some(list) => list,
    };
    let ghost texts = buffer_addresses_in(bytes@)->0;
    let mut i: usize = 0;
    while i < list.len()
        invariant
            i <= list@.len(),
            buffer_addresses_in(bytes@) == Some(texts),
            texts == list@.map_values(|uri: Option<String>| text_of(uri)),
            forall|j: int|
                0 <= j < i ==> ((#[trigger] texts[j]) matches Some(uri) ==> uri.contains(':')),
        decreases list@.len() - i,
    {
        proof {
            assert(texts[i as int] == text_of(list@[i as int]));
        }
        if let Some(uri) = &list[i] {
            if !has_scheme(uri) {
                return false;
            }
        }
        i += 1;
    }
    true
}

fn size_of_component(component: u32) -> (n: usize)
    ensures
        n == component_size(component),
{
    if component == FLOAT || component == INTEGER {
        4
    } else if component == SHORT || component == SIGNED_SHORT {
        2
    } else {
        1
    }
}

fn count_components(shape: Shape) -> (n: usize)
    ensures
        n == components(shape),
        n <= 16,
{
    match shape {
        Shape::Scalar => 1,
        Shape::Vec2 => 2,
        Shape::Vec3 => 3,
        Shape::Vec4 => 4,
        Shape::Mat2 => 4,
        Shape::Mat3 => 9,
        Shape::Mat4 => 16,
    }
}

fn is_admitted(role: Role, component: u32, shape: Shape) -> (b: bool)
    ensures
        b == admitted(role, component, shape),
{
    let n = count_components(shape);
    match role {
        Role::Triples => component == FLOAT && n == 3,
        Role::Tangents => component == FLOAT && n == 4,
        Role::TexCoords => (component == BYTE || component == SHORT || component == FLOAT) && n
            == 2,
        Role::Colors => (component == BYTE || component == SHORT || component == FLOAT) && (shape
            == Shape::Vec3 || shape == Shape::Vec4),
        Role::Indices => (component == BYTE || component == SHORT || component == INTEGER) && n
            == 1,
    }
}

fn has_span(views: &Vec<RawView>, at: usize, offset: usize, item: usize, count: usize) -> (b: bool)
    ensures
        b == spans(views@, at, offset, item as nat, count),
{
    if at >= views.len() || count == 0 {
        return false;
    }
    let view = views[at];
    let stride: usize = match view.stride {
        Some(s) => s,
        None => item,
    };
    if stride < item || view.offset.checked_add(view.length).is_none() {
        return false;
    }
    match stride.checked_mul(count - 1) {
        None => {
            proof {
                assert(stride * (count - 1) > usize::MAX);
            }
            false
        },
        Some(steps) => match offset.checked_add(steps) {
            None => false,
            Some(last) => last.checked_add(item).is_some(),
        },
    }
}

/// Whether the items of an accessor can be read in a role, as far as they are there.
fn is_described(role: Role, a: &RawAccessor, shape: Shape, views: &Vec<RawView>) -> (b: bool)
    ensures
        b == described(role, *a, shape, views@),
{
    if !is_admitted(role, a.component, shape) || a.count == 0 || a.count > 0xffff_ffff {
        return false;
    }
    let size = size_of_component(a.component);
    let n = count_components(shape);
    proof {
        assert(size * n <= 4 * 16) by (nonlinear_arith)
            requires
                size <= 4,
                n <= 16,
        ;
    }
    let item = size * n;
    if let Some(v) = a.view {
        if !has_span(views, v, a.offset, item, a.count) {
            return false;
        }
    }
    match a.sparse {
        None => true,
        Some(s) => has_span(views, s.indices_view, s.indices_offset, s.index_size, s.count)
            && has_span(views, s.values_view, s.values_offset, item, s.count),
    }
}

fn is_use_described(
    role: Role,
    at: Option<usize>,
    accessors: &Vec<RawAccessor>,
    shapes: &Vec<Shape>,
    views: &Vec<RawView>,
) -> (b: bool)
    ensures
        b == use_described(role, at, accessors@, shapes@, views@),
{
    match at {
        None => true,
        Some(i) => i < accessors.len() && i < shapes.len() && is_described(
            role,
            &accessors[i],
            shapes[i],
            views,
        ),
    }
}

/// Whether all accessors of a primitive can be read.
pub fn is_primitive_described(
    u: &RawUses,
    accessors: &Vec<RawAccessor>,
    shapes: &Vec<Shape>,
    views: &Vec<RawView>,
) -> (b: bool)
    ensures
        b == primitive_described(*u, accessors@, shapes@, views@),
{
    is_use_described(Role::Triples, u.positions, accessors, shapes, views)
        && is_use_described(Role::Triples, u.normals, accessors, shapes, views)
        && is_use_described(Role::Tangents, u.tangents, accessors, shapes, views)
        && is_use_described(Role::TexCoords, u.tex_coords, accessors, shapes, views)
        && is_use_described(Role::Colors, u.colors, accessors, shapes, views)
        && is_use_described(Role::Indices, u.indices, accessors, shapes, views)
}

/// Whether the attributes of all primitives of the file can be read.
pub fn has_sound_attributes(bytes: &[u8]) -> (b: bool)
    ensures
        b == attributes_sound(bytes@),
{
    if !is_importable(bytes) {
        return false;
    }
    let (uses, accessors, shapes, views) = match (
        read_uses(bytes),
        read_accessors(bytes),
        read_shapes(bytes),
        read_views(bytes),
    ) {
        (Some(uses), Some(accessors), Some(shapes), Some(views)) => (
            uses,
            accessors,
            shapes,
            views,
        ),
        _ => {
            return false;
        },
    };
    let mut i: usize = 0;
    while i < uses.len()
        invariant
            i <= uses@.len(),
            uses_in(bytes@) == Some(uses@),
            accessors_in(bytes@) == Some(accessors@),
            shapes_in(bytes@) == Some(shapes@),
            views_in(bytes@) == Some(views@),
            forall|j: int|
                0 <= j < i ==> primitive_described(
                    #[trigger] uses@[j],
                    accessors@,
                    shapes@,
                    views@,
                ),
        decreases uses@.len() - i,
    {
        if !is_primitive_described(&uses[i], &accessors, &shapes, &views) {
            proof {
                assert(!primitive_described(
                    uses_in(bytes@)->0[i as int],
                    accessors@,
                    shapes@,
                    views@,
                ));
            }
            return false;
        }
        i += 1;
    }
    true
}

/// The contents of buffers.
pub open spec fn contents_of(buffers: Seq<Vec<u8>>) -> Seq<Seq<u8>> {
    buffers.map_values(|buffer: Vec<u8>| buffer@)
}

/// Whether an image has an address, or has a type, lies within its buffer and is no JPEG or PNG
/// file that the `image` crate cannot decode.
pub fn is_image_described(s: &RawImageSource, views: &Vec<RawView>, buffers: &Vec<Vec<u8>>) -> (b:
    bool)
    ensures
        b == image_described(s@, views@, contents_of(buffers@)),
{
    match s.view {
        None => s.uri.is_some(),
        Some(v) => {
            if s.mime_type.is_none() || v >= views.len() {
                return false;
            }
            let view = views[v];
            if view.buffer >= buffers.len() {
                return false;
            }
            let buffer = &buffers[view.buffer];
            assert(contents_of(buffers@)[view.buffer as int] == buffer@);
            if view.offset > buffer.len() || view.length > buffer.len() - view.offset {
                return false;
            }
            let end = view.offset + view.length;
            let file = vstd::slice::slice_subrange(buffer.as_slice(), view.offset, end);
            is_sound_jpeg(file) && is_sound_png(file)
        },
    }
}

/// Whether the images of the file can be asked for, whatever comes of it.
pub fn has_sound_images(bytes: &[u8]) -> (b: bool)
    ensures
        b == images_sound(bytes@),
{
    if !is_importable(bytes) {
        return false;
    }
    let (sources, views, buffers) = match (
        read_image_sources(bytes),
        read_views(bytes),
        read_buffers(bytes),
    ) {
        (Some(sources), Some(views), Some(buffers)) => (sources, views, buffers),
        _ => {
            return false;
        },
    };
    let ghost models = image_sources_in(bytes@)->0;
    let ghost data = contents_of(buffers@);
    proof {
        assert(buffers_in(bytes@)->0 =~= data);
    }
    let mut i: usize = 0;
    while i < sources.len()
        invariant
            i <= sources@.len(),
            image_sources_in(bytes@) == Some(models),
            views_in(bytes@) == Some(views@),
            buffers_in(bytes@) == Some(data),
            data == contents_of(buffers@),
            models == sources@.map_values(|s: RawImageSource| s@),
            forall|j: int|
                0 <= j < i ==> image_described(#[trigger] models[j], views@, data),
        decreases sources@.len() - i,
    {
        proof {
            assert(models[i as int] == sources@[i as int]@);
        }
        if !is_image_described(&sources[i], &views, &buffers) {
            proof {
                assert(!image_described(image_sources_in(bytes@)->0[i as int], views@, data));
            }
            return false;
        }
        i += 1;
    }
    true
}

/// Of each attribute those component types and shapes are admitted that the format has for it:
/// positions and normals are triples of floating-point numbers, tangents fours of them, texture
/// coordinates pairs and colours triples or fours of floating-point numbers or of bytes or shorts,
/// and indices single bytes, shorts or integers.
pub proof fn roles_admit_their_types(component: u32, shape: Shape)
    ensures
        admitted(Role::Triples, component, shape) <==> component == 5126 && shape is Vec3,
        admitted(Role::Tangents, component, shape) <==> component == 5126 && (shape is Vec4
            || shape is Mat2),
        admitted(Role::TexCoords, component, shape) <==> (component == 5121 || component == 5123
            || component == 5126) && shape is Vec2,
        admitted(Role::Colors, component, shape) <==> (component == 5121 || component == 5123
            || component == 5126) && (shape is Vec3 || shape is Vec4),
        admitted(Role::Indices, component, shape) <==> (component == 5121 || component == 5123
            || component == 5125) && shape is Scalar,
        item_size(5126, Shape::Vec3) == 12,
        item_size(5126, Shape::Vec4) == 16,
        item_size(5126, Shape::Vec2) == 8,
        item_size(5125, Shape::Scalar) == 4,
        item_size(5123, Shape::Scalar) == 2,
        item_size(5121, Shape::Scalar) == 1,
{
    assert(item_size(5126, Shape::Vec3) == 4 * 3);
    assert(item_size(5126, Shape::Vec4) == 4 * 4);
    assert(item_size(5126, Shape::Vec2) == 4 * 2);
}

/// Where the items of an accessor span their view, the items do not overlap, and the end of each can
/// be counted.
pub proof fn spanned_items_can_be_counted(
    views: Seq<RawView>,
    at: usize,
    offset: usize,
    item: nat,
    count: usize,
    i: int,
)
    requires
        spans(views, at, offset, item, count),
        0 <= i < count,
    ensures
        at < views.len(),
        ({
            let stride = match views[at as int].stride {
                Some(s) => s as int,
                None => item as int,
            };
            &&& stride >= item
            &&& offset + stride * i + item <= usize::MAX
        }),
        views[at as int].offset + views[at as int].length <= usize::MAX,
{
    let stride = match views[at as int].stride {
        Some(s) => s as int,
        None => item as int,
    };
    assert(stride * i <= stride * (count - 1)) by (nonlinear_arith)
        requires
            stride >= 0,
            i <= count - 1,
    ;
}

/// A primitive is described where each of its attributes that is there leads to an accessor that is
/// there and can be read in the role of that attribute.
pub proof fn primitives_are_described_by_attribute(
    u: RawUses,
    accessors: Seq<RawAccessor>,
    shapes: Seq<Shape>,
    views: Seq<RawView>,
)
    requires
        primitive_described(u, accessors, shapes, views),
    ensures
        u.positions matches Some(i) ==> i < accessors.len() && i < shapes.len() && admitted(
            Role::Triples,
            accessors[i as int].component,
            shapes[i as int],
        ) && accessors[i as int].count > 0,
        u.normals matches Some(i) ==> i < accessors.len() && i < shapes.len() && admitted(
            Role::Triples,
            accessors[i as int].component,
            shapes[i as int],
        ),
        u.tangents matches Some(i) ==> i < accessors.len() && i < shapes.len() && admitted(
            Role::Tangents,
            accessors[i as int].component,
            shapes[i as int],
        ),
        u.tex_coords matches Some(i) ==> i < accessors.len() && i < shapes.len() && admitted(
            Role::TexCoords,
            accessors[i as int].component,
            shapes[i as int],
        ),
        u.colors matches Some(i) ==> i < accessors.len() && i < shapes.len() && admitted(
            Role::Colors,
            accessors[i as int].component,
            shapes[i as int],
        ),
        u.indices matches Some(i) ==> i < accessors.len() && i < shapes.len() && admitted(
            Role::Indices,
            accessors[i as int].component,
            shapes[i as int],
        ),
{
}

/// An image is described where it has an address, or a type and a part of a buffer that is there and
/// is sound as a file.
pub proof fn images_are_described_by_their_source(
    s: ImageSourceModel,
    views: Seq<RawView>,
    buffers: Seq<Seq<u8>>,
)
    requires
        image_described(s, views, buffers),
    ensures
        s.view is None ==> s.uri is Some,
        s.view matches Some(v) ==> {
            let view = views[v as int];
            &&& s.mime_type is Some
            &&& v < views.len()
            &&& view.buffer < buffers.len()
            &&& view.offset + view.length <= buffers[view.buffer as int].len()
            &&& jpeg_sound(
                buffers[view.buffer as int].subrange(
                    view.offset as int,
                    view.offset + view.length,
                ),
            )
            &&& png_sound(
                buffers[view.buffer as int].subrange(
                    view.offset as int,
                    view.offset + view.length,
                ),
            )
        },
{
}

/// A file can be parsed where its header, if it is one of the binary form, gives a length of at
/// least the header itself, and every primitive finds its positions among the accessors.
pub proof fn parsable_files_have_their_header_and_positions(bytes: Seq<u8>, i: int)
    requires
        parsable(bytes),
    ensures
        bytes.len() >= 12 && bytes.take(4) == seq![0x67u8, 0x6cu8, 0x54u8, 0x46u8] ==> bytes[8]
            + 0x100 * bytes[9] + 0x1_0000 * bytes[10] + 0x100_0000 * bytes[11] >= 12,
        outline_in(bytes) matches Some(o) ==> 0 <= i < o.positions.len() ==> (o.positions[i]
            matches Some(p) ==> p < o.accessors),
{
}

/// A file can be imported where it can be parsed and each buffer that has an address has one with a
/// colon.
pub proof fn importable_files_have_plain_addresses(bytes: Seq<u8>, i: int)
    ensures
        importable(bytes) ==> parsable(bytes) && buffer_addresses_in(bytes) is Some,
        importable(bytes) && 0 <= i < buffer_addresses_in(bytes)->0.len()
            ==> (buffer_addresses_in(bytes)->0[i] matches Some(uri) ==> uri.contains(':')),
        parsable(bytes) && buffer_addresses_in(bytes) is Some && (forall|j: int|
            0 <= j < buffer_addresses_in(bytes)->0.len() ==> ((
            #[trigger] buffer_addresses_in(bytes)->0[j]) is Some ==> buffer_addresses_in(
                bytes,
            )->0[j]->0.contains(':'))) ==> importable(bytes),
{
}

/// The attributes of a file are sound where every primitive of it is described, its images where
/// every image of it is.
pub proof fn sound_files_describe_everything(bytes: Seq<u8>, i: int)
    ensures
        attributes_sound(bytes) ==> importable(bytes) && uses_in(bytes) is Some && accessors_in(
            bytes,
        ) is Some && shapes_in(bytes) is Some && views_in(bytes) is Some,
        attributes_sound(bytes) && 0 <= i < uses_in(bytes)->0.len() ==> primitive_described(
            uses_in(bytes)->0[i],
            accessors_in(bytes)->0,
            shapes_in(bytes)->0,
            views_in(bytes)->0,
        ),
        images_sound(bytes) ==> importable(bytes) && image_sources_in(bytes) is Some && views_in(
            bytes,
        ) is Some && buffers_in(bytes) is Some,
        images_sound(bytes) && 0 <= i < image_sources_in(bytes)->0.len() ==> image_described(
            image_sources_in(bytes)->0[i],
            views_in(bytes)->0,
            buffers_in(bytes)->0,
        ),
{
}

} // verus!
