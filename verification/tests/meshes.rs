//! Meshes and textures made of raw data.
use lbr::mesh::{
    fan_to_triangles, is_numberable, mesh_from_primitive, strip_to_triangles, Float2, Float3,
    Float4, MeshError, PrimitiveMode, RawPrimitive,
};
use lbr::number::{same_number, ONE};
use lbr::texture::{
    gltf_image_to_texture, has_whole_pixels, FloatMath, PixelFormat, RawImage, SizeMismatch,
    Texture,
};

struct Fixed;

impl FloatMath for Fixed {
    fn quantize(&self, b0: u8, b1: u8, b2: u8, b3: u8) -> u8 {
        (f32::from_le_bytes([b0, b1, b2, b3]).clamp(0.0, 1.0) * 255.0) as u8
    }

    fn tangents(
        &self,
        positions: &Vec<Float3>,
        _normals: &Vec<Float3>,
        _tex_coords: &Vec<Float2>,
        indices: &Vec<u32>,
    ) -> Vec<Float4> {
        vec![Float4 { x: indices.len() as u32, y: 7, z: 7, w: 7 }; positions.len()]
    }
}

#[test]
fn strips_alternate_their_winding() {
    assert_eq!(strip_to_triangles(&vec![0, 1, 2, 3, 4]), [0, 1, 2, 2, 1, 3, 2, 3, 4]);
    assert!(strip_to_triangles(&vec![0, 1]).is_empty());
}

#[test]
fn fans_share_their_first_corner() {
    assert_eq!(fan_to_triangles(&vec![5, 1, 2, 3]), [5, 1, 2, 5, 2, 3]);
    assert!(fan_to_triangles(&vec![]).is_empty());
}

fn corner(n: u32) -> Float3 {
    Float3 { x: n, y: n, z: n }
}

fn primitive(mode: PrimitiveMode, n: u32) -> RawPrimitive {
    RawPrimitive {
        mode,
        positions: Some((0..n).map(corner).collect()),
        normals: Vec::new(),
        tangents: Vec::new(),
        tex_coords: Vec::new(),
        colors: Vec::new(),
        indices: None,
    }
}

#[test]
fn missing_attributes_have_defaults() {
    let p = primitive(PrimitiveMode::Triangles, 3);
    assert!(is_numberable(&p));
    let mesh = mesh_from_primitive(&Fixed, &p).unwrap();
    assert_eq!(mesh.indices, [0, 1, 2]);
    let v = mesh.vertices[1];
    assert_eq!(v.position, corner(1));
    assert_eq!(v.normal, Float3 { x: 0, y: 0, z: ONE });
    assert_eq!(v.color, Float3 { x: ONE, y: ONE, z: ONE });
    assert_eq!(v.tex_coord, Float2 { x: 0, y: 0 });
}

#[test]
fn given_tangents_are_kept() {
    let mut p = primitive(PrimitiveMode::Triangles, 3);
    let t = Float4 { x: 1, y: 2, z: 3, w: 4 };
    p.tangents = vec![t; 3];
    assert_eq!(mesh_from_primitive(&Fixed, &p).unwrap().vertices[2].tangent, t);
    p.tangents.clear();
    p.tex_coords = vec![Float2 { x: 0, y: 0 }; 3];
    assert_eq!(mesh_from_primitive(&Fixed, &p).unwrap().vertices[2].tangent.x, 3);
}

#[test]
fn only_triangles_make_meshes() {
    let mut p = primitive(PrimitiveMode::Lines, 3);
    assert_eq!(mesh_from_primitive(&Fixed, &p).unwrap_err(), MeshError::UnsupportedMode);
    p.positions = None;
    p.mode = PrimitiveMode::Triangles;
    assert_eq!(mesh_from_primitive(&Fixed, &p).unwrap_err(), MeshError::MissingPositions);
}

#[test]
fn textures_are_painted() {
    let white = Texture::white();
    assert_eq!((white.width, white.height), (1, 1));
    assert_eq!(white.rgba8, [255, 255, 255, 255]);
    assert_eq!(Texture::neutral_normal().rgba8, [128, 128, 255, 255]);
    let none = Texture::checkerboard(0, 0);
    assert_eq!((none.width, none.height, none.rgba8.len()), (0, 0, 0));
    let board = Texture::checkerboard(4, 2);
    assert_eq!((board.width, board.height), (4, 4));
    let pixel = |x: usize, y: usize| board.rgba8[(y * 4 + x) * 4..(y * 4 + x) * 4 + 4].to_vec();
    assert_eq!(pixel(0, 0), pixel(1, 1));
    assert_ne!(pixel(0, 0), pixel(2, 0));
    assert_eq!(pixel(0, 0), pixel(2, 2));
}

fn raw(format: PixelFormat, pixels: Vec<u8>) -> RawImage {
    RawImage { width: 1, height: 1, format, pixels }
}

#[test]
fn pixels_of_all_formats_are_converted() {
    let one = |f: PixelFormat, p: &[u8]| {
        gltf_image_to_texture(&Fixed, &raw(f, p.to_vec())).unwrap().rgba8
    };
    assert_eq!(one(PixelFormat::R8, &[9]), [9, 9, 9, 255]);
    assert_eq!(one(PixelFormat::R8G8, &[9, 8]), [9, 9, 9, 8]);
    assert_eq!(one(PixelFormat::R8G8B8, &[9, 8, 7]), [9, 8, 7, 255]);
    assert_eq!(one(PixelFormat::R8G8B8A8, &[9, 8, 7, 6]), [9, 8, 7, 6]);
    assert_eq!(one(PixelFormat::R16, &[0xff, 0xff]), [255, 255, 255, 255]);
    assert_eq!(one(PixelFormat::R16G16, &[0, 0, 0xff, 0xff]), [0, 0, 0, 255]);
    assert_eq!(one(PixelFormat::R16G16B16, &[0, 0, 0xff, 0xff, 0, 0]), [0, 255, 0, 255]);
    assert_eq!(one(PixelFormat::R16G16B16A16, &[0, 0, 0xff, 0xff, 0, 0, 0, 0]), [0, 255, 0, 0]);
    let float = |list: &[f32]| list.iter().flat_map(|v| v.to_le_bytes()).collect::<Vec<u8>>();
    assert_eq!(one(PixelFormat::R32G32B32Float, &float(&[0.0, 1.0, 2.0])), [0, 255, 255, 255]);
    assert_eq!(
        one(PixelFormat::R32G32B32A32Float, &float(&[0.0, 1.0, 2.0, -1.0])),
        [0, 255, 255, 0]
    );
    assert_eq!(PixelFormat::R16G16B16.size(), 6);
}

#[test]
fn pictures_of_the_wrong_size_are_refused() {
    let image = raw(PixelFormat::R8, vec![1, 2]);
    assert!(has_whole_pixels(&image));
    assert_eq!(gltf_image_to_texture(&Fixed, &image).unwrap_err(), SizeMismatch);
    assert!(!has_whole_pixels(&raw(PixelFormat::R8G8, vec![1, 2, 3])));
}

#[test]
fn numbers_are_equal_as_numbers() {
    assert!(same_number(0.0f32.to_bits(), (-0.0f32).to_bits()));
    assert!(same_number(ONE, 1.0f32.to_bits()));
    assert!(!same_number(f32::NAN.to_bits(), f32::NAN.to_bits()));
    assert!(!same_number(ONE, 2.0f32.to_bits()));
}
