//! glTF files: meshes, textures and scenes out of their bytes.
use lbr::asset::load::FileLoader;
use lbr::asset::AssetManager;
use lbr::client_load::{load_scene, FileReader, GlbLoader};
use lbr::client_scene::ClientScene;
use lbr::description::{
    has_sound_attributes, has_sound_images, is_importable, is_parsable,
};
use lbr::document::Placement;
use lbr::game_path::GamePath;
use lbr::glb::{parse_glb, GlbData, GlbFileLoader, MESH_TYPE, TEXTURE_TYPE};
use lbr::material::Material;
use lbr::memory::MemoryLayer;
use lbr::mesh::{Float2, Float3, Float4, Mesh};
use lbr::pinning::pin_scene_assets;
use lbr::registry::{AssetRegistry, AssetState};
use lbr::residency::{get, load, AssetLoader, GpuUploader};
use lbr::resource::MergedResourceSpace;
use lbr::scene::SceneObjectKind;
use lbr::scene_load::TemplateError;
use lbr::texture::{FloatMath, Texture};

/// Numbers are clamped; tangents all point along X.
#[derive(Debug)]
struct Plain;

impl FloatMath for Plain {
    fn quantize(&self, b0: u8, b1: u8, b2: u8, b3: u8) -> u8 {
        (f32::from_le_bytes([b0, b1, b2, b3]).clamp(0.0, 1.0) * 255.0) as u8
    }

    fn tangents(
        &self,
        positions: &Vec<Float3>,
        _normals: &Vec<Float3>,
        _tex_coords: &Vec<Float2>,
        _indices: &Vec<u32>,
    ) -> Vec<Float4> {
        let one = 1.0f32.to_bits();
        vec![Float4 { x: one, y: 0, z: 0, w: one }; positions.len()]
    }
}

const TRIANGLE_JSON: &str = r#"{
    "asset": { "version": "2.0" },
    "scene": 0,
    "scenes": [ { "nodes": [ 0 ] } ],
    "nodes": [ { "mesh": 0 } ],
    "meshes": [ { "primitives": [ {
        "attributes": { "POSITION": 0, "NORMAL": 1, "TEXCOORD_0": 2, "COLOR_0": 3 },
        "indices": 4
    } ] } ],
    "accessors": [
        { "bufferView": 0, "componentType": 5126, "count": 3, "type": "VEC3",
          "min": [-0.5, -0.5, 0.0], "max": [0.5, 0.5, 0.0] },
        { "bufferView": 1, "componentType": 5126, "count": 3, "type": "VEC3" },
        { "bufferView": 2, "componentType": 5126, "count": 3, "type": "VEC2" },
        { "bufferView": 3, "componentType": 5126, "count": 3, "type": "VEC3" },
        { "bufferView": 4, "componentType": 5123, "count": 3, "type": "SCALAR" }
    ],
    "bufferViews": [
        { "buffer": 0, "byteOffset": 0, "byteLength": 36 },
        { "buffer": 0, "byteOffset": 36, "byteLength": 36 },
        { "buffer": 0, "byteOffset": 72, "byteLength": 24 },
        { "buffer": 0, "byteOffset": 96, "byteLength": 36 },
        { "buffer": 0, "byteOffset": 132, "byteLength": 6 }
    ],
    "buffers": [ { "byteLength": 138 } ]
}"#;

fn f32_bytes(values: &[f32]) -> Vec<u8> {
    values.iter().flat_map(|v| v.to_le_bytes()).collect()
}

fn glb_bytes(json: &str, bin: &[u8]) -> Vec<u8> {
    let mut json_pad = json.as_bytes().to_vec();
    while json_pad.len() % 4 != 0 {
        json_pad.push(b' ');
    }
    let bin_len = bin.len().div_ceil(4) * 4;
    let total = 12 + 8 + json_pad.len() + 8 + bin_len;
    let mut out = Vec::with_capacity(total);
    out.extend_from_slice(b"glTF");
    out.extend_from_slice(&2u32.to_le_bytes());
    out.extend_from_slice(&(total as u32).to_le_bytes());
    out.extend_from_slice(&(json_pad.len() as u32).to_le_bytes());
    out.extend_from_slice(b"JSON");
    out.extend_from_slice(&json_pad);
    out.extend_from_slice(&(bin_len as u32).to_le_bytes());
    out.extend_from_slice(b"BIN\0");
    out.extend_from_slice(bin);
    out.resize(total, 0);
    out
}

fn triangle_bin() -> Vec<u8> {
    let mut bin = Vec::new();
    bin.extend(f32_bytes(&[-0.5, -0.5, 0.0, 0.5, -0.5, 0.0, 0.0, 0.5, 0.0]));
    bin.extend(f32_bytes(&[0.0, 0.0, 1.0, 0.0, 0.0, 1.0, 0.0, 0.0, 1.0]));
    bin.extend(f32_bytes(&[0.0, 0.0, 1.0, 0.0, 0.5, 1.0]));
    bin.extend(f32_bytes(&[1.0, 0.0, 0.0, 0.0, 1.0, 0.0, 0.0, 0.0, 1.0]));
    for index in [0u16, 1, 2] {
        bin.extend_from_slice(&index.to_le_bytes());
    }
    bin
}

fn triangle() -> Vec<u8> {
    glb_bytes(TRIANGLE_JSON, &triangle_bin())
}

fn numbers3(f: Float3) -> [f32; 3] {
    [f.x, f.y, f.z].map(f32::from_bits)
}

fn numbers2(f: Float2) -> [f32; 2] {
    [f.x, f.y].map(f32::from_bits)
}

fn check_triangle(mesh: &Mesh) {
    assert_eq!(mesh.vertices.len(), 3);
    assert_eq!(mesh.indices, [0, 1, 2]);
    assert_eq!(numbers3(mesh.vertices[0].position), [-0.5, -0.5, 0.0]);
    assert_eq!(numbers3(mesh.vertices[0].normal), [0.0, 0.0, 1.0]);
    assert_eq!(numbers2(mesh.vertices[0].tex_coord), [0.0, 0.0]);
    assert_eq!(numbers3(mesh.vertices[2].color), [0.0, 0.0, 1.0]);
}

fn shift(p: Placement) -> [f32; 3] {
    match p {
        Placement::Parts { translation, .. } => translation.map(f32::from_bits),
        Placement::Matrix { columns } => [columns[3][0], columns[3][1], columns[3][2]].map(f32::from_bits),
    }
}

#[test]
fn tests_load_triangle_glb() {
    assert_eq!(triangle_bin().len(), 138);
    let bytes = triangle();
    let path: GamePath = "test:triangle.glb".parse().unwrap();
    let mut assets: AssetManager<GlbData> =
        AssetManager::new(MergedResourceSpace::new("dir".to_string()));
    let loader = GlbFileLoader { math: Plain };
    let template = assets
        .load_scene_template::<_, [f32; 3], (), _>(&loader, path, Some(&bytes), [0.0; 3], shift)
        .unwrap();

    assert_eq!(assets.iter_of(MESH_TYPE).len(), 1);
    let handle = assets.iter_of(MESH_TYPE)[0];
    match assets.get_cached(handle) {
        Some(GlbData::Mesh(mesh)) => check_triangle(mesh),
        other => panic!("{other:?}"),
    }

    let scene = &template.scene;
    assert_eq!(scene.object_count(), 2);
    let roots = scene.roots();
    assert_eq!(roots.len(), 1);
    assert!(matches!(scene.object(roots[0]).unwrap().kind, SceneObjectKind::Empty));
    let children = scene.children_of(roots[0]);
    assert_eq!(children.len(), 1);
    assert!(matches!(scene.object(children[0]).unwrap().kind, SceneObjectKind::Mesh(_)));
    let translation = scene
        .world_transform(children[0], [0.0f32; 3], |w: [f32; 3], t: [f32; 3]| {
            [w[0] + t[0], w[1] + t[1], w[2] + t[2]]
        })
        .unwrap();
    assert_eq!(translation, [0.0; 3]);
}

/// The packs of the test: one file.
struct OneFile;

impl FileReader for OneFile {
    fn read(&self, _space: &MergedResourceSpace, path: &GamePath) -> Option<Vec<u8>> {
        if path.path() == "triangle.glb" {
            Some(triangle())
        } else {
            None
        }
    }
}

type View = ClientScene<[f32; 3], (), Material, (), (), u32>;

#[test]
fn mod_load_triangle_glb() {
    let path: GamePath = "test:triangle.glb".parse().unwrap();
    let mut memory = MemoryLayer::new();
    let mut meshes: AssetRegistry<Mesh, ()> = AssetRegistry::new();
    let mut textures: AssetRegistry<Texture, ()> = AssetRegistry::new();
    let bytes = triangle();
    let view: View = ClientScene::new((), 1, 2, 3);
    let scene = load_scene(
        &Plain, &path, Some(&bytes), &mut memory, &mut meshes, &mut textures, view, [0.0; 3], shift,
    )
    .unwrap();
    assert_eq!(meshes.len(), 1);
    assert_eq!(textures.len(), 0);
    let loader = GlbLoader { math: Plain, files: OneFile };
    let handle = meshes.iter()[0];
    assert_eq!(meshes.state(handle), Some(AssetState::Resident));
    check_triangle(get::<Mesh, (), _>(&memory, &meshes, &loader, handle).unwrap());
    let tree = scene.scene();
    assert_eq!(tree.object_count(), 2);
    let root = tree.roots()[0];
    let child = tree.children_of(root)[0];
    let metallic = Material { metallic_factor: 1.0f32.to_bits(), ..Material::default() };
    assert!(scene.material(child).unwrap().same(&metallic));
}

#[test]
fn files_are_read_for_each_type_of_asset() {
    let loader = GlbLoader { math: Plain, files: OneFile };
    let space = MergedResourceSpace::new("dir".to_string());
    let mut memory = MemoryLayer::new();
    let mut meshes: AssetRegistry<Mesh, ()> = AssetRegistry::new();
    let path: GamePath = "test:triangle.glb".parse().unwrap();
    let handles = load(&mut memory, &mut meshes, &loader, &space, &path).unwrap();
    assert_eq!(handles.len(), 1);
    let missing: GamePath = "test:missing.glb".parse().unwrap();
    assert!(load(&mut memory, &mut meshes, &loader, &space, &missing).is_none());
    let parsed = loader.load_assets(&space, &path).unwrap();
    assert!(AssetLoader::<Texture>::entries(&loader, &parsed).is_empty());
    assert_eq!(AssetLoader::<Mesh>::entries(&loader, &parsed), vec![0]);
}

/// A file with one textured square in two primitives, below two placed nodes.
fn textured() -> Vec<u8> {
    let picture = {
        let image = image::RgbaImage::from_pixel(2, 1, image::Rgba([10, 20, 30, 40]));
        let mut bytes = Vec::new();
        image::DynamicImage::ImageRgba8(image)
            .write_to(&mut std::io::Cursor::new(&mut bytes), image::ImageFormat::Png)
            .unwrap();
        bytes
    };
    let mut bin = f32_bytes(&[0.0, 0.0, 0.0, 1.0, 0.0, 0.0, 0.0, 1.0, 0.0, 1.0, 1.0, 0.0]);
    let start = bin.len();
    bin.extend_from_slice(&picture);
    let json = format!(
        r#"{{
    "asset": {{ "version": "2.0" }},
    "scene": 0,
    "scenes": [ {{ "nodes": [ 0 ] }} ],
    "nodes": [ {{ "children": [ 1 ], "translation": [ 1.0, 0.0, 0.0 ] }},
               {{ "mesh": 0, "matrix": [ 1,0,0,0, 0,1,0,0, 0,0,1,0, 0,2,0,1 ] }} ],
    "meshes": [ {{ "primitives": [
        {{ "attributes": {{ "POSITION": 0 }}, "mode": 5, "material": 0 }},
        {{ "attributes": {{ "POSITION": 0 }}, "mode": 6 }} ] }} ],
    "materials": [ {{ "pbrMetallicRoughness": {{ "baseColorFactor": [ 0.5, 1.0, 1.0, 1.0 ],
        "metallicFactor": 0.25, "baseColorTexture": {{ "index": 0 }} }} }} ],
    "textures": [ {{ "source": 0 }} ],
    "images": [ {{ "bufferView": 1, "mimeType": "image/png" }} ],
    "accessors": [ {{ "bufferView": 0, "componentType": 5126, "count": 4, "type": "VEC3",
        "min": [ 0.0, 0.0, 0.0 ], "max": [ 1.0, 1.0, 0.0 ] }} ],
    "bufferViews": [ {{ "buffer": 0, "byteOffset": 0, "byteLength": 48 }},
        {{ "buffer": 0, "byteOffset": {start}, "byteLength": {len} }} ],
    "buffers": [ {{ "byteLength": {total} }} ]
}}"#,
        start = start,
        len = picture.len(),
        total = bin.len()
    );
    glb_bytes(&json, &bin)
}

#[test]
fn everything_in_a_file_is_read() {
    let bytes = textured();
    let assets = parse_glb(&Plain, &bytes).unwrap();
    assert_eq!(assets.meshes.len(), 2);
    assert_eq!(assets.meshes[0].indices, [0, 1, 2, 2, 1, 3]);
    assert_eq!(assets.meshes[1].indices, [0, 1, 2, 0, 2, 3]);
    assert_eq!(assets.textures.len(), 1);
    assert_eq!((assets.textures[0].width, assets.textures[0].height), (2, 1));
    assert_eq!(assets.textures[0].rgba8, [10, 20, 30, 40, 10, 20, 30, 40]);

    let loader = GlbFileLoader { math: Plain };
    let scanned = loader.scan(&bytes).unwrap();
    let parsed = loader.parse(&bytes).unwrap();
    assert_eq!(scanned.len(), parsed.len());
    for (s, p) in scanned.iter().zip(parsed.iter()) {
        assert_eq!(s.type_tag, p.type_tag);
        assert_eq!(s.extras, p.entries.iter().map(|e| e.extra).collect::<Vec<_>>());
    }
    assert!(loader.extra_eq(1, 1) && !loader.extra_eq(1, 2));
}

#[test]
fn nodes_are_placed_and_materials_found() {
    let bytes = textured();
    let mut assets: AssetManager<GlbData> =
        AssetManager::new(MergedResourceSpace::new("dir".to_string()));
    let loader = GlbFileLoader { math: Plain };
    let path: GamePath = "test:square.glb".parse().unwrap();
    let template = assets
        .load_scene_template::<_, [f32; 3], (), _>(
            &loader,
            path.clone(),
            Some(&bytes),
            [0.0; 3],
            shift,
        )
        .unwrap();
    let texture = assets.iter_of(TEXTURE_TYPE)[0];
    let scene = &template.scene;
    assert_eq!(scene.object_count(), 4);
    let root = scene.roots()[0];
    assert_eq!(scene.object(root).unwrap().transform, [1.0, 0.0, 0.0]);
    let node = scene.children_of(root)[0];
    assert_eq!(scene.object(node).unwrap().transform, [0.0, 2.0, 0.0]);
    assert_eq!(scene.children_of(node).len(), 2);
    let of = |k| template.materials.iter().find(|e| e.0 == k).unwrap().1;
    let first = of(scene.children_of(node)[0]);
    assert_eq!(first.base_color_texture, Some(texture));
    assert_eq!(f32::from_bits(first.base_color.x), 0.5);
    assert_eq!(f32::from_bits(first.metallic_factor), 0.25);
    let second = of(scene.children_of(node)[1]);
    assert_eq!(second.base_color_texture, None);

    let before = assets.len();
    let again = assets.load_scene_template::<_, [f32; 3], (), _>(
        &loader,
        path,
        Some(&bytes),
        [0.0; 3],
        shift,
    );
    assert!(again.is_ok());
    assert_eq!(assets.len(), before);
}

#[test]
fn files_without_scenes_are_reported() {
    let mut assets: AssetManager<GlbData> =
        AssetManager::new(MergedResourceSpace::new("dir".to_string()));
    let loader = GlbFileLoader { math: Plain };
    let mut read = |bytes: Option<&[u8]>| {
        assets
            .load_scene_template::<_, [f32; 3], (), _>(
                &loader,
                "test:x.glb".parse().unwrap(),
                bytes,
                [0.0; 3],
                shift,
            )
            .map(|_| ())
    };
    assert_eq!(read(None), Err(TemplateError::Unreadable));
    assert_eq!(read(Some(b"no file")), Err(TemplateError::Unparsable));
    let no_scene = glb_bytes(&TRIANGLE_JSON.replace("\"scene\": 0,", ""), &triangle_bin());
    assert_eq!(read(Some(&no_scene)), Err(TemplateError::NoDefaultScene));
}

/// The triangle with a piece of its description replaced.
fn altered(old: &str, new: &str) -> Vec<u8> {
    let json = TRIANGLE_JSON.replacen(old, new, 1);
    assert_ne!(json, TRIANGLE_JSON);
    glb_bytes(&json, &triangle_bin())
}

#[test]
fn files_that_cannot_be_followed_are_refused() {
    assert!(parse_glb(&Plain, &triangle()).is_some());

    // A header that states less than its own length.
    let mut short = triangle();
    short[8..12].copy_from_slice(&4u32.to_le_bytes());
    assert!(!is_parsable(&short));
    assert!(parse_glb(&Plain, &short).is_none());

    // Positions in an accessor that is not there.
    let lost = altered("\"POSITION\": 0", "\"POSITION\": 9");
    assert!(!is_parsable(&lost));
    assert!(GlbFileLoader { math: Plain }.scan(&lost).is_none());

    // A buffer with an address without a scheme.
    let relative = altered("\"byteLength\": 138", "\"byteLength\": 138, \"uri\": \"%FF\"");
    assert!(is_parsable(&relative));
    assert!(!is_importable(&relative));
    assert!(parse_glb(&Plain, &relative).is_none());

    // Indices that are floating-point numbers, normals of two components.
    for (old, new) in [
        ("\"componentType\": 5123", "\"componentType\": 5126"),
        ("{ \"bufferView\": 1, \"componentType\": 5126, \"count\": 3, \"type\": \"VEC3\"",
         "{ \"bufferView\": 1, \"componentType\": 5126, \"count\": 3, \"type\": \"VEC2\""),
        ("\"byteOffset\": 36, \"byteLength\": 36",
         "\"byteOffset\": 36, \"byteLength\": 36, \"byteStride\": 4"),
        ("\"bufferView\": 1, \"componentType\": 5126, \"count\": 3",
         "\"bufferView\": 1, \"componentType\": 5126, \"count\": 0"),
    ] {
        let bytes = altered(old, new);
        assert!(is_importable(&bytes));
        assert!(!has_sound_attributes(&bytes));
        assert!(parse_glb(&Plain, &bytes).is_none());
    }

    // Colours of three or four components can be read, unless they are matrices.
    for (shape, sound) in [("VEC4", true), ("MAT2", false), ("VEC2", false)] {
        let bytes = altered(
            "{ \"bufferView\": 3, \"componentType\": 5126, \"count\": 3, \"type\": \"VEC3\" }",
            &format!(
                "{{ \"bufferView\": 3, \"componentType\": 5126, \"count\": 2, \"type\": \"{shape}\" }}"
            ),
        );
        assert!(is_importable(&bytes));
        assert_eq!(has_sound_attributes(&bytes), sound, "{shape}");
        assert_eq!(parse_glb(&Plain, &bytes).is_some(), sound, "{shape}");
    }

    // Images without a type, without a source, or outside their buffer.
    for (image, sound) in [
        ("{ \"bufferView\": 0, \"mimeType\": \"image/png\" }", true),
        ("{ \"bufferView\": 0 }", false),
        ("{ }", false),
        ("{ \"uri\": \"a.png\" }", true),
        ("{ \"bufferView\": 5, \"mimeType\": \"image/png\" }", false),
    ] {
        let bytes = altered(
            "{ \"buffer\": 0, \"byteOffset\": 132, \"byteLength\": 6 }\n    ],",
            &format!(
                "{{ \"buffer\": 0, \"byteOffset\": 132, \"byteLength\": 6 }},\n        \
                 {{ \"buffer\": 0, \"byteOffset\": 132, \"byteLength\": 60 }}\n    ],\n    \
                 \"images\": [ {image} ],"
            ),
        );
        assert_eq!(has_sound_images(&bytes), sound, "{image}");
        assert!(parse_glb(&Plain, &bytes).is_none());
    }
}

#[test]
fn sparse_items_are_read() {
    // The second position of the triangle is replaced by (0, 0.5, 0), which stands in its last
    // position.
    let bytes = altered(
        "\"min\": [-0.5, -0.5, 0.0]",
        "\"sparse\": { \"count\": 1, \"indices\": { \"bufferView\": 4, \"byteOffset\": 2, \
         \"componentType\": 5123 }, \"values\": { \"bufferView\": 0, \"byteOffset\": 24 } }, \
         \"min\": [-0.5, -0.5, 0.0]",
    );
    let assets = parse_glb(&Plain, &bytes).unwrap();
    assert_eq!(numbers3(assets.meshes[0].vertices[0].position), [-0.5, -0.5, 0.0]);
    assert_eq!(numbers3(assets.meshes[0].vertices[1].position), [0.0, 0.5, 0.0]);
    // A list of no replacements is none.
    let many = altered(
        "\"min\": [-0.5, -0.5, 0.0]",
        "\"sparse\": { \"count\": 0, \"indices\": { \"bufferView\": 4, \
         \"componentType\": 5123 }, \"values\": { \"bufferView\": 0 } }, \
         \"min\": [-0.5, -0.5, 0.0]",
    );
    assert!(!has_sound_attributes(&many));
}

/// Puts the number of corners, or of bytes, on the card.
struct Sizes;

impl GpuUploader<Mesh, usize> for Sizes {
    fn upload(&self, data: &Mesh) -> usize {
        data.vertices.len()
    }
}

impl GpuUploader<Texture, usize> for Sizes {
    fn upload(&self, data: &Texture) -> usize {
        data.rgba8.len()
    }
}

#[test]
fn all_that_a_view_shows_is_kept_on_the_card() {
    let path: GamePath = "test:triangle.glb".parse().unwrap();
    let space = MergedResourceSpace::new("dir".to_string());
    let mut memory = MemoryLayer::new();
    let mut meshes: AssetRegistry<Mesh, usize> = AssetRegistry::new();
    let mut textures: AssetRegistry<Texture, usize> = AssetRegistry::new();
    let loader = GlbLoader { math: Plain, files: OneFile };
    let mesh = meshes.register_file(path.clone(), 0);
    let other = meshes.register_file(path, 0);
    let white = textures.register(Texture::white());
    let mut view: View = ClientScene::new((), 1, 2, 3);
    let key = view.add_object(lbr::scene::SceneObject::new(SceneObjectKind::Mesh(mesh), [0.0; 3]));
    view.set_material(key, Material { normal_texture: Some(white), ..Material::default() });
    pin_scene_assets(
        &view,
        &mut memory,
        &mut meshes,
        &mut textures,
        &loader,
        Some(&Sizes),
        Some(&Sizes),
        &space,
    );
    assert_eq!((meshes.state(mesh), meshes.gpu(mesh)), (Some(AssetState::Pinned), Some(&3)));
    assert_eq!((meshes.state(other), meshes.gpu(other)), (Some(AssetState::Resident), None));
    assert_eq!((textures.state(white), textures.gpu(white)), (Some(AssetState::Pinned), Some(&4)));
}
