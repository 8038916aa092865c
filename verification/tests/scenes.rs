//! Scene trees, views of them, boxes around their objects.
use glam::{Mat4, Quat, Vec3};
use lbr::aabb::Aabb;
use lbr::bounds::{box_of, BoxMath};
use lbr::client_scene::{ClientScene, FirstCamera};
use lbr::demo::{DemoAssets, DemoLayout, COPIES};
use lbr::handle::Handle;
use lbr::material::Material;
use lbr::mesh::{Float2, Float3, Float4, Mesh, Vertex};
use lbr::pinning::{pin_targets, PinTarget};
use lbr::renderer::{cube_layer, Renderer, TextureSlot};
use lbr::scene::{ObjectKey, Scene, SceneObject, SceneObjectKind};
use lbr::spawn::{collider_of, scene_assets, spawn_order, spawn_scene};

#[derive(Clone, Copy, Debug, PartialEq)]
struct Transform {
    position: Vec3,
    rotation: Quat,
    scale: Vec3,
}

impl Transform {
    const IDENTITY: Transform =
        Transform { position: Vec3::ZERO, rotation: Quat::IDENTITY, scale: Vec3::ONE };

    fn new(position: Vec3, rotation: Quat, scale: Vec3) -> Transform {
        Transform { position, rotation, scale }
    }

    fn to_mat4(&self) -> Mat4 {
        Mat4::from_scale_rotation_translation(self.scale, self.rotation, self.position)
    }
}

#[derive(Clone, Copy, Debug, PartialEq)]
enum Light {
    Point,
    Directional,
}

type Tree = Scene<Transform, Light>;
type Object = SceneObject<Transform, Light>;
type View = ClientScene<Transform, Light, Material, Camera, u32, f32>;

fn empty(transform: Transform) -> Object {
    SceneObject::new(SceneObjectKind::Empty, transform)
}

fn at(x: f32, y: f32, z: f32) -> Transform {
    Transform::new(Vec3::new(x, y, z), Quat::IDENTITY, Vec3::ONE)
}

fn world(scene: &Tree, key: ObjectKey) -> Option<Mat4> {
    scene.world_transform(key, Mat4::IDENTITY, |w: Mat4, t: Transform| w * t.to_mat4())
}

#[test]
fn world_transform_multiplies_parent_chain() {
    let mut scene = Tree::new();
    let root = scene.add_object(empty(at(1.0, 0.0, 0.0)));
    let child = scene.attach(root, empty(at(0.0, 2.0, 0.0))).unwrap();
    let w = world(&scene, child).unwrap();
    assert_eq!(w.transform_point3(Vec3::ZERO), Vec3::new(1.0, 2.0, 0.0));
}

#[test]
fn world_transform_follows_parent_rotation() {
    let mut scene = Tree::new();
    let root = scene.add_object(empty(Transform::new(
        Vec3::ZERO,
        Quat::from_rotation_y(std::f32::consts::FRAC_PI_2),
        Vec3::ONE,
    )));
    let child = scene.attach(root, empty(at(1.0, 0.0, 0.0))).unwrap();
    let p = world(&scene, child).unwrap().transform_point3(Vec3::ZERO);
    assert!(p.z.abs() > 0.99, "p = {p:?}");
    assert!(p.x.abs() < 0.01, "p = {p:?}");
    assert!(p.y.abs() < 0.01, "p = {p:?}");
}

#[test]
fn merge_reparents_and_returns_full_remap() {
    let mut a = Tree::new();
    let root = a.add_object(empty(at(1.0, 0.0, 0.0)));
    let child = a.attach(root, empty(at(0.0, 2.0, 0.0))).unwrap();

    let mut b = Tree::new();
    let remap = b.merge(&a);
    assert_eq!(remap.len(), 2);
    let copy = |k: ObjectKey| remap.iter().find(|e| e.0 == k).unwrap().1;
    let new_root = copy(root);
    let new_child = copy(child);
    assert_eq!(b.children_of(new_root), vec![new_child]);
    assert_eq!(
        world(&b, new_child).unwrap().transform_point3(Vec3::ZERO),
        Vec3::new(1.0, 2.0, 0.0)
    );
}

#[test]
fn light_cache_tracks_add_and_remove() {
    let mut scene = Tree::new();
    let point = scene.add_object(SceneObject::new(
        SceneObjectKind::Light(Light::Point),
        Transform::IDENTITY,
    ));
    let parent = scene.add_object(empty(Transform::IDENTITY));
    let child_light = scene
        .attach(
            parent,
            SceneObject::new(SceneObjectKind::Light(Light::Directional), Transform::IDENTITY),
        )
        .unwrap();
    assert_eq!(scene.lights(), vec![point, child_light]);
    scene.remove_object(parent);
    assert_eq!(scene.lights(), vec![point]);
    scene.remove_object(point);
    assert_eq!(scene.lights().len(), 0);
}

fn point(v: Vec3) -> Float3 {
    Float3 { x: v.x.to_bits(), y: v.y.to_bits(), z: v.z.to_bits() }
}

fn vector(p: Float3) -> Vec3 {
    Vec3::new(f32::from_bits(p.x), f32::from_bits(p.y), f32::from_bits(p.z))
}

const CUBE: Handle = Handle { index: 3, generation: 1 };

fn cube_world(scene: &mut Tree, position: Vec3) -> ObjectKey {
    scene.add_object(SceneObject::new(
        SceneObjectKind::Mesh(CUBE),
        Transform::new(position, Quat::IDENTITY, Vec3::ONE),
    ))
}

/// A handle of a mesh without corners.
const HOLLOW: Handle = Handle { index: 4, generation: 1 };

fn math<'a>(
    cube: &'a Mesh,
    hollow: &'a Mesh,
) -> BoxMath<
    Mat4,
    impl Fn(Mat4, Transform) -> Mat4,
    impl Fn(Handle) -> Option<&'a Mesh>,
    impl Fn(Mat4, Float3) -> Float3,
> {
    BoxMath {
        identity: Mat4::IDENTITY,
        apply: |w: Mat4, t: Transform| w * t.to_mat4(),
        mesh: move |h: Handle| {
            if h == CUBE {
                Some(cube)
            } else if h == HOLLOW {
                Some(hollow)
            } else {
                None
            }
        },
        point: |w: Mat4, p: Float3| point(w.transform_point3(vector(p))),
    }
}

fn cube_mesh() -> Mesh {
    corner_mesh([-0.5; 3], [0.5; 3])
}

fn no_mesh() -> Mesh {
    Mesh { vertices: vec![], indices: vec![] }
}

#[test]
fn point_inside_uses_world_aabb() {
    let mut scene = Tree::new();
    let cube = cube_world(&mut scene, Vec3::new(2.0, 0.0, 0.0));
    let (solid, hollow) = (cube_mesh(), no_mesh());
    let m = math(&solid, &hollow);
    let inside = |s: &Tree, k: ObjectKey, p: Vec3| s.point_inside(k, &m, point(p));
    assert!(inside(&scene, cube, Vec3::new(2.0, 0.0, 0.0)));
    assert!(inside(&scene, cube, Vec3::new(2.5, 0.5, 0.5)));
    assert!(!inside(&scene, cube, Vec3::new(3.0, 0.0, 0.0)));
    let plain = scene.add_object(empty(Transform::IDENTITY));
    assert!(!inside(&scene, plain, Vec3::ZERO));
}

#[test]
fn objects_collide_uses_world_aabb() {
    let mut scene = Tree::new();
    let a = cube_world(&mut scene, Vec3::ZERO);
    let b = cube_world(&mut scene, Vec3::new(0.5, 0.0, 0.0));
    let c = cube_world(&mut scene, Vec3::new(2.0, 0.0, 0.0));
    let (solid, hollow) = (cube_mesh(), no_mesh());
    let m = math(&solid, &hollow);
    assert!(scene.objects_collide(a, b, &m));
    assert!(!scene.objects_collide(a, c, &m));
    scene.remove_object(c);
    assert!(!scene.objects_collide(a, c, &m));
}

#[test]
fn collides_with_external_probe() {
    let mut scene = Tree::new();
    let cube = cube_world(&mut scene, Vec3::ZERO);
    let (solid, hollow) = (cube_mesh(), no_mesh());
    let m = math(&solid, &hollow);
    let half = Vec3::new(0.3, 0.9, 0.3);
    let player_box = Aabb::new(point(-half), point(half));
    let hit = |t: Transform, exclude: &Vec<ObjectKey>| {
        scene.collides_with(t.to_mat4(), &player_box, exclude, &m)
    };
    let player = at(0.6, 0.0, 0.0);
    assert_eq!(hit(player, &vec![]), Some(cube));
    assert_eq!(hit(at(2.0, 0.0, 0.0), &vec![]), None);
    let rotated = Transform::new(
        Vec3::new(0.9, 0.0, 0.0),
        Quat::from_rotation_y(std::f32::consts::FRAC_PI_4),
        Vec3::ONE,
    );
    assert_eq!(hit(rotated, &vec![]), Some(cube));
    assert_eq!(hit(player, &vec![cube]), None);
}

#[test]
fn hollow_boxes_touch_nothing() {
    let mut scene = Tree::new();
    let hollow_object = scene
        .add_object(SceneObject::new(SceneObjectKind::Mesh(HOLLOW), Transform::IDENTITY));
    let lost = Handle { index: 9, generation: 1 };
    let lost_object =
        scene.add_object(SceneObject::new(SceneObjectKind::Mesh(lost), Transform::IDENTITY));
    let cube = cube_world(&mut scene, Vec3::new(1.0, 0.0, 0.0));
    let (solid, hollow) = (cube_mesh(), no_mesh());
    let m = math(&solid, &hollow);
    for k in [hollow_object, lost_object] {
        assert!(scene.object_aabb_world(k, &m).is_none());
        assert!(!scene.point_inside(k, &m, point(Vec3::ZERO)));
        assert!(!scene.objects_collide(k, cube, &m));
        assert!(!scene.objects_collide(k, k, &m));
    }
    let found = scene.object_aabb_world(cube, &m).unwrap();
    assert_eq!(found, Aabb::new(point(Vec3::new(0.5, -0.5, -0.5)), point(Vec3::new(1.5, 0.5, 0.5))));
    let probe = Aabb::new(point(Vec3::splat(-9.0)), point(Vec3::splat(9.0)));
    assert_eq!(scene.collides_with(Mat4::IDENTITY, &probe, &vec![], &m), Some(cube));
    assert!(box_of(Some(&hollow)).is_none());
    assert!(box_of(None).is_none());
    assert_eq!(box_of(Some(&solid)), Some(solid.bounds()));
}

#[test]
fn objects_hang_where_they_were_hung() {
    let mut scene = Tree::new();
    let a = scene.add_object(empty(at(1.0, 0.0, 0.0)));
    let b = scene.attach(a, empty(at(2.0, 0.0, 0.0))).unwrap();
    let c = scene.attach(b, empty(at(3.0, 0.0, 0.0))).unwrap();
    assert_eq!(scene.parent_of(c), Some(b));
    assert!(!scene.reparent(a, Some(c)));
    assert!(!scene.reparent(a, Some(a)));
    assert!(scene.reparent(c, Some(a)));
    assert_eq!(scene.children_of(a), vec![b, c]);
    assert!(scene.reparent(b, None));
    assert_eq!(scene.roots(), vec![a, b]);
    assert_eq!(scene.placement_chain(c).unwrap(), vec![at(1.0, 0.0, 0.0), at(3.0, 0.0, 0.0)]);
    assert!(scene.remove_object(a).is_some());
    assert!(!scene.contains(c));
    assert!(scene.remove_object(c).is_none());
    assert!(scene.attach(c, empty(Transform::IDENTITY)).is_none());
    assert_eq!(scene.object_count(), 1);
    let d = scene.add_object(empty(Transform::IDENTITY));
    assert!(!scene.contains(a) && d != a && scene.object(d).is_some());
    assert!(scene.set_object(d, cube_object()));
    assert_eq!(scene.object(d).unwrap().mesh_handle(), Some(CUBE));
    assert!(!scene.set_object(a, cube_object()));
    assert!(world(&scene, a).is_none());
}

fn cube_object() -> Object {
    SceneObject::new(SceneObjectKind::Mesh(CUBE), Transform::IDENTITY)
}

#[derive(Clone, Copy, Debug, PartialEq)]
struct Camera {
    position: Vec3,
    yaw: f32,
    pitch: f32,
}

impl Camera {
    fn forward(&self) -> Vec3 {
        Vec3::new(
            self.yaw.cos() * self.pitch.cos(),
            self.pitch.sin(),
            self.yaw.sin() * self.pitch.cos(),
        )
    }
}

struct CameraAction {
    translate: Vec3,
    yaw_delta: f32,
    pitch_delta: f32,
}

fn view() -> View {
    let camera = |c: FirstCamera| Camera {
        position: Vec3::from_array([c.position.x, c.position.y, c.position.z].map(f32::from_bits)),
        yaw: f32::from_bits(c.yaw),
        pitch: f32::from_bits(c.pitch),
    };
    ClientScene::standard(f32::from_bits, camera)
}

#[test]
fn a_view_begins_with_the_standard_numbers() {
    let scene = view();
    assert_eq!(scene.camera().yaw, -std::f32::consts::FRAC_PI_2);
    assert_eq!(scene.camera().pitch, -0.15);
    assert_eq!((scene.agx_min_ev(), scene.agx_max_ev()), (-10.0, 6.5));
    let rest: ClientScene<(), (), (), FirstCamera, (), u32> =
        ClientScene::standard(|bits: u32| bits, |c: FirstCamera| c);
    let c = rest.camera();
    assert_eq!(f32::from_bits(c.fov_y), std::f32::consts::FRAC_PI_4);
    assert_eq!(f32::from_bits(c.aspect), 16.0 / 9.0);
    assert_eq!((f32::from_bits(c.near), f32::from_bits(c.far)), (0.1, 100.0));
}

#[test]
fn new_scene_has_default_camera() {
    assert_eq!(view().camera().position, Vec3::new(0.0, 1.0, 3.0));
}

#[test]
fn apply_camera_action_moves_and_rotates() {
    let mut scene = view();
    scene.set_camera(Camera { position: Vec3::ZERO, yaw: 0.0, pitch: 0.0 });
    let action =
        CameraAction { translate: Vec3::new(1.0, 2.0, 3.0), yaw_delta: 0.5, pitch_delta: -0.25 };
    scene.apply_camera_action(
        &action,
        |c: Camera, a: &CameraAction| Camera {
            yaw: c.yaw + a.yaw_delta,
            pitch: c.pitch + a.pitch_delta,
            ..c
        },
        |c: Camera, a: &CameraAction| Camera { position: c.position + a.translate, ..c },
    );
    assert_eq!(scene.camera().position, Vec3::new(1.0, 2.0, 3.0));
    let f = scene.camera().forward();
    assert!((f.x - 0.5_f32.cos() * 0.25_f32.cos()).abs() < 1e-6);
    assert!((f.y + 0.25_f32.sin()).abs() < 1e-6, "{f:?}");
    assert!((f.z - 0.5_f32.sin() * 0.25_f32.cos()).abs() < 1e-6);
}

#[test]
fn default_environment_intensity_is_full() {
    assert_eq!(view().environment_intensity(), 1.0);
}

fn tinted() -> Material {
    let color = [0.2f32, 0.3, 0.4, 1.0].map(|c| c.to_bits());
    Material {
        base_color: Float4 { x: color[0], y: color[1], z: color[2], w: color[3] },
        ..Material::default()
    }
}

fn base_color(m: &Material) -> [f32; 4] {
    [m.base_color.x, m.base_color.y, m.base_color.z, m.base_color.w].map(f32::from_bits)
}

#[test]
fn material_is_stored_per_node() {
    let mut scene = view();
    let key = scene.scene_mut().add_object(empty(Transform::IDENTITY));
    assert!(scene.material(key).is_none());
    scene.set_material(key, tinted());
    assert_eq!(base_color(scene.material(key).unwrap()), [0.2, 0.3, 0.4, 1.0]);
}

#[test]
fn merge_preserves_materials() {
    let mut a = view();
    let key = a.scene_mut().add_object(empty(Transform::IDENTITY));
    a.set_material(key, tinted());

    let mut b = view();
    let merged_roots = b.merge(&a);
    assert_eq!(merged_roots.len(), 1);
    let merged = merged_roots[0];
    assert_eq!(base_color(b.material(merged).unwrap()), [0.2, 0.3, 0.4, 1.0]);

    let plain = b.scene_mut().add_object(empty(at(5.0, 0.0, 0.0)));
    assert!(b.material(plain).is_none());
}

#[test]
fn clearing_keeps_camera_and_surroundings() {
    let mut scene = view().with_environment(7).with_environment_intensity(0.5);
    let key = scene.add_object(cube_object());
    scene.set_material(key, tinted());
    scene.clear_entities();
    assert_eq!(scene.scene().object_count(), 0);
    assert!(scene.material(key).is_none());
    assert_eq!(scene.environment(), Some(&7));
    assert_eq!(scene.environment_intensity(), 0.5);
    assert_eq!((scene.agx_min_ev(), scene.agx_max_ev()), (-10.0, 6.5));
}

fn layout() -> DemoLayout<Transform, Light> {
    DemoLayout {
        directional: (Light::Directional, Transform::IDENTITY),
        point: (Light::Point, at(2.2, 1.8, 0.8)),
        area: (Light::Point, at(0.0, 2.0, 0.0)),
        identity: Transform::IDENTITY,
        right_triangle: at(1.0, 0.0, 0.0),
        quad: at(2.0, 0.0, 0.0),
        upper_triangle: at(0.0, 3.0, 0.0),
        cube: at(4.0, 0.0, 0.0),
        small_triangle: at(0.0, 5.0, 0.0),
    }
}

const TRIANGLE: Handle = Handle { index: 1, generation: 1 };
const QUAD: Handle = Handle { index: 2, generation: 1 };
const CHECKER: Handle = Handle { index: 4, generation: 1 };

#[test]
fn the_demonstration_has_nine_objects() {
    let assets =
        DemoAssets { triangle: TRIANGLE, quad: QUAD, cube: CUBE, cube_texture: Some(CHECKER) };
    let scene = view().demo(assets, &layout());
    let tree = scene.scene();
    assert_eq!(tree.object_count(), 9);
    assert_eq!(tree.lights().len(), 3);
    assert_eq!(tree.roots().len(), 8);
    let keys = tree.objects();
    let cube = keys[7];
    assert_eq!(tree.children_of(cube), vec![keys[8]]);
    assert_eq!(scene.material(cube).unwrap().base_color_texture, Some(CHECKER));
    assert_eq!(scene.first_mesh(), Some((keys[3], TRIANGLE)));
    let mut needed = scene_assets(&scene);
    needed.sort_by_key(|h| h.index);
    assert_eq!(needed, vec![TRIANGLE, QUAD, CUBE, CHECKER]);
    let p = world(tree, keys[8]).unwrap().transform_point3(Vec3::ZERO);
    assert_eq!(p, Vec3::new(4.0, 5.0, 0.0));
}

#[test]
fn the_test_model_is_strewn_in_rows() {
    let mut model = view();
    let root = model.add_object(empty(at(1.0, 0.0, 0.0)));
    let mesh = model.attach_object(root, cube_object()).unwrap();
    model.set_material(mesh, tinted());
    let mut scene = view();
    scene.add_object(empty(Transform::IDENTITY));
    scene.add_test_model(
        &model,
        |t: Transform| Transform { scale: t.scale * 5.0, ..t },
        |row: u32, column: u32| at(column as f32, 0.0, row as f32),
    );
    let keys = scene.scene().objects();
    assert_eq!(keys.len(), 1 + 2 + COPIES as usize);
    assert_eq!(scene.scene().object(keys[1]).unwrap().transform.scale, Vec3::splat(5.0));
    assert_eq!(scene.scene().object(keys[2]).unwrap().transform, Transform::IDENTITY);
    assert_eq!(scene.scene().object(keys[3]).unwrap().transform, at(0.0, 0.0, 0.0));
    assert_eq!(scene.scene().object(keys[14]).unwrap().transform, at(1.0, 0.0, 1.0));
    assert_eq!(scene.scene().object(keys[52]).unwrap().transform, at(9.0, 0.0, 4.0));
    assert!(keys[3..].iter().all(|k| scene.material(*k).unwrap().same(&tinted())));

    let mut bare = view();
    bare.add_test_model(&view(), |t: Transform| t, |_: u32, _: u32| Transform::IDENTITY);
    assert_eq!(bare.scene().object_count(), 0);
}

/// A mesh of two opposite corners.
fn corner_mesh(min: [f32; 3], max: [f32; 3]) -> Mesh {
    let vertex = |p: [f32; 3]| {
        let zero = Float3 { x: 0, y: 0, z: 0 };
        let [x, y, z] = p.map(f32::to_bits);
        Vertex {
            position: Float3 { x, y, z },
            normal: zero,
            tangent: Float4 { x: 0, y: 0, z: 0, w: 0 },
            tex_coord: Float2 { x: 0, y: 0 },
            color: zero,
        }
    };
    Mesh { vertices: vec![vertex(min), vertex(max)], indices: vec![0, 1] }
}

#[test]
fn spawn_scene_creates_hierarchy_and_main_camera() {
    let cube = corner_mesh([-0.5; 3], [0.5; 3]);
    let mut template = Tree::new();
    let root = template.add_object(empty(Transform::IDENTITY));
    let mesh = template
        .attach(root, SceneObject::new(SceneObjectKind::Mesh(CUBE), at(2.0, 0.0, 0.0)))
        .unwrap();
    let cam = template.add_object(empty(at(0.0, 1.0, 3.0)));

    let plan = spawn_scene(&template, Some(cam));
    let items = &plan.items;
    assert!(plan.main_camera.is_some());
    assert_eq!(items[plan.main_camera.unwrap()].key, cam);
    let object = |k: ObjectKey| template.object(k).unwrap();
    assert_eq!(items.iter().filter(|i| object(i.key).mesh_handle().is_some()).count(), 1);
    let colliders: Vec<Aabb> =
        items.iter().filter_map(|i| collider_of(object(i.key), Some(&cube))).collect();
    assert_eq!(colliders.len(), 1);
    assert_eq!(colliders[0], cube.bounds());

    let place = |k: ObjectKey| items.iter().position(|i| i.key == k).unwrap();
    assert!(place(root) < place(mesh));
    assert_eq!(items[place(mesh)].parent, Some(place(root)));
    assert_eq!(items[place(root)].parent, None);
}

#[test]
fn colliders_are_boxes_around_meshes() {
    assert!(collider_of(&empty(Transform::IDENTITY), None).is_none());
    assert!(collider_of(&cube_object(), None).unwrap().is_empty());
}

#[test]
fn without_a_main_camera_none_is_named() {
    let mut template = Tree::new();
    let a = template.add_object(empty(Transform::IDENTITY));
    let b = template.add_object(empty(Transform::IDENTITY));
    assert!(spawn_scene(&template, None).main_camera.is_none());
    assert_eq!(spawn_scene(&template, Some(b)).main_camera, Some(1));
    template.remove_object(a);
    assert!(spawn_scene(&template, Some(a)).main_camera.is_none());
}

#[test]
fn scenes_come_to_life_level_by_level() {
    let mut scene = Tree::new();
    let a = scene.add_object(empty(Transform::IDENTITY));
    let b = scene.add_object(empty(Transform::IDENTITY));
    let a1 = scene.attach(a, empty(Transform::IDENTITY)).unwrap();
    let b1 = scene.attach(b, empty(Transform::IDENTITY)).unwrap();
    let a2 = scene.attach(a, empty(Transform::IDENTITY)).unwrap();
    let a11 = scene.attach(a1, empty(Transform::IDENTITY)).unwrap();
    let items = spawn_scene(&scene, None).items;
    let keys: Vec<ObjectKey> = items.iter().map(|i| i.key).collect();
    assert_eq!(keys, vec![a, b, a1, a2, b1, a11]);
    let parents: Vec<Option<usize>> = items.iter().map(|i| i.parent).collect();
    assert_eq!(parents, vec![None, None, Some(0), Some(0), Some(1), Some(2)]);
}

#[test]
fn what_is_shown_is_pinned_object_by_object() {
    let mut scene = view();
    scene.add_object(empty(Transform::IDENTITY));
    let first = scene.add_object(cube_object());
    scene.add_object(cube_object());
    scene.set_material(
        first,
        Material {
            base_color_texture: Some(CHECKER),
            normal_texture: Some(QUAD),
            ..Material::default()
        },
    );
    assert_eq!(
        pin_targets(&scene),
        vec![
            PinTarget::Mesh(CUBE),
            PinTarget::Texture(CHECKER),
            PinTarget::Texture(QUAD),
            PinTarget::Mesh(CUBE),
        ]
    );
}

#[test]
fn the_renderer_follows_the_scene() {
    let mut r: Renderer<u32, f32> = Renderer::new(1.0, -10.0, 6.5);
    let scene = view().with_environment(9).with_environment_intensity(0.5);
    let scene = scene.with_environment_agx_ev(-4.0, 4.0);
    r.follow_environment(&scene);
    assert_eq!(r.environment, Some(9));
    assert_eq!(r.environment_intensity, 0.5);
    assert_eq!((r.agx_min_ev, r.agx_max_ev), (-4.0, 4.0));
    r.follow_environment(&view());
    assert_eq!(r.environment, None);
    assert_eq!(r.environment_intensity, 1.0);
    assert_eq!((r.agx_min_ev, r.agx_max_ev), (-10.0, 6.5));
    r.set_environment(3);
    r.reset_environment();
    assert_eq!(r.environment, None);
}

#[test]
fn objects_are_drawn_with_what_is_uploaded() {
    let mut scene = view();
    scene.add_object(empty(Transform::IDENTITY));
    let plain = scene.add_object(cube_object());
    let full = scene.add_object(cube_object());
    scene.set_material(
        full,
        Material {
            base_color_texture: Some(CHECKER),
            metallic_roughness_texture: Some(QUAD),
            normal_texture: Some(QUAD),
            ..Material::default()
        },
    );
    let mut r: Renderer<u32, f32> = Renderer::new(1.0, -10.0, 6.5);
    assert_eq!(r.plan.places(), 1);
    r.load_scene(&scene, |h: Handle| h == CHECKER);
    assert_eq!(r.plan.places(), 3);
    assert_eq!(r.plan.objects[1..], [plain, full]);
    assert!(r.plan.slots[0].is_none());
    let s = r.plan.slots[1].unwrap();
    assert_eq!(s.base_color, TextureSlot::White);
    assert_eq!(s.normal, TextureSlot::FlatNormal);
    let s = r.plan.slots[2].unwrap();
    assert_eq!(s.base_color, TextureSlot::Own(CHECKER));
    assert_eq!(s.metallic_roughness, TextureSlot::White);
    assert_eq!(s.normal, TextureSlot::White);
    let l = cube_layer(4, 2);
    assert_eq!((l.first, l.end, l.bytes_per_row), (32, 48, 64));
}

#[test]
fn objects_can_be_changed_in_place() {
    let mut scene = Tree::new();
    let light = scene.add_object(SceneObject::new(
        SceneObjectKind::Light(Light::Point),
        Transform::IDENTITY,
    ));
    scene.object_mut(light).unwrap().transform = at(1.0, 2.0, 3.0);
    assert_eq!(scene.object(light).unwrap().transform, at(1.0, 2.0, 3.0));
    // What is no light any more is not among the lights.
    scene.object_mut(light).unwrap().kind = SceneObjectKind::Empty;
    assert!(scene.lights().is_empty());
    scene.remove_object(light);
    assert!(scene.object_mut(light).is_none());

    let mut view = view();
    view.camera_mut().yaw = 0.5;
    assert_eq!(view.camera().yaw, 0.5);
}

#[test]
fn objects_come_to_life_branch_by_branch() {
    let mut scene = Tree::new();
    let a = scene.add_object(empty(Transform::IDENTITY));
    let b = scene.add_object(empty(Transform::IDENTITY));
    let a1 = scene.attach(a, empty(Transform::IDENTITY)).unwrap();
    let b1 = scene.attach(b, empty(Transform::IDENTITY)).unwrap();
    let a2 = scene.attach(a, empty(Transform::IDENTITY)).unwrap();
    let a11 = scene.attach(a1, empty(Transform::IDENTITY)).unwrap();
    let items = spawn_order(&scene);
    let keys: Vec<ObjectKey> = items.iter().map(|i| i.key).collect();
    assert_eq!(keys, vec![a, a1, a11, a2, b, b1]);
    let parents: Vec<Option<usize>> = items.iter().map(|i| i.parent).collect();
    assert_eq!(parents, vec![None, Some(0), Some(1), Some(0), None, Some(4)]);
}
