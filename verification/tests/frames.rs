//! Frames: draw groups, placements in the world, ticks of the server and what is shown of them.
use glam::{Mat4, Vec3};
use lbr::client_scene::ClientScene;
use lbr::frame::RenderCommand;
use lbr::game_path::GamePath;
use lbr::handle::Handle;
use lbr::hierarchy::{propagate_world_transforms, visit_order, HierarchyNode};
use lbr::material::Material;
use lbr::mesh::Float4;
use lbr::protocol::{EntityKind, EntityState, WorldSnapshot};
use lbr::scene::{SceneObject, SceneObjectKind};
use lbr::server::Server;
use lbr::sync::SnapshotPlayer;

fn handles() -> [Handle; 2] {
    [Handle { index: 0, generation: 1 }, Handle { index: 1, generation: 1 }]
}

fn colored(x: f32, y: f32, z: f32, w: f32) -> Material {
    let [x, y, z, w] = [x, y, z, w].map(|c| c.to_bits());
    Material { base_color: Float4 { x, y, z, w }, ..Material::default() }
}

#[test]
fn push_mesh_instance_groups_by_mesh_and_material() {
    let [mesh_a, mesh_b] = handles();
    let material_a = colored(1.0, 0.0, 0.0, 1.0);
    let material_b = colored(0.0, 1.0, 0.0, 1.0);

    let mut command: RenderCommand<(), Mat4, (), ()> = RenderCommand::new();
    command.push_mesh_instance(mesh_a, material_a, Mat4::IDENTITY);
    command.push_mesh_instance(mesh_a, material_a, Mat4::from_translation(Vec3::X));
    command.push_mesh_instance(mesh_a, material_b, Mat4::IDENTITY);
    command.push_mesh_instance(mesh_b, material_a, Mat4::IDENTITY);

    assert_eq!(command.meshes.len(), 3);
    assert_eq!(command.meshes[0].instances.len(), 2);
    assert_eq!(command.meshes[1].instances.len(), 1);
    assert_eq!(command.meshes[2].instances.len(), 1);
}

#[test]
fn hierarchy_propagates_parent_chain() {
    let nodes = vec![
        HierarchyNode { parent: None, children: vec![1], local: Vec3::new(1.0, 0.0, 0.0) },
        HierarchyNode { parent: Some(0), children: vec![], local: Vec3::new(0.0, 1.0, 0.0) },
    ];
    let mut worlds = vec![Mat4::IDENTITY; 2];
    let order = propagate_world_transforms(
        &nodes,
        &mut worlds,
        |t: Vec3| Mat4::from_translation(t),
        |a: Mat4, b: Mat4| a * b,
    );
    let (_, _, translation) = worlds[1].to_scale_rotation_translation();
    assert_eq!(translation, Vec3::new(1.0, 1.0, 0.0));
    assert_eq!(order, vec![0, 1]);
}

#[test]
fn parents_are_visited_first() {
    let children = vec![vec![2, 3], vec![], vec![1], vec![]];
    let order = visit_order(&vec![0], &children);
    assert_eq!(order.len(), 4);
    let place = |n: usize| order.iter().position(|x| *x == n).unwrap();
    assert!(place(0) < place(2) && place(2) < place(1) && place(0) < place(3));
    let circle = vec![vec![1], vec![0]];
    assert_eq!(visit_order(&vec![0], &circle).len(), 2);
}

type World = Server<[f32; 2], &'static str>;

fn server() -> World {
    Server::new(("sun", [0.0, 0.0]), ("lamp", [1.0, 0.0]), ("panel", [2.0, 0.0]), [1.8, 0.0])
}

fn turned(by: f32) -> impl Fn([f32; 2]) -> [f32; 2] {
    move |t: [f32; 2]| [t[0], t[1] + by]
}

#[test]
fn tick_increments_and_rotates_mesh() {
    let mut server = server();
    let first = server.tick(turned(0.1));
    assert_eq!(first.tick, 1);
    assert_eq!(first.entities.len(), 4);

    let mesh = first.entities.iter().find(|e| matches!(e.kind, EntityKind::Mesh(_))).unwrap();
    let yaw0 = mesh.transform[1];

    let second = server.tick(turned(0.1));
    assert_eq!(second.tick, 2);
    let mesh = second.entities.iter().find(|e| matches!(e.kind, EntityKind::Mesh(_))).unwrap();
    assert_ne!(mesh.transform[1], yaw0);
    assert_eq!(mesh.id, 4);
    assert!(matches!(&mesh.kind, EntityKind::Mesh(p) if p.to_string() == "test:test.glb"));
    assert_eq!(second.entities[1].transform, [1.0, 0.0]);
}

type View = ClientScene<[f32; 2], &'static str, Material, (), (), u32>;

fn model() -> View {
    let mut view: View = ClientScene::new((), 1, 2, 3);
    let root = view.add_object(SceneObject::new(SceneObjectKind::Empty, [0.5, 0.0]));
    let mesh = SceneObject::new(SceneObjectKind::Mesh(handles()[0]), [0.0, 0.0]);
    view.attach_object(root, mesh).unwrap();
    view
}

fn composed(outer: [f32; 2], inner: [f32; 2]) -> [f32; 2] {
    [outer[0] + inner[0], outer[1] + inner[1]]
}

#[test]
fn apply_builds_then_updates_transforms() {
    let path: GamePath = "test:test.glb".parse().unwrap();
    let mut player: SnapshotPlayer<[f32; 2], &'static str, Material, (), (), u32> =
        SnapshotPlayer::new();
    let mut scene: View = ClientScene::new((), 1, 2, 3);
    let mut snap = WorldSnapshot {
        tick: 1,
        entities: vec![EntityState {
            id: 7,
            kind: EntityKind::Mesh(path.clone()),
            transform: [1.8, 0.0],
        }],
    };
    assert_eq!(player.missing_templates(&snap), vec![path.clone()]);
    assert_eq!(player.apply(&snap, &mut scene, [0.0, 0.0], &composed), Err(path.clone()));
    player.add_template(path.clone(), model());
    assert!(player.has_template(&path));

    let rebuilt = player.apply(&snap, &mut scene, [0.0, 0.0], &composed).unwrap();
    assert!(rebuilt);
    let root = scene.scene().roots()[0];
    let yaw0 = scene.scene().object(root).unwrap().transform[1];

    snap.tick = 2;
    snap.entities[0].transform[1] += 0.1;
    assert!(player.same_structure(&snap));
    let rebuilt = player.apply(&snap, &mut scene, [0.0, 0.0], &composed).unwrap();
    assert!(!rebuilt);
    let root = scene.scene().roots()[0];
    let yaw1 = scene.scene().object(root).unwrap().transform[1];
    assert_ne!(yaw0, yaw1);

    snap.entities.push(EntityState { id: 8, kind: EntityKind::Light("lamp"), transform: [3.0, 0.0] });
    assert!(!player.same_structure(&snap));
    assert_eq!(player.apply(&snap, &mut scene, [0.0, 0.0], &composed), Ok(true));
    assert_eq!(scene.scene().lights().len(), 1);
    assert_eq!(scene.scene().roots().len(), 2);
    assert_eq!(scene.scene().object_count(), 3);
}
