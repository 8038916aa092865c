//! Registries, handles and what resides where.
use lbr::game_path::GamePath;
use lbr::handle::Handle;
use lbr::memory::MemoryLayer;
use lbr::mesh::{Float2, Float3, Float4, Mesh, Vertex};
use lbr::registry::{AssetRegistry, AssetState, DataSource};
use lbr::residency::{
    ensure_gpu, ensure_loaded, get, has_pinned_in_memory, load, pin, register_entries, sync_gpu,
    unload_memory, AssetLoader, GpuUploader, Locators, NoGpuUploader, NoLoader,
};
use lbr::resource::MergedResourceSpace;
use lbr::texture::Texture;
use std::cell::Cell;

fn mesh(corners: u32) -> Mesh {
    let zero = Float3 { x: 0, y: 0, z: 0 };
    let vertex = Vertex {
        position: zero,
        normal: zero,
        tangent: Float4 { x: 0, y: 0, z: 0, w: 0 },
        tex_coord: Float2 { x: 0, y: 0 },
        color: zero,
    };
    Mesh { vertices: vec![vertex; corners as usize], indices: (0..corners).collect() }
}

fn space() -> MergedResourceSpace {
    MergedResourceSpace::new("root".to_string())
}

#[test]
fn asset_register_and_get_roundtrip() {
    let mut meshes: AssetRegistry<Mesh, ()> = AssetRegistry::new();
    let handle = meshes.register(mesh(3));
    assert!(meshes.is_valid(handle));
    assert!(matches!(meshes.data_source(handle), Some(DataSource::Inline(_))));
    assert_eq!(meshes.state(handle), Some(AssetState::Resident));
}

#[test]
fn asset_removed_handle_stays_invalid_across_slot_reuse() {
    let mut textures: AssetRegistry<Texture, ()> = AssetRegistry::new();
    let a = textures.register(Texture::white());
    let removed = textures.remove(a);
    assert!(removed.is_some());
    assert!(!textures.is_valid(a));
    assert!(textures.data_source(a).is_none());

    let b = textures.register(Texture::checkerboard(2, 1));
    assert_eq!(b.index(), a.index());
    assert_ne!(b.generation(), a.generation());
    assert!(!textures.is_valid(a));
    assert!(textures.is_valid(b));
    assert!(textures.data_source(a).is_none());
    assert!(textures.data_source(b).is_some());
}

#[test]
fn asset_pin_unpin_transitions_state() {
    let mut meshes: AssetRegistry<Mesh, ()> = AssetRegistry::new();
    let handle = meshes.register(mesh(4));
    assert!(meshes.pin(handle));
    assert_eq!(meshes.state(handle), Some(AssetState::Pinned));
    assert!(meshes.unpin(handle));
    assert_eq!(meshes.state(handle), Some(AssetState::Resident));

    let stale = Handle { index: 999, generation: 1 };
    assert!(!meshes.pin(stale));
    assert!(!meshes.unpin(stale));
}

#[test]
fn iter_yields_all_live_assets() {
    let mut textures: AssetRegistry<Texture, ()> = AssetRegistry::new();
    let a = textures.register(Texture::white());
    let b = textures.register(Texture::checkerboard(2, 1));
    let keys = textures.iter();
    assert_eq!(keys.len(), 2);
    assert!(keys.contains(&a));
    assert!(keys.contains(&b));
}

#[test]
fn asset_handle_types_are_distinct() {
    let mesh = Handle { index: 0, generation: 1 };
    let texture = Handle { index: 0, generation: 1 };
    let mut meshes: AssetRegistry<Mesh, ()> = AssetRegistry::new();
    let mut textures: AssetRegistry<Texture, ()> = AssetRegistry::new();
    let m = meshes.register(self::mesh(3));
    let t = textures.register(Texture::white());
    assert!(matches!(meshes.data_source(m), Some(DataSource::Inline(Mesh { .. }))));
    assert!(matches!(textures.data_source(t), Some(DataSource::Inline(Texture { .. }))));
    let _ = (mesh, texture);
}

#[test]
fn inline_mesh_registers_and_removes() {
    let mut meshes: AssetRegistry<Mesh, ()> = AssetRegistry::new();
    let handle = meshes.register(mesh(36));
    assert!(matches!(meshes.data_source(handle), Some(DataSource::Inline(_))));
    assert_eq!(meshes.state(handle), Some(AssetState::Resident));
    assert!(meshes.remove(handle).is_some());
    assert!(meshes.data_source(handle).is_none());
}

#[test]
fn every_change_of_the_registry_counts() {
    let mut r: AssetRegistry<u32, ()> = AssetRegistry::new();
    assert!(r.is_empty());
    let v0 = r.version();
    let a = r.register(1);
    let v1 = r.version();
    assert!(v1 > v0);
    assert_eq!(r.len(), 1);
    r.remove(a);
    assert!(r.version() > v1);
    assert_eq!(r.len(), 0);
    assert!(r.remove(a).is_none());
}

#[test]
fn length_and_version_follow_from_the_calls() {
    let path: GamePath = "test:a.glb".parse().unwrap();
    let mut r: AssetRegistry<u32, u8> = AssetRegistry::new();
    assert_eq!((r.len(), r.version()), (0, 0));
    let a = r.register(1);
    let b = r.register_file(path, 7);
    let c = r.register(3);
    assert!(r.pin(a) && r.unpin(a) && r.set_state(b, AssetState::DiskOnly));
    *r.gpu_mut(c).unwrap() = Some(9);
    assert_eq!((r.len(), r.version()), (3, 3));
    assert!(r.remove(b).is_some());
    assert!(r.remove(b).is_none() && !r.pin(b) && r.gpu_mut(b).is_none());
    assert_eq!((r.len(), r.version()), (2, 4));
    assert_eq!(r.iter(), vec![a, c]);
    let d = r.register(4);
    assert_eq!((r.len(), r.version()), (3, 5));
    assert_eq!(r.iter(), vec![a, d, c]);
}

#[test]
fn keys_and_handles_go_together() {
    let h = Handle { index: 7, generation: 3 };
    assert_eq!(Handle::from_key(h.key()), h);
    assert_ne!(Handle { index: 3, generation: 7 }.key(), h.key());
    assert_eq!(h.index(), 7);
    assert_eq!(h.generation(), 3);
}

/// A loader of files that hold a few numbers; counts how often it reads.
struct Numbers {
    reads: Cell<u32>,
    fail: Cell<bool>,
}

impl AssetLoader<u32> for Numbers {
    type Parsed = Vec<u32>;

    fn listed(&self, _parsed: Vec<u32>) -> Locators {
        unreachable!()
    }

    fn found(&self, _parsed: Vec<u32>, _extra: u64) -> Option<u32> {
        unreachable!()
    }

    fn may_load(
        &self,
        _space: &MergedResourceSpace,
        _path: &GamePath,
        _r: Option<Vec<u32>>,
    ) -> bool {
        unreachable!()
    }

    fn load(&self, _space: &MergedResourceSpace, path: &GamePath) -> Option<Vec<u32>> {
        self.reads.set(self.reads.get() + 1);
        if self.fail.get() || path.path() == "missing" {
            None
        } else {
            Some(vec![10, 20, 30])
        }
    }

    fn entries(&self, parsed: &Vec<u32>) -> Vec<u64> {
        (0..parsed.len() as u64).collect()
    }

    fn entry<'a>(&self, parsed: &'a Vec<u32>, extra: u64) -> Option<&'a u32> {
        parsed.get(extra as usize)
    }
}

struct Doubler;

impl GpuUploader<u32, u64> for Doubler {
    fn upload(&self, data: &u32) -> u64 {
        *data as u64 * 2
    }
}

fn numbers() -> Numbers {
    Numbers { reads: Cell::new(0), fail: Cell::new(false) }
}

#[test]
fn files_come_from_disk_to_memory_to_the_card() {
    let mut memory: MemoryLayer<Vec<u32>> = MemoryLayer::new();
    let mut registry: AssetRegistry<u32, u64> = AssetRegistry::new();
    let loader = numbers();
    let path = GamePath::parse("test:n").unwrap();
    let handles = load(&mut memory, &mut registry, &loader, &space(), &path).unwrap();
    assert_eq!(handles.len(), 3);
    assert_eq!(loader.reads.get(), 1);
    assert_eq!(get(&memory, &registry, &loader, handles[1]), Some(&20));

    assert!(pin(&mut memory, &mut registry, &loader, Some(&Doubler), &space(), handles[1]));
    assert_eq!(registry.gpu(handles[1]), Some(&40));
    assert!(registry.gpu(handles[0]).is_none());

    unload_memory(&mut memory, &mut registry, &path);
    assert!(get(&memory, &registry, &loader, handles[1]).is_none());
    assert_eq!(registry.state(handles[1]), Some(AssetState::DiskOnly));
    assert!(registry.gpu(handles[1]).is_none());

    let up = ensure_gpu(&mut memory, &mut registry, &loader, Some(&Doubler), &space(), handles[2]);
    assert_eq!(up, Some(&60));
    assert_eq!(loader.reads.get(), 2);
    assert_eq!(registry.state(handles[2]), Some(AssetState::Pinned));
    assert!(ensure_loaded(&mut memory, &mut registry, &loader, &space(), handles[0]));
    assert_eq!(loader.reads.get(), 2);
}

#[test]
fn synchronising_uploads_what_is_pinned_and_drops_the_rest() {
    let mut memory: MemoryLayer<Vec<u32>> = MemoryLayer::new();
    let mut registry: AssetRegistry<u32, u64> = AssetRegistry::new();
    let loader = numbers();
    let a = registry.register(4);
    let b = registry.register(5);
    registry.pin(a);
    assert!(has_pinned_in_memory(&memory, &registry));
    sync_gpu(&memory, &mut registry, &loader, Some(&Doubler));
    assert_eq!(registry.gpu(a), Some(&8));
    assert!(registry.gpu(b).is_none());
    registry.unpin(a);
    registry.pin(b);
    sync_gpu(&memory, &mut registry, &loader, Some(&Doubler));
    assert!(registry.gpu(a).is_none());
    assert_eq!(registry.gpu(b), Some(&10));

    let path = GamePath::parse("test:n").unwrap();
    let handles = register_entries(&mut registry, &path, &vec![0, 1]);
    registry.pin(handles[0]);
    assert!(!has_pinned_in_memory(&memory, &registry));
    memory.insert(path, vec![1, 2]);
    assert!(has_pinned_in_memory(&memory, &registry));
    sync_gpu(&memory, &mut registry, &loader, None::<&Doubler>);
    assert!(registry.gpu(handles[0]).is_none());
}

#[test]
fn what_cannot_be_read_is_not_there() {
    let mut memory: MemoryLayer<Vec<u32>> = MemoryLayer::new();
    let mut registry: AssetRegistry<u32, u64> = AssetRegistry::new();
    let loader = numbers();
    let missing = GamePath::parse("test:missing").unwrap();
    assert!(load(&mut memory, &mut registry, &loader, &space(), &missing).is_none());
    assert!(registry.is_empty());

    let path = GamePath::parse("test:n").unwrap();
    let handles = load(&mut memory, &mut registry, &loader, &space(), &path).unwrap();
    unload_memory(&mut memory, &mut registry, &path);
    loader.fail.set(true);
    assert!(!ensure_loaded(&mut memory, &mut registry, &loader, &space(), handles[0]));
    assert!(!pin(&mut memory, &mut registry, &loader, Some(&Doubler), &space(), handles[0]));
    let stale = Handle { index: 99, generation: 1 };
    assert!(!pin(&mut memory, &mut registry, &loader, Some(&Doubler), &space(), stale));
}

#[test]
fn assets_without_files_need_no_loader() {
    let mut memory: MemoryLayer<()> = MemoryLayer::new();
    let mut registry: AssetRegistry<u32, ()> = AssetRegistry::new();
    let h = registry.register(5);
    assert_eq!(get(&memory, &registry, &NoLoader, h), Some(&5));
    assert!(pin(&mut memory, &mut registry, &NoLoader, Some(&NoGpuUploader), &space(), h));
    let path = GamePath::parse("test:n").unwrap();
    assert!(load(&mut memory, &mut registry, &NoLoader, &space(), &path).is_none());
}

#[test]
fn the_memory_holds_one_result_for_each_file() {
    let mut memory: MemoryLayer<u32> = MemoryLayer::new();
    let a = GamePath::parse("test:a").unwrap();
    let b = GamePath::parse("test:b").unwrap();
    memory.insert(a.clone(), 1);
    memory.insert(a.clone(), 2);
    memory.insert(b.clone(), 3);
    assert_eq!(memory.get(&a), Some(&2));
    assert_eq!(memory.remove(&a), Some(2));
    assert_eq!(memory.remove(&a), None);
    assert_eq!(memory.get(&b), Some(&3));
}

#[test]
fn gpu_data_can_be_changed_in_place() {
    let mut meshes: AssetRegistry<u8, u32> = AssetRegistry::new();
    let h = meshes.register(1);
    *meshes.gpu_mut(h).unwrap() = Some(7);
    assert_eq!(meshes.gpu(h), Some(&7));
    *meshes.gpu_mut(h).unwrap() = None;
    assert_eq!(meshes.gpu(h), None);
    meshes.remove(h);
    assert!(meshes.gpu_mut(h).is_none());
}
