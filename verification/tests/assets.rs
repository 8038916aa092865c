//! The asset library: handles, pins, files, reloading and collection.
use lbr::asset::load::{reload, Batch, FileLoader, LoadError, LoadedEntry, ScannedType};
use lbr::asset::{Access, AssetManager, AssetState, EntryData, HandleState};
use lbr::game_path::GamePath;
use lbr::gc::{GcInfo, GcPolicy};
use lbr::handle::Handle;
use lbr::pins::ScenePins;
use lbr::resource::MergedResourceSpace;

const MESH: u64 = 0;
const TEXTURE: u64 = 1;
const NUMBER: u64 = 2;
const TEXT: u64 = 3;

#[derive(Debug, Clone, PartialEq)]
enum Data {
    Mesh(&'static str),
    Texture(&'static str),
    Number(u32),
    Text(String),
}

fn manager() -> AssetManager<Data> {
    AssetManager::new(MergedResourceSpace::new("tmp".to_string()))
}

fn path(s: &str) -> GamePath {
    s.parse().unwrap()
}

/// Reads one number (and, if asked, one text) out of any file.
struct FakeFileLoader {
    fail_parse: bool,
    multi_type: bool,
}

impl FileLoader<Data> for FakeFileLoader {
    fn same_entry(&self, _a: u64, _b: u64) -> bool {
        unreachable!()
    }

    fn scan(&self, _bytes: &[u8]) -> Option<Vec<ScannedType>> {
        let mut out = vec![ScannedType { type_tag: NUMBER, extras: vec![0] }];
        if self.multi_type {
            out.push(ScannedType { type_tag: TEXT, extras: vec![0] });
        }
        Some(out)
    }

    fn parse(&self, _bytes: &[u8]) -> Option<Vec<Batch<Data>>> {
        if self.fail_parse {
            return None;
        }
        let number = LoadedEntry { data: Data::Number(7), extra: 0 };
        let mut out = vec![Batch { type_tag: NUMBER, entries: vec![number] }];
        if self.multi_type {
            let text = LoadedEntry { data: Data::Text("hi".to_string()), extra: 0 };
            out.push(Batch { type_tag: TEXT, entries: vec![text] });
        }
        Some(out)
    }

    fn extra_eq(&self, a: u64, b: u64) -> bool {
        a == b
    }
}

/// Gets an asset as the program does: finishes loads, reads files again.
fn fetch<F: Fn(u64) -> Option<Data>>(
    assets: &mut AssetManager<Data>,
    h: Handle,
    reload: F,
) -> Option<Data> {
    if let Access::Reload { extra, .. } = assets.access(h) {
        let again = reload(extra);
        assets.finish_reload(h, again);
    }
    assets.get(h).cloned()
}

fn u32_reloader(extra: u64) -> Option<Data> {
    Some(Data::Number(10 + extra as u32))
}

fn fetch_loaded(
    assets: &mut AssetManager<Data>,
    loader: &FakeFileLoader,
    source: &GamePath,
    h: Handle,
) -> Option<Data> {
    if let Access::Wait = assets.access(h) {
        assets.pump(source, loader.parse(b"x"));
    }
    if let Access::Reload { type_tag, extra, .. } = assets.access(h) {
        let again = reload(loader, Some(b"x"), type_tag, extra);
        assets.finish_reload(h, again);
    }
    assets.get(h).cloned()
}

#[test]
fn tests_register_and_get_roundtrip() {
    let mut assets = manager();
    let handle = assets.register(MESH, Data::Mesh("triangle"));
    assert!(assets.is_valid(handle));
    assert!(matches!(assets.data_source(handle), Some(EntryData::Inline(_))));
    assert_eq!(assets.state(handle), Some(AssetState::Resident));
    assert!(assets.get(handle).is_some());
}

#[test]
fn tests_removed_handle_stays_invalid_across_slot_reuse() {
    let mut assets = manager();
    let a = assets.register(TEXTURE, Data::Texture("white"));
    let removed = assets.remove(a);
    assert!(removed.is_some());
    assert!(!assets.is_valid(a));
    assert!(assets.data_source(a).is_none());

    let b = assets.register(TEXTURE, Data::Texture("checkerboard"));
    assert_ne!(b.key(), a.key());
    assert_eq!(b.index(), a.index());
    assert_ne!(b.generation(), a.generation());
    assert!(!assets.is_valid(a));
    assert!(assets.is_valid(b));
}

#[test]
fn tests_pin_unpin_transitions_state() {
    let mut assets = manager();
    let handle = assets.register(MESH, Data::Mesh("quad"));
    assert!(assets.pin(handle));
    assert_eq!(assets.state(handle), Some(AssetState::Pinned));
    assert!(assets.pinned(handle));
    assert!(assets.pin(handle));
    assert!(assets.unpin(handle));
    assert_eq!(assets.state(handle), Some(AssetState::Pinned));
    assert!(assets.pinned(handle));
    assert!(assets.unpin(handle));
    assert!(!assets.pinned(handle));
    assert_eq!(assets.state(handle), Some(AssetState::Resident));

    let stale = Handle { index: 999, generation: 1 };
    assert!(!assets.pin(stale));
    assert!(!assets.unpin(stale));
}

#[test]
fn tests_iter_of_filters_by_type() {
    let mut assets = manager();
    let tex_a = assets.register(TEXTURE, Data::Texture("white"));
    let tex_b = assets.register(TEXTURE, Data::Texture("checkerboard"));
    let _mesh = assets.register(MESH, Data::Mesh("cube"));

    let tex_handles = assets.iter_of(TEXTURE);
    assert_eq!(tex_handles.len(), 2);
    assert!(tex_handles.contains(&tex_a));
    assert!(tex_handles.contains(&tex_b));
    assert_eq!(assets.iter_of(MESH).len(), 1);
}

#[test]
fn asset_iter_of_filters_by_type() {
    let mut assets = manager();
    let tex_a = assets.register(TEXTURE, Data::Texture("white"));
    let tex_b = assets.register(TEXTURE, Data::Texture("checkerboard"));
    let _mesh = assets.register(MESH, Data::Mesh("cube"));

    let tex_handles = assets.iter_of(TEXTURE);
    assert_eq!(tex_handles.len(), 2);
    assert!(tex_handles.contains(&tex_a));
    assert!(tex_handles.contains(&tex_b));
    assert_eq!(assets.iter_of(MESH).len(), 1);
}

#[test]
fn iter_of_skips_removed_assets() {
    let mut assets = manager();
    let mesh = assets.register(MESH, Data::Mesh("cube"));
    let tex = assets.register(TEXTURE, Data::Texture("white"));
    assets.remove(tex);
    assert!(assets.iter_of(TEXTURE).is_empty());
    assert_eq!(assets.iter_of(MESH), vec![mesh]);
}

#[test]
fn tests_handle_types_are_distinct() {
    let mut assets = manager();
    let mesh = assets.register(MESH, Data::Mesh("cube"));
    let texture = assets.register(TEXTURE, Data::Texture("white"));
    assert_ne!(mesh, texture);
    assert!(!assets.iter_of(TEXTURE).contains(&mesh));
    assert!(!assets.iter_of(MESH).contains(&texture));
}

#[test]
fn tests_file_reloader_freed_when_last_entry_removed() {
    let mut assets = manager();
    let p = path("test:file.glb");
    assets.set_file_reloader(p.clone());
    let a = assets.register_file(p.clone(), NUMBER, 0, Data::Number(7));
    let b = assets.register_file(p.clone(), NUMBER, 1, Data::Number(8));
    assert_eq!(assets.file_refs(&p), 2);

    assert!(assets.remove(a).is_some());
    assert!(assets.has_reloader(&p));

    assert!(assets.remove(b).is_some());
    assert_eq!(assets.file_refs(&p), 0);
    assert!(assets.has_no_files());
    assert!(!assets.has_reloader(&p));
}

#[test]
fn asset_file_reloader_freed_when_last_entry_removed() {
    let mut assets = manager();
    let p = path("test:file.glb");
    assets.set_file_reloader(p.clone());
    let a = assets.register_file(p.clone(), NUMBER, 0, Data::Number(7));
    let b = assets.register_file(p.clone(), NUMBER, 1, Data::Number(8));
    assert_eq!(assets.file_refs(&p), 2);

    assert!(assets.remove(a).is_some());
    assert!(assets.has_reloader(&p));

    assert!(assets.remove(b).is_some());
    assert_eq!(assets.file_refs(&p), 0);
    assert!(assets.has_no_files());
    assert!(!assets.has_reloader(&p));
}

#[test]
fn reloader_of_another_file_is_kept() {
    let mut assets = manager();
    let p = path("test:file.glb");
    let q = path("test:other.glb");
    assets.set_file_reloader(p.clone());
    assets.set_file_reloader(q.clone());
    let a = assets.register_file(p.clone(), NUMBER, 0, Data::Number(7));
    let _b = assets.register_file(q.clone(), NUMBER, 0, Data::Number(8));
    assert!(assets.remove(a).is_some());
    assert!(!assets.has_reloader(&p));
    assert!(assets.has_reloader(&q));
}

#[test]
fn tests_file_entries_index_tracks_and_sync_removes() {
    let mut assets = manager();
    let p = path("test:a//b.glb");
    assert_eq!(p.path(), "a/b.glb");
    let a = assets.register_file(p.clone(), NUMBER, 0, Data::Number(7));
    let b = assets.register_file(p.clone(), NUMBER, 1, Data::Number(8));

    let handles = assets.loaded_handles_of(NUMBER, &p);
    assert_eq!(handles.len(), 2);
    assert!(handles.contains(&a));
    assert!(handles.contains(&b));

    assets.remove(a);
    assert_eq!(assets.loaded_handles_of(NUMBER, &p), vec![b]);
    assets.remove(b);
    assert!(assets.loaded_handles_of(NUMBER, &p).is_empty());
    assert!(assets.has_no_files());
}

#[test]
fn asset_file_entries_index_tracks_and_sync_removes() {
    let mut assets = manager();
    let p = path("test:a//b.glb");
    assert_eq!(p.path(), "a/b.glb");
    let a = assets.register_file(p.clone(), NUMBER, 0, Data::Number(7));
    let b = assets.register_file(p.clone(), NUMBER, 1, Data::Number(8));

    let handles = assets.loaded_handles_of(NUMBER, &p);
    assert_eq!(handles.len(), 2);
    assert!(handles.contains(&a));
    assert!(handles.contains(&b));

    assets.remove(a);
    assert_eq!(assets.loaded_handles_of(NUMBER, &p), vec![b]);
    assets.remove(b);
    assert!(assets.loaded_handles_of(NUMBER, &p).is_empty());
    assert!(assets.has_no_files());
}

#[test]
fn file_index_parts_entries_by_type() {
    let mut assets = manager();
    let p = path("test:a/b.glb");
    let a = assets.register_file(p.clone(), NUMBER, 0, Data::Number(7));
    let t = assets.register_file(p.clone(), TEXT, 0, Data::Text("x".to_string()));
    assert_eq!(assets.loaded_handles_of(NUMBER, &p), vec![a]);
    assert_eq!(assets.loaded_handles_of(TEXT, &p), vec![t]);
    assert!(assets.loaded_handles_of(MESH, &p).is_empty());
    assert!(assets.loaded_handles_of(NUMBER, &path("test:other")).is_empty());
}

#[test]
fn tests_file_entry_holds_own_data_and_source_visible() {
    let mut assets = manager();
    let p = path("test:file.glb");
    let handle = assets.register_file(p.clone(), NUMBER, 1, Data::Number(8));
    assert_eq!(assets.get(handle), Some(&Data::Number(8)));
    assert_eq!(assets.source_of(handle), Some(&p));
    assert!(matches!(
        assets.data_source(handle),
        Some(EntryData::File { source, .. }) if source == &p
    ));
}

#[test]
fn asset_file_entry_holds_own_data_and_source_visible() {
    let mut assets = manager();
    let p = path("test:file.glb");
    let handle = assets.register_file(p.clone(), NUMBER, 1, Data::Number(8));
    assert_eq!(assets.get(handle), Some(&Data::Number(8)));
    assert_eq!(assets.source_of(handle), Some(&p));
    assert!(matches!(
        assets.data_source(handle),
        Some(EntryData::File { source, .. }) if source == &p
    ));
}

#[test]
fn file_entry_keeps_its_locator() {
    let mut assets = manager();
    let inline = assets.register(NUMBER, Data::Number(1));
    assert!(assets.source_of(inline).is_none());
    let handle = assets.register_file(path("test:file.glb"), NUMBER, 5, Data::Number(8));
    assert!(matches!(
        assets.data_source(handle),
        Some(EntryData::File { extra: 5, data: Some(Data::Number(8)), .. })
    ));
}

#[test]
fn tests_file_entry_get_auto_reloads_from_disk() {
    let mut assets = manager();
    let p = path("test:data.bin");
    assets.set_file_reloader(p.clone());

    let handle = assets.register_file(p.clone(), NUMBER, 2, Data::Number(99));
    assert_eq!(fetch(&mut assets, handle, u32_reloader), Some(Data::Number(99)));

    assets.unload_memory(&p);
    assert_eq!(assets.state(handle), Some(AssetState::DiskOnly));
    assert!(assets.get_cached(handle).is_none());
    assert_eq!(fetch(&mut assets, handle, u32_reloader), Some(Data::Number(12)));
    assert_eq!(assets.state(handle), Some(AssetState::Resident));
}

#[test]
fn asset_file_entry_get_auto_reloads_from_disk() {
    let mut assets = manager();
    let p = path("test:data.bin");
    assets.set_file_reloader(p.clone());

    let handle = assets.register_file(p.clone(), NUMBER, 2, Data::Number(99));
    assert_eq!(fetch(&mut assets, handle, u32_reloader), Some(Data::Number(99)));

    assets.unload_memory(&p);
    assert_eq!(assets.state(handle), Some(AssetState::DiskOnly));
    assert!(assets.get_cached(handle).is_none());
    assert_eq!(fetch(&mut assets, handle, u32_reloader), Some(Data::Number(12)));
    assert_eq!(assets.state(handle), Some(AssetState::Resident));
}

#[test]
fn failed_reload_keeps_the_reloader() {
    let mut assets = manager();
    let p = path("test:data.bin");
    let handle = assets.register_file(p.clone(), NUMBER, 2, Data::Number(99));
    assets.unload_memory(&p);
    assert!(matches!(assets.access(handle), Access::Missing));
    assert_eq!(fetch(&mut assets, handle, u32_reloader), None);
    assets.set_file_reloader(p.clone());
    assert!(matches!(assets.access(handle), Access::Reload { type_tag: NUMBER, extra: 2, .. }));
    assert_eq!(fetch(&mut assets, handle, |_| None), None);
    assert_eq!(assets.state(handle), Some(AssetState::DiskOnly));
    assert!(assets.has_reloader(&p));
    assert!(matches!(assets.access(handle), Access::Reload { type_tag: NUMBER, extra: 2, .. }));
    assert_eq!(fetch(&mut assets, handle, u32_reloader), Some(Data::Number(12)));
    assert_eq!(assets.state(handle), Some(AssetState::Resident));
    assert!(assets.remove(handle).is_some());
    assert!(!assets.has_reloader(&p));
}

#[test]
fn tests_gc_evicts_unpinned_file_data() {
    let mut assets = manager();
    let p = path("test:data.bin");
    assets.set_file_reloader(p.clone());
    let pinned = assets.register_file(p.clone(), NUMBER, 0, Data::Number(1));
    let loose = assets.register_file(p.clone(), NUMBER, 1, Data::Number(2));
    assets.pin(pinned);

    assets.gc(&GcPolicy::default());
    assert!(assets.get_cached(pinned).is_some());
    assert!(assets.get_cached(loose).is_none());
    assert_eq!(fetch(&mut assets, loose, u32_reloader), Some(Data::Number(11)));
}

#[test]
fn asset_gc_evicts_unpinned_file_data() {
    let mut assets = manager();
    let p = path("test:data.bin");
    assets.set_file_reloader(p.clone());
    let pinned = assets.register_file(p.clone(), NUMBER, 0, Data::Number(1));
    let loose = assets.register_file(p.clone(), NUMBER, 1, Data::Number(2));
    assets.pin(pinned);

    assets.gc(&GcPolicy::default());
    assert!(assets.get_cached(pinned).is_some());
    assert!(assets.get_cached(loose).is_none());
    assert_eq!(fetch(&mut assets, loose, u32_reloader), Some(Data::Number(11)));
}

#[test]
fn gc_keeps_inline_data_and_is_idempotent() {
    let mut assets = manager();
    let p = path("test:data.bin");
    let inline = assets.register(NUMBER, Data::Number(3));
    let loose = assets.register_file(p.clone(), NUMBER, 1, Data::Number(2));
    assets.pin(inline);
    assets.unpin(inline);
    let hard = GcPolicy { ignore_stale_window: true, ..GcPolicy::default() };
    assets.gc(&hard);
    assert!(assets.get_cached(inline).is_some());
    assert!(assets.get_cached(loose).is_none());
    let again = assets.status();
    assets.gc(&hard);
    assert_eq!(assets.status(), again);
}

#[test]
fn gc_keeps_recently_used_entries() {
    let mut assets = manager();
    let p = path("test:data.bin");
    assets.set_file_reloader(p.clone());
    let old = assets.register_file(p.clone(), NUMBER, 0, Data::Number(1));
    let fresh = assets.register_file(p.clone(), NUMBER, 1, Data::Number(2));
    assets.get(fresh);

    assets.gc(&GcPolicy::default());
    assert!(assets.get_cached(fresh).is_some());
    assert!(assets.get_cached(old).is_none());
}

#[test]
fn load_file_async_parses_off_thread_and_get_waits() {
    let mut assets = manager();
    let p = path("test:async.bin");
    let loader = FakeFileLoader { fail_parse: false, multi_type: false };
    assert_eq!(assets.load_file_async(&loader, p.clone(), Some(b"x")), Ok(true));
    let handles = assets.loaded_handles_of(NUMBER, &p);
    assert_eq!(handles.len(), 1);
    assert_eq!(assets.handle_state(handles[0]), HandleState::Loading);
    assert!(assets.status().in_flight >= 1);

    assert_eq!(fetch_loaded(&mut assets, &loader, &p, handles[0]), Some(Data::Number(7)));
    assert_eq!(assets.handle_state(handles[0]), HandleState::Ready);
    assert_eq!(assets.status().in_flight, 0);
}

#[test]
fn load_file_async_produces_multiple_types() {
    let mut assets = manager();
    let p = path("test:multi.bin");
    let loader = FakeFileLoader { fail_parse: false, multi_type: true };
    assert!(assets.load_file_async(&loader, p.clone(), Some(b"x")).is_ok());
    let numbers = assets.loaded_handles_of(NUMBER, &p);
    let strings = assets.loaded_handles_of(TEXT, &p);
    assert_eq!(numbers.len(), 1);
    assert_eq!(strings.len(), 1);
    assert_eq!(fetch_loaded(&mut assets, &loader, &p, numbers[0]), Some(Data::Number(7)));
    let text = fetch_loaded(&mut assets, &loader, &p, strings[0]);
    assert_eq!(text, Some(Data::Text("hi".to_string())));
}

#[test]
fn load_file_registers_all_types_immediately() {
    let mut assets = manager();
    let p = path("test:sync.bin");
    let loader = FakeFileLoader { fail_parse: false, multi_type: true };
    assert!(assets.load_file(&loader, p.clone(), Some(b"x")).is_ok());
    let numbers = assets.loaded_handles_of(NUMBER, &p);
    let strings = assets.loaded_handles_of(TEXT, &p);
    assert_eq!(numbers.len(), 1);
    assert_eq!(strings.len(), 1);
    assert_eq!(assets.handle_state(numbers[0]), HandleState::Ready);
    assert_eq!(assets.get(numbers[0]), Some(&Data::Number(7)));
    assert_eq!(assets.get(strings[0]), Some(&Data::Text("hi".to_string())));
    assert_eq!(assets.status().in_flight, 0);

    assets.unload_memory(&p);
    assert_eq!(assets.handle_state(numbers[0]), HandleState::DiskOnly);
    assert_eq!(fetch_loaded(&mut assets, &loader, &p, numbers[0]), Some(Data::Number(7)));
}

#[test]
fn load_file_of_a_known_file_neither_reads_nor_parses() {
    let mut assets = manager();
    let good = FakeFileLoader { fail_parse: false, multi_type: true };
    let bad = FakeFileLoader { fail_parse: true, multi_type: true };
    let p = path("test:a.bin");
    assert_eq!(assets.load_file(&good, p.clone(), Some(b"x")), Ok(()));
    let numbers = assets.loaded_handles_of(NUMBER, &p);
    let texts = assets.loaded_handles_of(TEXT, &p);
    let version = assets.version();
    assert_eq!(assets.load_file(&bad, p.clone(), Some(b"x")), Ok(()));
    assert_eq!(assets.load_file(&good, p.clone(), None), Ok(()));
    assert_eq!(assets.loaded_handles_of(NUMBER, &p), numbers);
    assert_eq!(assets.loaded_handles_of(TEXT, &p), texts);
    assert_eq!(assets.len(), 2);
    assert_eq!(assets.version(), version);
}

#[test]
fn load_file_async_dedupes_same_path() {
    let mut assets = manager();
    let p = path("test:dedup.bin");
    let loader = FakeFileLoader { fail_parse: false, multi_type: false };
    assert_eq!(assets.load_file_async(&loader, p.clone(), Some(b"x")), Ok(true));
    assert_eq!(assets.load_file_async(&loader, p.clone(), Some(b"x")), Ok(false));
    let handles = assets.loaded_handles_of(NUMBER, &p);
    assert_eq!(handles.len(), 1);
    assert_eq!(fetch_loaded(&mut assets, &loader, &p, handles[0]), Some(Data::Number(7)));
    assert_eq!(assets.load_file_async(&loader, p.clone(), Some(b"x")), Ok(false));
    assert_eq!(assets.loaded_handles_of(NUMBER, &p).len(), 1);
    assert_eq!(assets.iter_of(NUMBER).len(), 1);
}

#[test]
fn load_file_async_failure_removes_placeholders() {
    let mut assets = manager();
    let p = path("test:fail.bin");
    let loader = FakeFileLoader { fail_parse: true, multi_type: false };
    assert_eq!(assets.load_file_async(&loader, p.clone(), Some(b"x")), Ok(true));
    let handles = assets.loaded_handles_of(NUMBER, &p);
    assert_eq!(handles.len(), 1);
    assert!(assets.status().in_flight >= 1);

    assert!(fetch_loaded(&mut assets, &loader, &p, handles[0]).is_none());
    assert_eq!(assets.status().in_flight, 0);
    assert!(assets.loaded_handles_of(NUMBER, &p).is_empty());
    assert_eq!(assets.handle_state(handles[0]), HandleState::Invalid);
    assert!(assets.has_no_files());
}

#[test]
fn load_file_async_data_reloads_after_eviction() {
    let mut assets = manager();
    let p = path("test:reload.bin");
    let loader = FakeFileLoader { fail_parse: false, multi_type: false };
    assert!(assets.load_file_async(&loader, p.clone(), Some(b"x")).is_ok());
    let handle = assets.loaded_handles_of(NUMBER, &p)[0];
    assert_eq!(fetch_loaded(&mut assets, &loader, &p, handle), Some(Data::Number(7)));

    assets.unload_memory(&p);
    assert_eq!(assets.handle_state(handle), HandleState::DiskOnly);
    assert_eq!(fetch_loaded(&mut assets, &loader, &p, handle), Some(Data::Number(7)));
    assert_eq!(assets.handle_state(handle), HandleState::Ready);
}

#[test]
fn handle_state_and_status_queries() {
    let mut assets = manager();
    let h = assets.register(NUMBER, Data::Number(5));
    assert_eq!(assets.handle_state(h), HandleState::Ready);

    let p = path("test:data.bin");
    assets.set_file_reloader(p.clone());
    let f = assets.register_file(p.clone(), NUMBER, 0, Data::Number(1));
    assets.unload_memory(&p);
    assert_eq!(assets.handle_state(f), HandleState::DiskOnly);

    let status = assets.status();
    assert_eq!(status.entries, 2);
    assert_eq!(status.ready, 1);
    assert_eq!(status.disk_only, 1);
    assert_eq!(status.in_flight, 0);

    assets.remove(h);
    assert_eq!(assets.handle_state(h), HandleState::Invalid);
}

#[test]
fn files_that_cannot_be_loaded_are_reported() {
    let mut assets = manager();
    let p = path("test:x");
    let good = FakeFileLoader { fail_parse: false, multi_type: false };
    let bad = FakeFileLoader { fail_parse: true, multi_type: false };
    assert_eq!(assets.load_file(&good, p.clone(), None), Err(LoadError::Unreadable));
    assert_eq!(assets.load_file(&bad, p.clone(), Some(b"x")), Err(LoadError::Unparsable));
    assert_eq!(assets.load_file_async(&good, p.clone(), None), Err(LoadError::Unreadable));
    assert!(assets.is_empty());
    assert_eq!(
        assets.register_parsed_file(p.clone(), Vec::new()),
        Err(LoadError::Empty)
    );
    assert_eq!(reload(&good, Some(b"x"), NUMBER, 0), Some(Data::Number(7)));
    assert_eq!(reload(&good, Some(b"x"), NUMBER, 1), None);
    assert_eq!(reload(&good, Some(b"x"), TEXT, 0), None);
    assert_eq!(reload(&bad, Some(b"x"), NUMBER, 0), None);
}

#[test]
fn the_policy_keeps_pinned_and_fresh_entries() {
    let policy = GcPolicy { stale_window: 10, evict_pinned: false, ignore_stale_window: false };
    assert!(policy.should_keep(GcInfo { last_used: 0, pins: 1 }, 100));
    assert!(policy.should_keep(GcInfo { last_used: 90, pins: 0 }, 100));
    assert!(!policy.should_keep(GcInfo { last_used: 80, pins: 0 }, 100));
    let hard = GcPolicy { ignore_stale_window: true, ..policy };
    assert!(!hard.should_keep(GcInfo { last_used: 100, pins: 0 }, 100));
    assert!(hard.should_keep(GcInfo { last_used: 0, pins: 1 }, 100));
    let harder = GcPolicy { evict_pinned: true, ..hard };
    assert!(!harder.should_keep(GcInfo { last_used: 100, pins: 1 }, 100));
}

#[test]
fn a_new_scene_takes_over_the_pins() {
    let mut assets = manager();
    let a = assets.register(MESH, Data::Mesh("a"));
    let b = assets.register(MESH, Data::Mesh("b"));
    let c = assets.register(MESH, Data::Mesh("c"));
    let mut pins = ScenePins::new();
    pins.replace(&mut assets, vec![a, b]);
    assert!(assets.pinned(a) && assets.pinned(b) && !assets.pinned(c));
    pins.replace(&mut assets, vec![b, c]);
    assert!(!assets.pinned(a) && assets.pinned(b) && assets.pinned(c));
    pins.replace(&mut assets, Vec::new());
    assert!(!assets.pinned(b) && !assets.pinned(c));
    assert_eq!(assets.len(), 3);
    assert_eq!(assets.space().roots(), ["tmp".to_string()]);
    let v = assets.version();
    assets.remove(a);
    assert!(assets.version() > v);
}

#[test]
fn the_use_clock_can_follow_the_time() {
    let mut assets = manager();
    let p = path("test:data.bin");
    let old = assets.register_file(p.clone(), NUMBER, 0, Data::Number(1));
    assets.advance_clock(1_000);
    let fresh = assets.register_file(p.clone(), NUMBER, 1, Data::Number(2));
    assets.advance_clock(500);
    assets.advance_clock(1_100);
    assets.gc(&GcPolicy { stale_window: 200, ..GcPolicy::default() });
    assert!(assets.get_cached(old).is_none());
    assert!(assets.get_cached(fresh).is_some());
}

#[test]
fn length_and_version_count_what_comes_and_goes() {
    let mut assets = manager();
    assert_eq!((assets.len(), assets.version()), (0, 0));
    let loader = FakeFileLoader { fail_parse: false, multi_type: true };
    let p = path("test:a.bin");
    let q = path("test:b.bin");
    let inline = assets.register(NUMBER, Data::Number(1));
    assert_eq!(assets.load_file(&loader, p.clone(), Some(b"x")), Ok(()));
    assert_eq!((assets.len(), assets.version()), (3, 3));
    assert!(assets.pin(inline) && assets.unpin(inline));
    assets.get(inline);
    assets.unload_memory(&p);
    assets.gc(&GcPolicy::default());
    assert_eq!((assets.len(), assets.version()), (3, 3));
    assert_eq!(assets.load_file_async(&loader, q.clone(), Some(b"x")), Ok(true));
    assert_eq!((assets.len(), assets.version()), (5, 5));
    assets.pump(&q, None);
    assert_eq!((assets.len(), assets.version()), (3, 7));
    assert!(assets.remove(inline).is_some() && assets.remove(inline).is_none());
    assert_eq!((assets.len(), assets.version()), (2, 8));
    assert_eq!(assets.iter_of(NUMBER).len() + assets.iter_of(TEXT).len(), 2);
}
