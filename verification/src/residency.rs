//! Residency of assets: from files into memory, from memory onto the GPU, and back.
//!
//! The functions work on the registry of one type of assets and on the memory layer that all types
//! share.
use crate::game_path::{Address, GamePath};
use crate::handle::Handle;
use crate::memory::MemoryLayer;
use crate::registry::{
    registered, AssetRegistry, AssetState, DataSource, RegistryEntry, RegistryModel,
};
use crate::resource::MergedResourceSpace;
use vstd::prelude::*;

verus! {

/// Locators of assets in a file, in their order.
pub type Locators = Seq<u64>;

/// Reads files that hold assets of one type.
pub trait AssetLoader<T> {
    /// What parsing a file gives, for all its assets together.
    type Parsed;

    /// Locators of all assets of the file.
    spec fn listed(&self, parsed: Self::Parsed) -> Locators;

    /// The asset that a locator finds.
    spec fn found(&self, parsed: Self::Parsed, extra: u64) -> Option<T>;

    /// What can come of reading a file.
    spec fn may_load(
        &self,
        space: &MergedResourceSpace,
        path: &GamePath,
        r: Option<Self::Parsed>,
    ) -> bool;

    /// Reads and parses a file.
    fn load(&self, space: &MergedResourceSpace, path: &GamePath) -> (r: Option<Self::Parsed>)
        ensures
            self.may_load(space, path, r),
    ;

    /// Locators of all assets of the file.
    fn entries(&self, parsed: &Self::Parsed) -> (list: Vec<u64>)
        ensures
            list@ == self.listed(*parsed),
    ;

    /// The asset that a locator finds.
    fn entry<'a>(&self, parsed: &'a Self::Parsed, extra: u64) -> (r: Option<&'a T>)
        ensures
            match r {
                Some(t) => self.found(*parsed, extra) == Some(*t),
                None => self.found(*parsed, extra) is None,
            },
    ;
}

/// Brings the data of an asset onto the GPU.
pub trait GpuUploader<T, G> {
    fn upload(&self, data: &T) -> G;
}

/// For assets that never go onto the GPU.
#[derive(Debug, Default)]
pub struct NoGpuUploader;

impl<T> GpuUploader<T, ()> for NoGpuUploader {
    fn upload(&self, data: &T) -> (g: ()) {
    }
}

/// For assets that only the program makes: no file can be loaded.
#[derive(Debug, Default)]
pub struct NoLoader;

impl<T> AssetLoader<T> for NoLoader {
    type Parsed = ();

    open spec fn listed(&self, parsed: ()) -> Locators {
        seq![]
    }

    open spec fn found(&self, parsed: (), extra: u64) -> Option<T> {
        None
    }

    open spec fn may_load(&self, space: &MergedResourceSpace, path: &GamePath, r: Option<()>) -> bool {
        r is None
    }

    fn load(&self, space: &MergedResourceSpace, path: &GamePath) -> (r: Option<()>) {
        None
    }

    fn entries(&self, parsed: &()) -> (list: Vec<u64>) {
        Vec::new()
    }

    fn entry<'a>(&self, parsed: &'a (), extra: u64) -> (r: Option<&'a T>) {
        None
    }
}

/// The data in memory of an asset: its own, or the part of its file.
pub open spec fn data_in_memory<T, L: AssetLoader<T>>(
    loader: &L,
    memory: Map<Address, L::Parsed>,
    data: DataSource<T>,
) -> Option<T> {
    match data {
        DataSource::Inline(d) => Some(d),
        DataSource::File { source, extra } => if memory.contains_key(source@) {
            loader.found(memory[source@], extra)
        } else {
            None
        },
    }
}

/// The data of an asset, if it is in memory.
pub fn get<'a, T, G, L: AssetLoader<T>>(
    memory: &'a MemoryLayer<L::Parsed>,
    registry: &'a AssetRegistry<T, G>,
    loader: &L,
    handle: Handle,
) -> (r: Option<&'a T>)
    ensures
        match r {
            Some(t) => registry@.live.contains_key(handle) && data_in_memory(
                loader,
                memory@,
                registry@.live[handle].data,
            ) == Some(*t),
            None => !registry@.live.contains_key(handle) || data_in_memory(
                loader,
                memory@,
                registry@.live[handle].data,
            ) is None,
        },
{
    match registry.data_source(handle) {
        None => None,
        Some(DataSource::Inline(data)) => Some(data),
        Some(DataSource::File { source, extra }) => match memory.get(source) {
            None => None,
            Some(parsed) => loader.entry(parsed, *extra),
        },
    }
}

/// A load of the file gave that outcome.
pub open spec fn loads<T, L: AssetLoader<T>>(
    loader: &L,
    space: &MergedResourceSpace,
    source: Address,
    outcome: Option<L::Parsed>,
) -> bool {
    exists|path: GamePath|
        path@ == source && #[trigger] loader.may_load(space, &path, outcome)
}

/// What becomes of memory layer and registry when an asset is brought into memory: nothing where
/// its data is its own; else its file is parsed unless it is in memory, and the asset becomes
/// resident, unless the file cannot be loaded.
pub open spec fn brought_in<T, G, L: AssetLoader<T>>(
    loader: &L,
    space: &MergedResourceSpace,
    m0: Map<Address, L::Parsed>,
    r0: RegistryModel<T, G>,
    m1: Map<Address, L::Parsed>,
    r1: RegistryModel<T, G>,
    h: Handle,
    done: bool,
) -> bool {
    if !r0.live.contains_key(h) {
        !done && m1 == m0 && r1 == r0
    } else {
        match r0.live[h].data {
            DataSource::Inline(_) => done && m1 == m0 && r1 == r0,
            DataSource::File { source, .. } => if m0.contains_key(source@) {
                done && m1 == m0 && r1 == r0.with_state(h, AssetState::Resident)
            } else {
                exists|outcome: Option<L::Parsed>| #[trigger]
                    loads(loader, space, source@, outcome) && match outcome {
                        None => !done && m1 == m0 && r1 == r0,
                        Some(parsed) => done && m1 == m0.insert(source@, parsed) && r1
                            == r0.with_state(h, AssetState::Resident),
                    }
            },
        }
    }
}

/// Brings the data of an asset into memory; tells whether it is there.
pub fn ensure_loaded<T, G, L: AssetLoader<T>>(
    memory: &mut MemoryLayer<L::Parsed>,
    registry: &mut AssetRegistry<T, G>,
    loader: &L,
    space: &MergedResourceSpace,
    handle: Handle,
) -> (done: bool)
    requires
        old(registry).wf(),
    ensures
        final(registry).wf(),
        brought_in(
            loader,
            space,
            old(memory)@,
            old(registry)@,
            final(memory)@,
            final(registry)@,
            handle,
            done,
        ),
{
    let source = match registry.data_source(handle) {
        None => {
            return false;
        },
        Some(DataSource::Inline(_)) => {
            return true;
        },
        Some(DataSource::File { source, extra: _ }) => source.clone(),
    };
    if memory.get(&source).is_none() {
        let outcome = loader.load(space, &source);
        proof {
            assert(loads(loader, space, source@, outcome));
        }
        match outcome {
            None => {
                return false;
            },
            Some(parsed) => {
                memory.insert(source, parsed);
            },
        }
    }
    registry.set_state(handle, AssetState::Resident);
    true
}

/// The asset comes out of the file.
pub open spec fn from_file<T>(data: DataSource<T>, address: Address) -> bool {
    match data {
        DataSource::Inline(_) => false,
        DataSource::File { source, .. } => source@ == address,
    }
}

/// The asset once its file has left memory.
pub open spec fn dropped<T, G>(e: RegistryEntry<T, G>, source: Address) -> RegistryEntry<T, G> {
    if from_file(e.data, source) {
        RegistryEntry { state: AssetState::DiskOnly, gpu: None, ..e }
    } else {
        e
    }
}

/// The registry once a file has left memory, as far as the assets in `seen` go.
pub open spec fn dropped_all<T, G>(
    r: RegistryModel<T, G>,
    source: Address,
    seen: Set<Handle>,
) -> RegistryModel<T, G> {
    RegistryModel {
        live: Map::new(
            |h: Handle| r.live.contains_key(h),
            |h: Handle|
                if seen.contains(h) {
                    dropped(r.live[h], source)
                } else {
                    r.live[h]
                },
        ),
        ..r
    }
}

/// Drops a file from memory. Its assets are only on disk then, and off the GPU; their handles stay
/// valid.
pub fn unload_memory<T, G, P>(
    memory: &mut MemoryLayer<P>,
    registry: &mut AssetRegistry<T, G>,
    source: &GamePath,
)
    requires
        old(registry).wf(),
    ensures
        final(registry).wf(),
        final(memory)@ == old(memory)@.remove(source@),
        final(registry)@ == dropped_all(old(registry)@, source@, old(registry)@.live.dom()),
{
    memory.remove(source);
    let ghost before = registry@;
    let handles = registry.iter();
    let mut i: usize = 0;
    proof {
        assert(handles@.take(0) =~= Seq::<Handle>::empty());
        assert(registry@.live =~= dropped_all(before, source@, handles@.take(0).to_set()).live);
    }
    while i < handles.len()
        invariant
            registry.wf(),
            i <= handles@.len(),
            forall|h: Handle| #[trigger] handles@.contains(h) <==> before.live.contains_key(h),
            forall|a: int, b: int|
                0 <= a < b < handles@.len() ==> (#[trigger] handles@[a]).index < (
                #[trigger] handles@[b]).index,
            registry@ == dropped_all(before, source@, handles@.take(i as int).to_set()),
        decreases handles@.len() - i,
    {
        let h = handles[i];
        proof {
            assert(handles@.contains(h));
            assert(!handles@.take(i as int).contains(h)) by {
                if handles@.take(i as int).contains(h) {
                    let t = handles@.take(i as int);
                    let k = choose|k: int| 0 <= k < t.len() && t[k] == h;
                    assert(handles@[k].index < handles@[i as int].index);
                }
            }
        }
        let hit = match registry.data_source(h) {
            Some(DataSource::File { source: s, extra: _ }) => *s == *source,
            _ => false,
        };
        if hit {
            registry.set_gpu(h, None);
            registry.set_state(h, AssetState::DiskOnly);
        }
        proof {
            let t = handles@.take(i as int);
            let t2 = handles@.take(i as int + 1);
            crate::lists::lemma_take_next(handles@, i as int);
            let next = dropped_all(before, source@, t2.to_set());
            assert forall|k: Handle| next.live.contains_key(k) implies registry@.live[k]
                == next.live[k] by {
                assert(t2.contains(k) <==> t.contains(k) || k == h);
            }
            assert(registry@.live =~= next.live);
            assert(registry@ =~= next);
        }
        i += 1;
    }
    proof {
        assert(handles@.take(i as int) =~= handles@);
        let all = dropped_all(before, source@, before.live.dom());
        assert(registry@.live =~= all.live);
    }
}

/// The GPU data of an asset that is uploaded if need be.
pub open spec fn uploaded<T, G, U: GpuUploader<T, G>>(
    uploader: &U,
    data: Option<T>,
    g0: Option<G>,
    g1: Option<G>,
) -> bool {
    match (g0, data) {
        (None, Some(d)) => g1 is Some && call_ensures(U::upload, (uploader, &d), g1->0),
        _ => g1 == g0,
    }
}

/// What synchronising makes of an asset: pinned assets are uploaded where their data is in
/// memory, others leave the GPU.
pub open spec fn synchronised<T, G, L: AssetLoader<T>, U: GpuUploader<T, G>>(
    loader: &L,
    uploader: &U,
    memory: Map<Address, L::Parsed>,
    e0: RegistryEntry<T, G>,
    e1: RegistryEntry<T, G>,
) -> bool {
    &&& e1.state == e0.state
    &&& e1.data == e0.data
    &&& match e0.state {
        AssetState::Pinned => uploaded(
            uploader,
            data_in_memory(loader, memory, e0.data),
            e0.gpu,
            e1.gpu,
        ),
        AssetState::Resident => e1.gpu is None,
        AssetState::DiskOnly => e1.gpu is None,
        AssetState::Unloaded => e1.gpu == e0.gpu,
    }
}

/// Synchronising made `r1` of `r0`, as far as the assets in `seen` go.
pub open spec fn synchronised_all<T, G, L: AssetLoader<T>, U: GpuUploader<T, G>>(
    loader: &L,
    uploader: &U,
    memory: Map<Address, L::Parsed>,
    r0: RegistryModel<T, G>,
    r1: RegistryModel<T, G>,
    seen: Set<Handle>,
) -> bool {
    &&& r1.live.dom() == r0.live.dom()
    &&& forall|h: Handle| #[trigger]
        r0.live.contains_key(h) ==> if seen.contains(h) {
            synchronised(loader, uploader, memory, r0.live[h], r1.live[h])
        } else {
            r1.live[h] == r0.live[h]
        }
    &&& r1.generations == r0.generations
    &&& r1.free == r0.free
    &&& r1.version == r0.version
}

/// The files of pinned assets that have to be uploaded are in memory.
pub open spec fn pinned_in_memory<T, G, P>(
    memory: Map<Address, P>,
    r: RegistryModel<T, G>,
) -> bool {
    forall|h: Handle| #[trigger]
        r.live.contains_key(h) ==> in_memory_if_pinned(memory, r.live[h])
}

/// If the asset is pinned and has to be uploaded, its file is in memory.
pub open spec fn in_memory_if_pinned<T, G, P>(
    memory: Map<Address, P>,
    e: RegistryEntry<T, G>,
) -> bool {
    e.state == AssetState::Pinned && e.gpu is None ==> match e.data {
        DataSource::Inline(_) => true,
        DataSource::File { source, .. } => memory.contains_key(source@),
    }
}

/// Brings pinned assets onto the GPU and takes the others off it. Without an uploader nothing
/// happens.
pub fn sync_gpu<T, G, L: AssetLoader<T>, U: GpuUploader<T, G>>(
    memory: &MemoryLayer<L::Parsed>,
    registry: &mut AssetRegistry<T, G>,
    loader: &L,
    uploader: Option<&U>,
)
    requires
        old(registry).wf(),
        pinned_in_memory(memory@, old(registry)@),
    ensures
        final(registry).wf(),
        match uploader {
            None => final(registry)@ == old(registry)@,
            Some(u) => synchronised_all(
                loader,
                u,
                memory@,
                old(registry)@,
                final(registry)@,
                old(registry)@.live.dom(),
            ),
        },
{
    let u = match uploader {
        None => {
            return;
        },
        Some(u) => u,
    };
    let ghost before = registry@;
    let handles = registry.iter();
    let mut i: usize = 0;
    proof {
        assert(handles@.take(0) =~= Seq::<Handle>::empty());
    }
    while i < handles.len()
        invariant
            registry.wf(),
            i <= handles@.len(),
            forall|h: Handle| #[trigger] handles@.contains(h) <==> before.live.contains_key(h),
            forall|a: int, b: int|
                0 <= a < b < handles@.len() ==> (#[trigger] handles@[a]).index < (
                #[trigger] handles@[b]).index,
            synchronised_all(
                loader,
                u,
                memory@,
                before,
                registry@,
                handles@.take(i as int).to_set(),
            ),
        decreases handles@.len() - i,
    {
        let h = handles[i];
        let ghost now = registry@;
        proof {
            assert(handles@.contains(h));
            assert(!handles@.take(i as int).contains(h)) by {
                if handles@.take(i as int).contains(h) {
                    let t = handles@.take(i as int);
                    let k = choose|k: int| 0 <= k < t.len() && t[k] == h;
                    assert(handles@[k].index < handles@[i as int].index);
                }
            }
            assert(before.live.contains_key(h));
            assert(now.live[h] == before.live[h]);
        }
        match registry.state(h) {
            Some(AssetState::Pinned) => {
                if registry.gpu(h).is_none() {
                    let g = match get(memory, registry, loader, h) {
                        Some(data) => Some(u.upload(data)),
                        None => None,
                    };
                    if g.is_some() {
                        registry.set_gpu(h, g);
                    }
                }
            },
            Some(AssetState::Resident) => {
                registry.set_gpu(h, None);
            },
            Some(AssetState::DiskOnly) => {
                registry.set_gpu(h, None);
            },
            _ => {},
        }
        proof {
            let t = handles@.take(i as int);
            let t2 = handles@.take(i as int + 1);
            crate::lists::lemma_take_next(handles@, i as int);
            assert(registry@.live.dom() =~= before.live.dom());
            assert forall|k: Handle| #[trigger] before.live.contains_key(k) implies (
            if t2.to_set().contains(k) {
                synchronised(loader, u, memory@, before.live[k], registry@.live[k])
            } else {
                registry@.live[k] == before.live[k]
            }) by {
                assert(t2.contains(k) <==> t.contains(k) || k == h);
                assert(t.to_set().contains(k) <==> t.contains(k));
            }
        }
        i += 1;
    }
    proof {
        assert(handles@.take(i as int) =~= handles@);
        assert forall|k: Handle| #[trigger] before.live.contains_key(k) implies synchronised(
            loader,
            u,
            memory@,
            before.live[k],
            registry@.live[k],
        ) by {
            assert(handles@.contains(k));
            assert(handles@.to_set().contains(k));
        }
    }
}

/// Whether the files of pinned assets that have to be uploaded are in memory.
pub fn has_pinned_in_memory<T, G, P>(
    memory: &MemoryLayer<P>,
    registry: &AssetRegistry<T, G>,
) -> (b: bool)
    requires
        registry.wf(),
    ensures
        b == pinned_in_memory(memory@, registry@),
{
    let handles = registry.iter();
    let mut i: usize = 0;
    while i < handles.len()
        invariant
            i <= handles@.len(),
            forall|h: Handle| #[trigger] handles@.contains(h) <==> registry@.live.contains_key(h),
            forall|j: int|
                0 <= j < i ==> in_memory_if_pinned(
                    memory@,
                    registry@.live[#[trigger] handles@[j]],
                ),
        decreases handles@.len() - i,
    {
        let h = handles[i];
        proof {
            assert(handles@.contains(h));
        }
        if let Some(AssetState::Pinned) = registry.state(h) {
            if registry.gpu(h).is_none() {
                if let Some(DataSource::File { source, extra: _ }) = registry.data_source(h) {
                    if memory.get(source).is_none() {
                        return false;
                    }
                }
            }
        }
        i += 1;
    }
    proof {
        assert forall|h: Handle| #[trigger] registry@.live.contains_key(h)
            implies in_memory_if_pinned(memory@, registry@.live[h]) by {
            assert(handles@.contains(h));
            let j = choose|j: int| 0 <= j < handles@.len() && handles@[j] == h;
            assert(in_memory_if_pinned(memory@, registry@.live[handles@[j]]));
        }
    }
    true
}

/// What becomes of the registry when the data of an asset in memory is uploaded if need be and
/// the asset pinned.
pub open spec fn pinned_with<T, G, U: GpuUploader<T, G>>(
    uploader: &U,
    data: Option<T>,
    r0: RegistryModel<T, G>,
    r1: RegistryModel<T, G>,
    h: Handle,
) -> bool {
    exists|g: Option<G>| #[trigger]
        uploaded(uploader, data, r0.live[h].gpu, g) && r1 == r0.with_gpu(h, g).with_state(
            h,
            AssetState::Pinned,
        )
}

/// Brings an asset onto the GPU and pins it there: into memory first, then up. Gives its data on
/// the GPU; `None` where it cannot be had or without an uploader.
pub fn ensure_gpu<'a, T, G, L: AssetLoader<T>, U: GpuUploader<T, G>>(
    memory: &mut MemoryLayer<L::Parsed>,
    registry: &'a mut AssetRegistry<T, G>,
    loader: &L,
    uploader: Option<&U>,
    space: &MergedResourceSpace,
    handle: Handle,
) -> (r: Option<&'a G>)
    requires
        old(registry).wf(),
    ensures
        final(registry).wf(),
        gpu_ensured(
            loader,
            uploader,
            space,
            old(memory)@,
            old(registry)@,
            final(memory)@,
            final(registry)@,
            handle,
            r is Some,
        ),
        r matches Some(g) ==> final(registry)@.live[handle].gpu == Some(*g),
{
    if !ensure_loaded(memory, registry, loader, space, handle) {
        return None;
    }
    let u = match uploader {
        None => {
            return None;
        },
        Some(u) => u,
    };
    let ghost r1 = registry@;
    let ghost data = data_in_memory(loader, memory@, r1.live[handle].data);
    proof {
        assert(r1.live.contains_key(handle));
    }
    if registry.gpu(handle).is_none() {
        let g = match get(memory, registry, loader, handle) {
            None => {
                return None;
            },
            Some(d) => u.upload(d),
        };
        registry.set_gpu(handle, Some(g));
        registry.pin(handle);
        proof {
            assert(uploaded(u, data, r1.live[handle].gpu, Some(g)));
            assert(registry@ =~= r1.with_gpu(handle, Some(g)).with_state(
                handle,
                AssetState::Pinned,
            ));
        }
    } else {
        registry.pin(handle);
        proof {
            assert(uploaded(u, data, r1.live[handle].gpu, r1.live[handle].gpu));
            assert(registry@.live =~= r1.with_gpu(handle, r1.live[handle].gpu).with_state(
                handle,
                AssetState::Pinned,
            ).live);
        }
    }
    proof {
        assert(pinned_with(u, data, r1, registry@, handle));
    }
    registry.gpu(handle)
}

/// What becomes of memory layer and registry when an asset is brought onto the GPU.
pub open spec fn gpu_ensured<T, G, L: AssetLoader<T>, U: GpuUploader<T, G>>(
    loader: &L,
    uploader: Option<&U>,
    space: &MergedResourceSpace,
    m0: Map<Address, L::Parsed>,
    r0: RegistryModel<T, G>,
    m1: Map<Address, L::Parsed>,
    r1: RegistryModel<T, G>,
    h: Handle,
    done: bool,
) -> bool {
    exists|mid: RegistryModel<T, G>, loaded: bool| #[trigger]
        brought_in(loader, space, m0, r0, m1, mid, h, loaded) && match uploader {
            None => !done && r1 == mid,
            Some(u) => {
                let data = data_in_memory(loader, m1, mid.live[h].data);
                if !loaded || (mid.live[h].gpu is None && data is None) {
                    !done && r1 == mid
                } else {
                    done && pinned_with(u, data, mid, r1, h)
                }
            },
        }
}

/// What becomes of memory layer and registry when an asset is pinned.
pub open spec fn asset_pinned<T, G, L: AssetLoader<T>, U: GpuUploader<T, G>>(
    loader: &L,
    uploader: Option<&U>,
    space: &MergedResourceSpace,
    m0: Map<Address, L::Parsed>,
    r0: RegistryModel<T, G>,
    m1: Map<Address, L::Parsed>,
    r1: RegistryModel<T, G>,
    h: Handle,
    done: bool,
) -> bool {
    exists|mid: RegistryModel<T, G>| #[trigger]
        brought_in(loader, space, m0, r0, m1, mid, h, done) && if !done {
            r1 == mid
        } else {
            match uploader {
                None => r1 == mid.with_state(h, AssetState::Pinned),
                Some(u) => pinned_with(
                    u,
                    data_in_memory(loader, m1, mid.live[h].data),
                    mid,
                    r1,
                    h,
                ),
            }
        }
}

/// Pins an asset: brings it into memory and, with an uploader, onto the GPU. Tells whether it was
/// pinned.
pub fn pin<T, G, L: AssetLoader<T>, U: GpuUploader<T, G>>(
    memory: &mut MemoryLayer<L::Parsed>,
    registry: &mut AssetRegistry<T, G>,
    loader: &L,
    uploader: Option<&U>,
    space: &MergedResourceSpace,
    handle: Handle,
) -> (done: bool)
    requires
        old(registry).wf(),
    ensures
        final(registry).wf(),
        asset_pinned(
            loader,
            uploader,
            space,
            old(memory)@,
            old(registry)@,
            final(memory)@,
            final(registry)@,
            handle,
            done,
        ),
{
    if !ensure_loaded(memory, registry, loader, space, handle) {
        return false;
    }
    let ghost r1 = registry@;
    let ghost data = data_in_memory(loader, memory@, r1.live[handle].data);
    proof {
        assert(r1.live.contains_key(handle));
    }
    if let Some(u) = uploader {
        if registry.gpu(handle).is_none() {
            let g = match get(memory, registry, loader, handle) {
                None => None,
                Some(d) => Some(u.upload(d)),
            };
            proof {
                assert(uploaded(u, data, r1.live[handle].gpu, g));
            }
            registry.set_gpu(handle, g);
        } else {
            proof {
                assert(uploaded(u, data, r1.live[handle].gpu, r1.live[handle].gpu));
                assert(r1.with_gpu(handle, r1.live[handle].gpu).live =~= r1.live);
            }
        }
    }
    registry.pin(handle);
    true
}

/// Registering an asset out of a file.
pub open spec fn file_registered<T, G>(
    before: RegistryModel<T, G>,
    after: RegistryModel<T, G>,
    h: Handle,
    source: Address,
    extra: u64,
) -> bool {
    exists|path: GamePath|
        path@ == source && #[trigger] registered(
            before,
            after,
            h,
            (DataSource::File { source: path, extra }),
        )
}

/// Registering assets out of a file one after another made the last registry of the first.
pub open spec fn files_registered<T, G>(
    steps: Seq<RegistryModel<T, G>>,
    handles: Seq<Handle>,
    source: Address,
    extras: Seq<u64>,
) -> bool {
    &&& steps.len() == extras.len() + 1
    &&& handles.len() == extras.len()
    &&& forall|i: int|
        0 <= i < extras.len() ==> file_registered(
            steps[i],
            steps[i + 1],
            #[trigger] handles[i],
            source,
            extras[i],
        )
}

/// The registry `r1` came out of `r0` by registering assets of a file one after another.
pub open spec fn all_registered<T, G>(
    r0: RegistryModel<T, G>,
    r1: RegistryModel<T, G>,
    handles: Seq<Handle>,
    source: Address,
    extras: Seq<u64>,
) -> bool {
    exists|steps: Seq<RegistryModel<T, G>>| #[trigger]
        files_registered(steps, handles, source, extras) && steps[0] == r0 && steps.last() == r1
}

/// Registers assets of a file under the given locators, in order.
pub fn register_entries<T, G>(
    registry: &mut AssetRegistry<T, G>,
    path: &GamePath,
    extras: &Vec<u64>,
) -> (handles: Vec<Handle>)
    requires
        old(registry).wf(),
        old(registry)@.roomy(extras@.len() as int),
    ensures
        final(registry).wf(),
        all_registered(old(registry)@, final(registry)@, handles@, path@, extras@),
{
    let mut handles: Vec<Handle> = Vec::new();
    let ghost mut steps: Seq<RegistryModel<T, G>> = seq![registry@];
    let mut i: usize = 0;
    while i < extras.len()
        invariant
            registry.wf(),
            i <= extras@.len(),
            handles@.len() == i,
            steps.len() == i + 1,
            steps[0] == old(registry)@,
            steps.last() == registry@,
            registry@.roomy(extras@.len() - i),
            forall|j: int|
                0 <= j < i ==> file_registered(
                    steps[j],
                    steps[j + 1],
                    #[trigger] handles@[j],
                    path@,
                    extras@[j],
                ),
        decreases extras@.len() - i,
    {
        let ghost before = registry@;
        let ghost steps0 = steps;
        let ghost handles0 = handles@;
        let source = path.clone();
        let ghost data: DataSource<T> = DataSource::File { source, extra: extras@[i as int] };
        let h = registry.register_file(source, extras[i]);
        handles.push(h);
        proof {
            steps = steps.push(registry@);
            assert(registered(before, registry@, h, data));
            assert(file_registered(before, registry@, h, path@, extras@[i as int]));
            assert forall|j: int| 0 <= j < i + 1 implies file_registered(
                steps[j],
                steps[j + 1],
                #[trigger] handles@[j],
                path@,
                extras@[j],
            ) by {
                if j < i {
                    assert(handles0[j] == handles@[j]);
                    assert(steps[j] == steps0[j] && steps[j + 1] == steps0[j + 1]);
                }
            }
        }
        i += 1;
    }
    proof {
        assert(files_registered(steps, handles@, path@, extras@));
    }
    handles
}

/// Loads a file: keeps what parsing it gave in memory and registers all its assets. `None`, with
/// nothing changed, where the file cannot be loaded or there is no room for its assets.
pub fn load<T, G, L: AssetLoader<T>>(
    memory: &mut MemoryLayer<L::Parsed>,
    registry: &mut AssetRegistry<T, G>,
    loader: &L,
    space: &MergedResourceSpace,
    path: &GamePath,
) -> (r: Option<Vec<Handle>>)
    requires
        old(registry).wf(),
    ensures
        final(registry).wf(),
        exists|outcome: Option<L::Parsed>| #[trigger]
            loads(loader, space, path@, outcome) && match (outcome, r) {
                (Some(parsed), Some(handles)) => final(memory)@ == old(memory)@.insert(
                    path@,
                    parsed,
                ) && all_registered(
                    old(registry)@,
                    final(registry)@,
                    handles@,
                    path@,
                    loader.listed(parsed),
                ),
                (Some(parsed), None) => !old(registry)@.roomy(loader.listed(parsed).len() as int)
                    && final(memory)@ == old(memory)@ && final(registry)@ == old(registry)@,
                (None, None) => final(memory)@ == old(memory)@ && final(registry)@ == old(
                    registry,
                )@,
                (None, Some(_)) => false,
            },
{
    let outcome = loader.load(space, path);
    proof {
        assert(loads(loader, space, path@, outcome));
    }
    let parsed = match outcome {
        None => {
            return None;
        },
        Some(parsed) => parsed,
    };
    let extras = loader.entries(&parsed);
    let room = registry.room();
    if extras.len() as u64 > room {
        return None;
    }
    proof {
        assert(registry@.roomy(extras@.len() as int));
    }
    memory.insert(path.clone(), parsed);
    Some(register_entries(registry, path, &extras))
}

/// Synchronising a second time changes nothing about which assets are on the GPU: what is there
/// stays, and nothing else comes.
pub proof fn synchronising_settles<T, G, L: AssetLoader<T>, U: GpuUploader<T, G>>(
    loader: &L,
    uploader: &U,
    memory: Map<Address, L::Parsed>,
    r0: RegistryModel<T, G>,
    r1: RegistryModel<T, G>,
    r2: RegistryModel<T, G>,
)
    requires
        synchronised_all(loader, uploader, memory, r0, r1, r0.live.dom()),
        synchronised_all(loader, uploader, memory, r1, r2, r1.live.dom()),
    ensures
        r2 == r1,
{
    assert forall|h: Handle| r1.live.contains_key(h) implies r2.live[h] == r1.live[h] by {
        assert(r0.live.contains_key(h));
        assert(synchronised(loader, uploader, memory, r0.live[h], r1.live[h]));
        assert(synchronised(loader, uploader, memory, r1.live[h], r2.live[h]));
    }
    assert(r2.live =~= r1.live);
}

/// After a file was dropped from memory none of its assets has data in memory or on the GPU, all
/// of them count as being on disk only, and every handle stays valid.
pub proof fn dropped_files_leave_no_data<T, G, L: AssetLoader<T>>(
    loader: &L,
    memory: Map<Address, L::Parsed>,
    r: RegistryModel<T, G>,
    source: Address,
    h: Handle,
)
    requires
        r.live.contains_key(h),
    ensures
        ({
            let after = dropped_all(r, source, r.live.dom());
            &&& after.live.contains_key(h)
            &&& from_file(r.live[h].data, source) ==> data_in_memory(
                loader,
                memory.remove(source),
                after.live[h].data,
            ) is None && after.live[h].gpu is None && after.live[h].state == AssetState::DiskOnly
            &&& !from_file(r.live[h].data, source) ==> after.live[h] == r.live[h]
        }),
{
}

/// Data that the program made is its own; data of a file is what the loader finds under the locator
/// in what was parsed of that file, and nothing while the file is not in memory.
pub proof fn data_comes_from_its_source<T, L: AssetLoader<T>>(
    loader: &L,
    memory: Map<Address, L::Parsed>,
    data: DataSource<T>,
)
    ensures
        data matches DataSource::Inline(d) ==> data_in_memory(loader, memory, data) == Some(d),
        data matches DataSource::File { source, extra } ==> data_in_memory(loader, memory, data)
            == (if memory.contains_key(source@) {
            loader.found(memory[source@], extra)
        } else {
            None
        }),
{
}

/// An asset that was brought in is in memory and resident; its file is parsed only where it was
/// not in memory yet, and nothing else changes. Where that fails everything stays.
pub proof fn loaded_assets_are_in_memory<T, G, L: AssetLoader<T>>(
    loader: &L,
    space: &MergedResourceSpace,
    m0: Map<Address, L::Parsed>,
    r0: RegistryModel<T, G>,
    m1: Map<Address, L::Parsed>,
    r1: RegistryModel<T, G>,
    h: Handle,
    done: bool,
    other: Handle,
    a: Address,
)
    requires
        brought_in(loader, space, m0, r0, m1, r1, h, done),
    ensures
        done ==> r0.live.contains_key(h) && r1.live.contains_key(h) && r1.live[h].data
            == r0.live[h].data && r1.live[h].gpu == r0.live[h].gpu,
        done ==> (r0.live[h].data matches DataSource::File { source, .. }
            ==> m1.contains_key(source@) && r1.live[h].state == AssetState::Resident && (
        m0.contains_key(source@) ==> m1 == m0) && (!m0.contains_key(source@) ==> exists|
            path: GamePath,
        |
            path@ == source@ && #[trigger] loader.may_load(space, &path, Some(m1[source@])))),
        done && r0.live[h].data is Inline ==> m1 == m0 && r1 == r0,
        !done ==> m1 == m0 && r1 == r0,
        r0.live.contains_key(h) && r0.live[h].data is Inline ==> done,
        r0.live.contains_key(h) && (r0.live[h].data matches DataSource::File { source, .. }
            && m0.contains_key(source@)) ==> done,
        other != h ==> r1.live.contains_key(other) == r0.live.contains_key(other),
        other != h && r0.live.contains_key(other) ==> r1.live[other] == r0.live[other],
        m0.contains_key(a) ==> m1.contains_key(a) && m1[a] == m0[a],
{
    if r0.live.contains_key(h) {
        if let DataSource::File { source, .. } = r0.live[h].data {
            if !m0.contains_key(source@) {
                let outcome = choose|outcome: Option<L::Parsed>| #[trigger]
                    loads(loader, space, source@, outcome) && match outcome {
                        None => !done && m1 == m0 && r1 == r0,
                        Some(parsed) => done && m1 == m0.insert(source@, parsed) && r1
                            == r0.with_state(h, AssetState::Resident),
                    };
                let path = choose|path: GamePath|
                    path@ == source@ && #[trigger] loader.may_load(space, &path, outcome);
                if outcome is Some {
                    assert(m1[source@] == outcome->0);
                    assert(outcome == Some(m1[source@]));
                    assert(loader.may_load(space, &path, Some(m1[source@])));
                }
            }
        }
    }
}

/// After a pass over the GPU data a pinned asset that has data in memory is on the GPU: with what it
/// had there before, or else with what the uploader made of its data. An asset that is not pinned
/// has nothing there.
pub proof fn pinned_assets_are_uploaded<T, G, L: AssetLoader<T>, U: GpuUploader<T, G>>(
    loader: &L,
    uploader: &U,
    memory: Map<Address, L::Parsed>,
    r0: RegistryModel<T, G>,
    r1: RegistryModel<T, G>,
    h: Handle,
)
    requires
        synchronised_all(loader, uploader, memory, r0, r1, r0.live.dom()),
        r0.live.contains_key(h),
    ensures
        r1.live.contains_key(h),
        r1.live[h].state == r0.live[h].state,
        r1.live[h].data == r0.live[h].data,
        r0.live[h].state == AssetState::Pinned && r0.live[h].gpu is Some ==> r1.live[h].gpu
            == r0.live[h].gpu,
        r0.live[h].state == AssetState::Pinned && r0.live[h].gpu is None ==> (match data_in_memory(
            loader,
            memory,
            r0.live[h].data,
        ) {
            Some(d) => r1.live[h].gpu is Some && call_ensures(
                U::upload,
                (uploader, &d),
                r1.live[h].gpu->0,
            ),
            None => r1.live[h].gpu is None,
        }),
        r0.live[h].state == AssetState::Resident || r0.live[h].state == AssetState::DiskOnly
            ==> r1.live[h].gpu is None,
        r1.version == r0.version,
{
    assert(r0.live.dom().contains(h));
    assert(r1.live.dom().contains(h));
}

/// A pinned asset is pinned, and is on the GPU where there is an uploader and data: with what it had
/// there, or with what the uploader made of its data. All others stay as they were.
pub proof fn pinning_uploads_the_data<T, G, U: GpuUploader<T, G>>(
    uploader: &U,
    data: Option<T>,
    r0: RegistryModel<T, G>,
    r1: RegistryModel<T, G>,
    h: Handle,
    other: Handle,
)
    requires
        pinned_with(uploader, data, r0, r1, h),
        r0.live.contains_key(h),
    ensures
        r1.live.contains_key(h),
        r1.live[h].state == AssetState::Pinned,
        r1.live[h].data == r0.live[h].data,
        r0.live[h].gpu is Some ==> r1.live[h].gpu == r0.live[h].gpu,
        r0.live[h].gpu is None && data is Some ==> r1.live[h].gpu is Some && call_ensures(
            U::upload,
            (uploader, &data->0),
            r1.live[h].gpu->0,
        ),
        r0.live[h].gpu is None && data is None ==> r1.live[h].gpu is None,
        other != h ==> r1.live.contains_key(other) == r0.live.contains_key(other),
        other != h && r0.live.contains_key(other) ==> r1.live[other] == r0.live[other],
{
}

/// Every locator gets a handle of its own, in order: the handle is live and leads to the file and to
/// that locator in it. What was registered before stays.
pub proof fn entries_are_registered_in_order<T, G>(
    r0: RegistryModel<T, G>,
    r1: RegistryModel<T, G>,
    handles: Seq<Handle>,
    source: Address,
    extras: Seq<u64>,
    i: int,
    j: int,
    h: Handle,
)
    requires
        all_registered(r0, r1, handles, source, extras),
        0 <= i < extras.len(),
        0 <= j < extras.len(),
    ensures
        handles.len() == extras.len(),
        r1.live.contains_key(handles[i]),
        r1.live[handles[i]].data matches DataSource::File { source: path, extra } && path@ == source
            && extra == extras[i],
        r1.live[handles[i]].state == AssetState::Resident,
        handles[i] == handles[j] ==> i == j,
        r0.live.contains_key(h) && r0.issued(h) ==> r1.live.contains_key(h) && r1.live[h]
            == r0.live[h],
        r1.version == r0.version + extras.len(),
{
    let steps = choose|steps: Seq<RegistryModel<T, G>>| #[trigger]
        files_registered(steps, handles, source, extras) && steps[0] == r0 && steps.last() == r1;
    let n = extras.len() as int;
    lemma_step_registers(steps, handles, source, extras, i);
    lemma_registered_stays(steps, handles, source, extras, handles[i], i + 1, n);
    if i != j {
        lemma_step_registers(steps, handles, source, extras, j);
        if i < j {
            lemma_registered_stays(steps, handles, source, extras, handles[i], i + 1, j);
        } else {
            lemma_registered_stays(steps, handles, source, extras, handles[j], j + 1, i);
        }
    }
    if r0.live.contains_key(h) && r0.issued(h) {
        lemma_registered_stays(steps, handles, source, extras, h, 0, n);
    }
    lemma_versions_count(steps, handles, source, extras, n);
}

proof fn lemma_step_registers<T, G>(
    steps: Seq<RegistryModel<T, G>>,
    handles: Seq<Handle>,
    source: Address,
    extras: Seq<u64>,
    i: int,
)
    requires
        files_registered(steps, handles, source, extras),
        0 <= i < extras.len(),
    ensures
        !steps[i].issued(handles[i]),
        steps[i + 1].issued(handles[i]),
        steps[i + 1].live.contains_key(handles[i]),
        steps[i + 1].live[handles[i]].data matches DataSource::File { source: path, extra }
            && path@ == source && extra == extras[i],
        steps[i + 1].live[handles[i]].state == AssetState::Resident,
        steps[i + 1].version == steps[i].version + 1,
{
    assert(file_registered(steps[i], steps[i + 1], handles[i], source, extras[i]));
}

proof fn lemma_registered_stays<T, G>(
    steps: Seq<RegistryModel<T, G>>,
    handles: Seq<Handle>,
    source: Address,
    extras: Seq<u64>,
    h: Handle,
    from: int,
    to: int,
)
    requires
        files_registered(steps, handles, source, extras),
        0 <= from <= to <= extras.len(),
        steps[from].issued(h),
        steps[from].live.contains_key(h),
    ensures
        steps[to].issued(h),
        steps[to].live.contains_key(h),
        steps[to].live[h] == steps[from].live[h],
    decreases to - from,
{
    if from < to {
        lemma_registered_stays(steps, handles, source, extras, h, from, to - 1);
        assert(file_registered(
            steps[to - 1],
            steps[to - 1 + 1],
            handles[to - 1],
            source,
            extras[to - 1],
        ));
    }
}

proof fn lemma_versions_count<T, G>(
    steps: Seq<RegistryModel<T, G>>,
    handles: Seq<Handle>,
    source: Address,
    extras: Seq<u64>,
    n: int,
)
    requires
        files_registered(steps, handles, source, extras),
        0 <= n <= extras.len(),
    ensures
        steps[n].version == steps[0].version + n,
    decreases n,
{
    if n > 0 {
        lemma_versions_count(steps, handles, source, extras, n - 1);
        lemma_step_registers(steps, handles, source, extras, n - 1);
    }
}

/// Pinning an asset brings it in, pins it, and where there is an uploader puts it onto the GPU with
/// its own data; it is done exactly where the asset could be brought in. All others stay.
pub proof fn pinned_assets_are_brought_in<T, G, L: AssetLoader<T>, U: GpuUploader<T, G>>(
    loader: &L,
    uploader: Option<&U>,
    space: &MergedResourceSpace,
    m0: Map<Address, L::Parsed>,
    r0: RegistryModel<T, G>,
    m1: Map<Address, L::Parsed>,
    r1: RegistryModel<T, G>,
    h: Handle,
    done: bool,
    other: Handle,
)
    requires
        asset_pinned(loader, uploader, space, m0, r0, m1, r1, h, done),
    ensures
        !done ==> m1 == m0 && r1 == r0,
        !r0.live.contains_key(h) ==> !done,
        r0.live.contains_key(h) && r0.live[h].data is Inline ==> done,
        done ==> r1.live.contains_key(h) && r1.live[h].state == AssetState::Pinned
            && r1.live[h].data == r0.live[h].data,
        done && uploader is None ==> r1.live[h].gpu == r0.live[h].gpu,
        done && uploader is Some && r0.live[h].gpu is Some ==> r1.live[h].gpu == r0.live[h].gpu,
        done && uploader is Some && r0.live[h].gpu is None ==> (match data_in_memory(
            loader,
            m1,
            r0.live[h].data,
        ) {
            Some(d) => r1.live[h].gpu is Some && call_ensures(
                U::upload,
                (uploader->0, &d),
                r1.live[h].gpu->0,
            ),
            None => r1.live[h].gpu is None,
        }),
        other != h ==> r1.live.contains_key(other) == r0.live.contains_key(other),
        other != h && r0.live.contains_key(other) ==> r1.live[other] == r0.live[other],
{
    let mid = choose|mid: RegistryModel<T, G>| #[trigger]
        brought_in(loader, space, m0, r0, m1, mid, h, done) && if !done {
            r1 == mid
        } else {
            match uploader {
                None => r1 == mid.with_state(h, AssetState::Pinned),
                Some(u) => pinned_with(
                    u,
                    data_in_memory(loader, m1, mid.live[h].data),
                    mid,
                    r1,
                    h,
                ),
            }
        };
    if r0.live.contains_key(h) {
        if let DataSource::File { source, .. } = r0.live[h].data {
            loaded_assets_are_in_memory(loader, space, m0, r0, m1, mid, h, done, other, source@);
        }
    }
}

/// An asset is made ready on the GPU exactly where there is an uploader, the asset could be brought
/// in, and it is on the GPU or has data to be put there; it is pinned then. Where it is not made
/// ready nothing is put onto the GPU.
pub proof fn ready_assets_are_on_the_gpu<T, G, L: AssetLoader<T>, U: GpuUploader<T, G>>(
    loader: &L,
    uploader: Option<&U>,
    space: &MergedResourceSpace,
    m0: Map<Address, L::Parsed>,
    r0: RegistryModel<T, G>,
    m1: Map<Address, L::Parsed>,
    r1: RegistryModel<T, G>,
    h: Handle,
    done: bool,
    other: Handle,
)
    requires
        gpu_ensured(loader, uploader, space, m0, r0, m1, r1, h, done),
    ensures
        uploader is None ==> !done,
        !r0.live.contains_key(h) ==> !done && r1 == r0 && m1 == m0,
        done ==> r1.live.contains_key(h) && r1.live[h].state == AssetState::Pinned
            && r1.live[h].gpu is Some && r1.live[h].data == r0.live[h].data,
        done && r0.live[h].gpu is Some ==> r1.live[h].gpu == r0.live[h].gpu,
        done && r0.live[h].gpu is None ==> data_in_memory(loader, m1, r0.live[h].data) is Some
            && call_ensures(
            U::upload,
            (uploader->0, &data_in_memory(loader, m1, r0.live[h].data)->0),
            r1.live[h].gpu->0,
        ),
        !done && r0.live.contains_key(h) ==> r1.live.contains_key(h) && r1.live[h].gpu
            == r0.live[h].gpu,
        uploader is Some && r0.live.contains_key(h) && r0.live[h].data is Inline ==> done,
        other != h ==> r1.live.contains_key(other) == r0.live.contains_key(other),
        other != h && r0.live.contains_key(other) ==> r1.live[other] == r0.live[other],
{
    let (mid, loaded) = choose|mid: RegistryModel<T, G>, loaded: bool| #[trigger]
        brought_in(loader, space, m0, r0, m1, mid, h, loaded) && match uploader {
            None => !done && r1 == mid,
            Some(u) => {
                let data = data_in_memory(loader, m1, mid.live[h].data);
                if !loaded || (mid.live[h].gpu is None && data is None) {
                    !done && r1 == mid
                } else {
                    done && pinned_with(u, data, mid, r1, h)
                }
            },
        };
    if r0.live.contains_key(h) {
        if let DataSource::File { source, .. } = r0.live[h].data {
            loaded_assets_are_in_memory(loader, space, m0, r0, m1, mid, h, loaded, other, source@);
        }
        if done {
            let u = uploader->0;
            pinning_uploads_the_data(
                u,
                data_in_memory(loader, m1, mid.live[h].data),
                mid,
                r1,
                h,
                other,
            );
        }
    }
}

/// Everything that is to be uploaded is in memory exactly where no pinned asset without GPU data
/// comes from a file that is not.
pub proof fn pinned_files_are_in_memory<T, G, P>(
    memory: Map<Address, P>,
    r: RegistryModel<T, G>,
    h: Handle,
)
    ensures
        pinned_in_memory(memory, r) && r.live.contains_key(h) && r.live[h].state
            == AssetState::Pinned && r.live[h].gpu is None ==> (r.live[h].data
            matches DataSource::File { source, .. } ==> memory.contains_key(source@)),
        !pinned_in_memory(memory, r) ==> exists|x: Handle| #[trigger]
            r.live.contains_key(x) && r.live[x].state == AssetState::Pinned && r.live[x].gpu is None
                && (r.live[x].data matches DataSource::File { source, .. }
                && !memory.contains_key(source@)),
{
    if pinned_in_memory(memory, r) && r.live.contains_key(h) {
        assert(in_memory_if_pinned(memory, r.live[h]));
    }
    if !pinned_in_memory(memory, r) {
        let x = choose|x: Handle| #[trigger]
            r.live.contains_key(x) && !in_memory_if_pinned(memory, r.live[x]);
        assert(r.live.contains_key(x));
    }
}

} // verus!
