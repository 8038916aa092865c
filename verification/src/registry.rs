//! A registry of assets of one type: generational handles, data in memory and on the GPU.
use crate::game_path::GamePath;
use crate::handle::Handle;
use vstd::prelude::*;

verus! {

/// Where the data of an asset is.
#[derive(Clone, Copy, Debug, PartialEq, Eq, Structural)]
pub enum AssetState {
    /// Removed: the handle is dead.
    Unloaded,
    /// The data was dropped; the file it came from is remembered.
    DiskOnly,
    /// The data is in memory.
    Resident,
    /// The data has to stay on the GPU.
    Pinned,
}

/// Where the data of an asset comes from.
#[derive(Debug)]
pub enum DataSource<T> {
    /// Made by the program.
    Inline(T),
    /// Part of a parsed file, found there by `extra`.
    File { source: GamePath, extra: u64 },
}

struct Slot<T, G> {
    generation: u32,
    state: AssetState,
    data: Option<DataSource<T>>,
    gpu: Option<G>,
}

/// What the registry knows about a live asset.
pub struct RegistryEntry<T, G> {
    pub state: AssetState,
    pub data: DataSource<T>,
    pub gpu: Option<G>,
}

/// The contents of a registry.
#[verifier::ext_equal]
pub struct RegistryModel<T, G> {
    /// The live assets.
    pub live: Map<Handle, RegistryEntry<T, G>>,
    /// The generation of each slot, live or free.
    pub generations: Seq<u32>,
    /// The free slots; the last one is used next.
    pub free: Seq<u32>,
    /// Changes with every asset that comes or goes.
    pub version: u64,
}

/// Generational handles over slots that are used again.
pub struct AssetRegistry<T, G> {
    slots: Vec<Slot<T, G>>,
    free: Vec<u32>,
    version: u64,
}

spec fn slot_live<T, G>(slots: Seq<Slot<T, G>>, h: Handle) -> bool {
    h.index < slots.len() && slots[h.index as int].generation == h.generation
        && slots[h.index as int].data is Some
}

spec fn slot_entry<T, G>(slot: Slot<T, G>) -> RegistryEntry<T, G> {
    RegistryEntry { state: slot.state, data: slot.data->0, gpu: slot.gpu }
}

spec fn registry_model<T, G>(
    slots: Seq<Slot<T, G>>,
    free: Seq<u32>,
    version: u64,
) -> RegistryModel<T, G> {
    RegistryModel {
        live: Map::new(
            |h: Handle| slot_live(slots, h),
            |h: Handle| slot_entry(slots[h.index as int]),
        ),
        generations: slots.map_values(|s: Slot<T, G>| s.generation),
        free,
        version,
    }
}

impl<T, G> View for AssetRegistry<T, G> {
    type V = RegistryModel<T, G>;

    closed spec fn view(&self) -> RegistryModel<T, G> {
        registry_model(self.slots@, self.free@, self.version)
    }
}

impl<T, G> AssetRegistry<T, G> {
    /// The free slots are listed, each once, and generations count from one.
    pub closed spec fn wf(&self) -> bool {
        &&& self.slots@.len() <= 0x1_0000_0000
        &&& self.free@.no_duplicates()
        &&& forall|i: int|
            0 <= i < self.free@.len() ==> (#[trigger] self.free@[i]) < self.slots@.len()
                && self.slots@[self.free@[i] as int].data is None
        &&& forall|i: int|
            0 <= i < self.slots@.len() ==> 1 <= (#[trigger] self.slots@[i]).generation && (
            self.slots@[i].data is None ==> self.free@.contains(i as u32))
    }

    /// An empty registry.
    pub fn new() -> (r: AssetRegistry<T, G>)
        ensures
            r.wf(),
            r@.live =~= Map::empty(),
            r@.generations =~= Seq::empty(),
            r@.free =~= Seq::empty(),
            r@.version == 0,
    {
        AssetRegistry { slots: Vec::new(), free: Vec::new(), version: 0 }
    }

    /// Registers data that the program made.
    pub fn register(&mut self, data: T) -> (h: Handle)
        requires
            old(self).wf(),
            old(self)@.free.len() > 0 || old(self)@.generations.len() <= u32::MAX,
            old(self)@.version < u64::MAX,
        ensures
            final(self).wf(),
            registered(old(self)@, final(self)@, h, DataSource::Inline(data)),
    {
        self.register_with_source(DataSource::Inline(data))
    }

    /// Registers a part of a parsed file.
    pub fn register_file(&mut self, source: GamePath, extra: u64) -> (h: Handle)
        requires
            old(self).wf(),
            old(self)@.free.len() > 0 || old(self)@.generations.len() <= u32::MAX,
            old(self)@.version < u64::MAX,
        ensures
            final(self).wf(),
            registered(
                old(self)@,
                final(self)@,
                h,
                (DataSource::File { source, extra }),
            ),
    {
        self.register_with_source(DataSource::File { source, extra })
    }

    fn register_with_source(&mut self, data: DataSource<T>) -> (h: Handle)
        requires
            old(self).wf(),
            old(self)@.free.len() > 0 || old(self)@.generations.len() <= u32::MAX,
            old(self)@.version < u64::MAX,
        ensures
            final(self).wf(),
            registered(old(self)@, final(self)@, h, data),
    {
        let ghost before = self@;
        let ghost slots0 = self.slots@;
        let ghost free0 = self.free@;
        let handle = match self.free.pop() {
            Some(index) => {
                proof {
                    assert(free0[free0.len() - 1] == index);
                    assert(slots0[index as int].data is None);
                }
                let i = index as usize;
                self.slots[i].state = AssetState::Resident;
                self.slots[i].data = Some(data);
                self.slots[i].gpu = None;
                let h = Handle { index, generation: self.slots[i].generation };
                proof {
                    let s = self.slots@[index as int];
                    assert(self.slots@ =~= slots0.update(index as int, s));
                    assert(self.free@ =~= free0.drop_last());
                    assert forall|j: int| 0 <= j < self.free@.len() implies (#[trigger] self.free@[j])
                        < self.slots@.len() && self.slots@[self.free@[j] as int].data is None by {
                        assert(self.free@[j] == free0[j]);
                        assert(free0[j] != free0[free0.len() - 1]);
                    }
                    assert forall|j: int| 0 <= j < self.slots@.len() implies 1 <= (
                    #[trigger] self.slots@[j]).generation && (self.slots@[j].data is None
                        ==> self.free@.contains(j as u32)) by {
                        assert(1 <= slots0[j].generation);
                        if self.slots@[j].data is None {
                            assert(free0.contains(j as u32));
                            let k = choose|k: int| 0 <= k < free0.len() && free0[k] == j as u32;
                            assert(self.free@[k] == j as u32);
                        }
                    }
                }
                h
            },
            None => {
                let index = self.slots.len() as u32;
                let slot = Slot {
                    generation: 1,
                    state: AssetState::Resident,
                    data: Some(data),
                    gpu: None,
                };
                self.slots.push(slot);
                proof {
                    assert(self.slots@ =~= slots0.push(slot));
                    assert forall|j: int| 0 <= j < self.slots@.len() implies 1 <= (
                    #[trigger] self.slots@[j]).generation && (self.slots@[j].data is None
                        ==> self.free@.contains(j as u32)) by {
                        if j < slots0.len() {
                            assert(1 <= slots0[j].generation);
                            assert(self.slots@[j] == slots0[j]);
                        }
                    }
                }
                Handle { index, generation: 1 }
            },
        };
        self.version = self.version + 1;
        proof {
            let after = self@;
            assert(self.slots@[handle.index as int].data is Some);
            assert(after.live =~= before.live.insert(
                handle,
                RegistryEntry { state: AssetState::Resident, data, gpu: None },
            ));
            assert(after.generations =~= (if free0.len() > 0 {
                before.generations
            } else {
                before.generations.push(1)
            }));
        }
        handle
    }

    fn find(&self, h: Handle) -> (r: Option<usize>)
        ensures
            match r {
                Some(i) => i == h.index && i < self.slots@.len() && slot_live(self.slots@, h)
                    && self@.live.contains_key(h),
                None => !self@.live.contains_key(h),
            },
    {
        let i = h.index as usize;
        if i < self.slots.len() && self.slots[i].generation == h.generation
            && self.slots[i].data.is_some() {
            Some(i)
        } else {
            None
        }
    }

    /// Whether the handle names a live asset.
    pub fn is_valid(&self, h: Handle) -> (b: bool)
        ensures
            b == self@.live.contains_key(h),
    {
        self.find(h).is_some()
    }

    /// The number of assets that there is room for, whatever slots are free.
    pub fn room(&self) -> (n: u64)
        requires
            self.wf(),
        ensures
            forall|k: int| 0 <= k ==> (#[trigger] self@.roomy(k) <==> k <= n),
    {
        let by_slots: u64 = 0x1_0000_0000 - self.slots.len() as u64;
        let by_version: u64 = u64::MAX - self.version;
        if by_slots < by_version {
            by_slots
        } else {
            by_version
        }
    }

    /// Where the data of the asset comes from.
    pub fn data_source(&self, h: Handle) -> (r: Option<&DataSource<T>>)
        ensures
            match r {
                Some(d) => self@.live.contains_key(h) && self@.live[h].data == *d,
                None => !self@.live.contains_key(h),
            },
    {
        match self.find(h) {
            Some(i) => self.slots[i].data.as_ref(),
            None => None,
        }
    }

    /// The data of the asset on the GPU, if it is there.
    pub fn gpu(&self, h: Handle) -> (r: Option<&G>)
        ensures
            match r {
                Some(g) => self@.live.contains_key(h) && self@.live[h].gpu == Some(*g),
                None => !self@.live.contains_key(h) || self@.live[h].gpu is None,
            },
    {
        match self.find(h) {
            Some(i) => self.slots[i].gpu.as_ref(),
            None => None,
        }
    }

    /// Where the data of the asset is.
    pub fn state(&self, h: Handle) -> (r: Option<AssetState>)
        ensures
            r == (if self@.live.contains_key(h) {
                Some(self@.live[h].state)
            } else {
                None
            }),
    {
        match self.find(h) {
            Some(i) => Some(self.slots[i].state),
            None => None,
        }
    }

    /// Notes where the data of the asset is.
    pub fn set_state(&mut self, h: Handle, state: AssetState) -> (b: bool)
        requires
            old(self).wf(),
        ensures
            final(self).wf(),
            b == old(self)@.live.contains_key(h),
            final(self)@ == (if b {
                old(self)@.with_state(h, state)
            } else {
                old(self)@
            }),
    {
        match self.find(h) {
            None => false,
            Some(i) => {
                let ghost before = self@;
                let ghost slots0 = self.slots@;
                self.slots[i].state = state;
                proof {
                    lemma_slot_update(slots0, self.slots@, i as int);
                    assert(self@ =~= before.with_state(h, state));
                }
                true
            },
        }
    }

    /// Asks that the asset stay on the GPU.
    pub fn pin(&mut self, h: Handle) -> (b: bool)
        requires
            old(self).wf(),
        ensures
            final(self).wf(),
            b == old(self)@.live.contains_key(h),
            final(self)@ == (if b {
                old(self)@.with_state(h, AssetState::Pinned)
            } else {
                old(self)@
            }),
    {
        self.set_state(h, AssetState::Pinned)
    }

    /// Lets the asset leave the GPU.
    pub fn unpin(&mut self, h: Handle) -> (b: bool)
        requires
            old(self).wf(),
        ensures
            final(self).wf(),
            b == old(self)@.live.contains_key(h),
            final(self)@ == (if b {
                old(self)@.with_state(h, AssetState::Resident)
            } else {
                old(self)@
            }),
    {
        self.set_state(h, AssetState::Resident)
    }

    /// Puts the GPU data of the asset in place, or drops it.
    pub fn set_gpu(&mut self, h: Handle, gpu: Option<G>) -> (b: bool)
        requires
            old(self).wf(),
        ensures
            final(self).wf(),
            b == old(self)@.live.contains_key(h),
            final(self)@ == (if b {
                old(self)@.with_gpu(h, gpu)
            } else {
                old(self)@
            }),
    {
        match self.find(h) {
            None => false,
            Some(i) => {
                let ghost before = self@;
                let ghost slots0 = self.slots@;
                self.slots[i].gpu = gpu;
                proof {
                    lemma_slot_update(slots0, self.slots@, i as int);
                    assert(self@ =~= before.with_gpu(h, gpu));
                }
                true
            },
        }
    }

    /// The place of the GPU data of the asset, to be filled or cleared.
    pub fn gpu_mut(&mut self, h: Handle) -> (r: Option<&mut Option<G>>)
        requires
            old(self).wf(),
        ensures
            final(self).wf(),
            match r {
                Some(gpu) => old(self)@.live.contains_key(h) && *gpu == old(self)@.live[h].gpu
                    && final(self)@ == old(self)@.with_gpu(h, *final(gpu)),
                None => !old(self)@.live.contains_key(h) && final(self)@ == old(self)@,
            },
    {
        match self.find(h) {
            None => None,
            Some(i) => {
                proof {
                    let before = self@;
                    let slots0 = self.slots@;
                    assert forall|gpu: Option<G>| registry_model(
                        slots0.update(i as int, Slot { gpu, ..slots0[i as int] }),
                        self.free@,
                        self.version,
                    ) == #[trigger] before.with_gpu(h, gpu) by {
                        let slots1 = slots0.update(i as int, Slot { gpu, ..slots0[i as int] });
                        lemma_slot_update(slots0, slots1, i as int);
                        assert(registry_model(slots1, self.free@, self.version)
                            =~= before.with_gpu(h, gpu));
                    }
                }
                Some(&mut self.slots[i].gpu)
            },
        }
    }

    /// Removes an asset; its handle dies and its slot can be used again.
    pub fn remove(&mut self, h: Handle) -> (r: Option<DataSource<T>>)
        requires
            old(self).wf(),
            old(self)@.live.contains_key(h) ==> h.generation < u32::MAX && old(self)@.version
                < u64::MAX,
        ensures
            final(self).wf(),
            match r {
                Some(d) => old(self)@.live.contains_key(h) && old(self)@.live[h].data == d
                    && final(self)@ == old(self)@.without(h),
                None => !old(self)@.live.contains_key(h) && final(self)@ == old(self)@,
            },
    {
        match self.find(h) {
            None => None,
            Some(i) => {
                let ghost before = self@;
                let ghost slots0 = self.slots@;
                let ghost free0 = self.free@;
                let data = self.slots[i].data.take();
                self.slots[i].gpu = None;
                self.slots[i].state = AssetState::Unloaded;
                self.slots[i].generation = h.generation + 1;
                self.free.push(h.index);
                self.version = self.version + 1;
                proof {
                    let s = self.slots@[i as int];
                    assert(self.slots@ =~= slots0.update(i as int, s));
                    assert(self.free@ =~= free0.push(h.index));
                    assert(!free0.contains(h.index)) by {
                        if free0.contains(h.index) {
                            let k = choose|k: int| 0 <= k < free0.len() && free0[k] == h.index;
                            assert(slots0[free0[k] as int].data is None);
                        }
                    }
                    assert forall|a: int, b: int|
                        0 <= a < self.free@.len() && 0 <= b < self.free@.len() && a
                            != b implies self.free@[a] != self.free@[b] by {
                        if a < free0.len() {
                            assert(free0.contains(free0[a]));
                        }
                        if b < free0.len() {
                            assert(free0.contains(free0[b]));
                        }
                    }
                    assert forall|j: int| 0 <= j < self.free@.len() implies (#[trigger] self.free@[j])
                        < self.slots@.len() && self.slots@[self.free@[j] as int].data is None by {
                        if j < free0.len() {
                            assert(self.free@[j] == free0[j]);
                        }
                    }
                    assert forall|j: int| 0 <= j < self.slots@.len() implies 1 <= (
                    #[trigger] self.slots@[j]).generation && (self.slots@[j].data is None
                        ==> self.free@.contains(j as u32)) by {
                        assert(1 <= slots0[j].generation);
                        if j == i as int {
                            assert(self.free@[free0.len() as int] == h.index);
                        } else if self.slots@[j].data is None {
                            assert(slots0[j].data is None);
                            let k = choose|k: int| 0 <= k < free0.len() && free0[k] == j as u32;
                            assert(self.free@[k] == j as u32);
                        }
                    }
                    assert(self@.live =~= before.live.remove(h));
                    assert(self@.generations =~= before.generations.update(
                        h.index as int,
                        (h.generation + 1) as u32,
                    ));
                    assert(self@ =~= before.without(h));
                }
                data
            },
        }
    }

    /// Number of changes so far.
    pub fn version(&self) -> (v: u64)
        ensures
            v == self@.version,
    {
        self.version
    }

    /// The live handles, in the order of their slots.
    pub fn iter(&self) -> (list: Vec<Handle>)
        requires
            self.wf(),
        ensures
            forall|a: int, b: int|
                0 <= a < b < list@.len() ==> (#[trigger] list@[a]).index < (#[trigger] list@[b]).index,
            forall|h: Handle| #[trigger] list@.contains(h) <==> self@.live.contains_key(h),
            list@.no_duplicates(),
            list@.to_set() == self@.live.dom(),
            list@.len() == self@.live.dom().len(),
            self@.live.dom().finite(),
    {
        let mut list: Vec<Handle> = Vec::new();
        let mut i: usize = 0;
        while i < self.slots.len()
            invariant
                self.wf(),
                i <= self.slots@.len(),
                forall|a: int, b: int|
                    0 <= a < b < list@.len() ==> (#[trigger] list@[a]).index < (
                    #[trigger] list@[b]).index,
                forall|a: int|
                    0 <= a < list@.len() ==> (#[trigger] list@[a]).index < i && slot_live(
                        self.slots@,
                        list@[a],
                    ),
                forall|h: Handle|
                    h.index < i && slot_live(self.slots@, h) ==> #[trigger] list@.contains(h),
            decreases self.slots@.len() - i,
        {
            let ghost before = list@;
            if self.slots[i].data.is_some() {
                let h = Handle { index: i as u32, generation: self.slots[i].generation };
                list.push(h);
                proof {
                    assert forall|g: Handle| g.index < i + 1 && slot_live(
                        self.slots@,
                        g,
                    ) implies #[trigger] list@.contains(g) by {
                        if g.index < i {
                            assert(before.contains(g));
                            let k = choose|k: int| 0 <= k < before.len() && before[k] == g;
                            assert(list@[k] == g);
                        } else {
                            assert(list@[before.len() as int] == g);
                        }
                    }
                }
            }
            i += 1;
        }
        proof {
            assert(list@.no_duplicates()) by {
                assert forall|a: int, b: int|
                    0 <= a < list@.len() && 0 <= b < list@.len() && a != b implies list@[a]
                    != list@[b] by {
                    if a < b {
                        assert(list@[a].index < list@[b].index);
                    } else {
                        assert(list@[b].index < list@[a].index);
                    }
                }
            }
            list@.unique_seq_to_set();
            assert(list@.to_set() =~= self@.live.dom()) by {
                assert forall|h: Handle|
                    list@.to_set().contains(h) == self@.live.dom().contains(h) by {
                    assert(list@.contains(h) <==> self@.live.contains_key(h));
                }
            }
        }
        list
    }

    /// Number of live assets.
    pub fn len(&self) -> (n: usize)
        requires
            self.wf(),
        ensures
            n == self@.live.dom().len(),
            self@.live.dom().finite(),
    {
        self.iter().len()
    }

    /// Whether there is no live asset.
    pub fn is_empty(&self) -> (b: bool)
        requires
            self.wf(),
        ensures
            b == (self@.live.dom().len() == 0),
    {
        self.len() == 0
    }
}

impl<T, G> Default for AssetRegistry<T, G> {
    fn default() -> (r: AssetRegistry<T, G>)
        ensures
            r.wf(),
            r@.live =~= Map::empty(),
            r@.generations =~= Seq::empty(),
            r@.free =~= Seq::empty(),
            r@.version == 0,
    {
        AssetRegistry::new()
    }
}

impl<T, G> RegistryModel<T, G> {
    /// The handle was given out at some time.
    pub open spec fn issued(self, h: Handle) -> bool {
        h.index < self.generations.len() && 1 <= h.generation && (h.generation
            < self.generations[h.index as int] || self.live.contains_key(h))
    }

    /// With the state of an asset replaced.
    pub open spec fn with_state(self, h: Handle, state: AssetState) -> RegistryModel<T, G> {
        RegistryModel {
            live: self.live.insert(h, RegistryEntry { state, ..self.live[h] }),
            ..self
        }
    }

    /// There is room for `n` more assets, whatever slots are free.
    pub open spec fn roomy(self, n: int) -> bool {
        self.generations.len() + n <= 0x1_0000_0000 && self.version + n <= u64::MAX
    }

    /// With the GPU data of an asset replaced.
    pub open spec fn with_gpu(self, h: Handle, gpu: Option<G>) -> RegistryModel<T, G> {
        RegistryModel {
            live: self.live.insert(h, RegistryEntry { gpu, ..self.live[h] }),
            ..self
        }
    }

    /// Without an asset.
    pub open spec fn without(self, h: Handle) -> RegistryModel<T, G> {
        RegistryModel {
            live: self.live.remove(h),
            generations: self.generations.update(h.index as int, (h.generation + 1) as u32),
            free: self.free.push(h.index),
            version: (self.version + 1) as u64,
            ..self
        }
    }
}

/// What registering makes of a registry: the new asset takes the slot that became free last, in
/// the present generation of the slot, or a new slot where none is free.
pub open spec fn registered<T, G>(
    before: RegistryModel<T, G>,
    after: RegistryModel<T, G>,
    h: Handle,
    data: DataSource<T>,
) -> bool {
    &&& !before.issued(h)
    &&& after.issued(h)
    &&& after.live == before.live.insert(
        h,
        RegistryEntry { state: AssetState::Resident, data, gpu: None },
    )
    &&& after.version == before.version + 1
    &&& if before.free.len() > 0 {
        &&& h.index == before.free.last()
        &&& h.generation == before.generations[h.index as int]
        &&& after.free == before.free.drop_last()
        &&& after.generations == before.generations
    } else {
        &&& h.index == before.generations.len()
        &&& h.generation == 1
        &&& after.free == before.free
        &&& after.generations == before.generations.push(1)
    }
}

proof fn lemma_slot_update<T, G>(before: Seq<Slot<T, G>>, after: Seq<Slot<T, G>>, i: int)
    requires
        0 <= i < before.len() <= 0x1_0000_0000,
        after.len() == before.len(),
        forall|j: int| 0 <= j < before.len() && j != i ==> after[j] == before[j],
        after[i].generation == before[i].generation,
        after[i].data == before[i].data,
        before[i].data is Some,
    ensures
        ({
            let h = Handle { index: i as u32, generation: before[i].generation };
            registry_model(after, seq![], 0).live == registry_model(before, seq![], 0).live.insert(
                h,
                slot_entry(after[i]),
            )
        }),
        registry_model(after, seq![], 0).generations == registry_model(before, seq![], 0).generations,
{
    let h = Handle { index: i as u32, generation: before[i].generation };
    assert(registry_model(after, seq![], 0).live =~= registry_model(before, seq![], 0).live.insert(
        h,
        slot_entry(after[i]),
    ));
    assert(registry_model(after, seq![], 0).generations =~= registry_model(before, seq![], 0).generations);
}

/// A handle that was given out and is dead stays dead when another asset is registered, even
/// where the new asset takes its slot.
pub proof fn dead_handles_stay_dead<T, G>(
    before: RegistryModel<T, G>,
    after: RegistryModel<T, G>,
    h: Handle,
    data: DataSource<T>,
    dead: Handle,
)
    requires
        registered(before, after, h, data),
        before.issued(dead),
        !before.live.contains_key(dead),
    ensures
        !after.live.contains_key(dead),
        after.issued(dead),
{
}

/// A removed handle is dead, was given out, and every other asset is untouched.
pub proof fn removal_is_exact<T, G>(m: RegistryModel<T, G>, h: Handle, other: Handle)
    ensures
        !m.without(h).live.contains_key(h),
        m.issued(h) && m.generations[h.index as int] == h.generation && h.generation < u32::MAX
            ==> m.without(h).issued(h),
        other != h ==> m.without(h).live.contains_key(other) == m.live.contains_key(other),
        other != h && m.live.contains_key(other) ==> m.without(h).live[other] == m.live[other],
{
}

/// Every live handle was given out.
pub proof fn live_handles_were_issued<T, G>(r: &AssetRegistry<T, G>)
    requires
        r.wf(),
    ensures
        forall|h: Handle| #[trigger] r@.live.contains_key(h) ==> r@.issued(h),
{
    assert forall|h: Handle| #[trigger] r@.live.contains_key(h) implies r@.issued(h) by {
        assert(1 <= r.slots@[h.index as int].generation);
    }
}

/// One call that may change a registry.
pub enum RegistryStep<T, G> {
    /// Data was registered and got this handle.
    Register(Handle, DataSource<T>),
    /// A live asset was removed.
    Remove(Handle),
    /// The state of a live asset was set, by pinning, unpinning or directly.
    SetState(Handle, AssetState),
    /// The GPU data of a live asset was set.
    SetGpu(Handle, Option<G>),
    /// The registry was asked, or told something of a handle that is dead.
    Nothing,
}

/// What a call makes of a registry.
pub open spec fn stepped<T, G>(
    before: RegistryModel<T, G>,
    step: RegistryStep<T, G>,
    after: RegistryModel<T, G>,
) -> bool {
    match step {
        RegistryStep::Register(h, data) => registered(before, after, h, data),
        RegistryStep::Remove(h) => before.live.contains_key(h) && h.generation < u32::MAX
            && before.version < u64::MAX && after == before.without(h),
        RegistryStep::SetState(h, state) => before.live.contains_key(h) && after
            == before.with_state(h, state),
        RegistryStep::SetGpu(h, gpu) => before.live.contains_key(h) && after == before.with_gpu(
            h,
            gpu,
        ),
        RegistryStep::Nothing => after == before,
    }
}

/// The states of a registry from when it was made, with the calls between them.
pub open spec fn history<T, G>(
    states: Seq<RegistryModel<T, G>>,
    steps: Seq<RegistryStep<T, G>>,
) -> bool {
    &&& states.len() == steps.len() + 1
    &&& states[0].live == Map::<Handle, RegistryEntry<T, G>>::empty()
    &&& states[0].generations == Seq::<u32>::empty()
    &&& states[0].free == Seq::<u32>::empty()
    &&& states[0].version == 0
    &&& forall|i: int|
        0 <= i < steps.len() ==> stepped(states[i], #[trigger] steps[i], states[i + 1])
}

/// The number of calls that registered something.
pub open spec fn registrations<T, G>(steps: Seq<RegistryStep<T, G>>) -> nat {
    steps.filter(|s: RegistryStep<T, G>| s is Register).len()
}

/// The number of calls that removed something.
pub open spec fn removals<T, G>(steps: Seq<RegistryStep<T, G>>) -> nat {
    steps.filter(|s: RegistryStep<T, G>| s is Remove).len()
}

/// The handle was returned by one of the calls.
pub open spec fn handed_out<T, G>(steps: Seq<RegistryStep<T, G>>, h: Handle) -> bool {
    exists|i: int|
        0 <= i < steps.len() && ((#[trigger] steps[i]) matches RegistryStep::Register(g, _) && g
            == h)
}

proof fn lemma_history<T, G>(states: Seq<RegistryModel<T, G>>, steps: Seq<RegistryStep<T, G>>)
    requires
        history(states, steps),
    ensures
        states.last().live.dom().finite(),
        states.last().live.dom().len() == registrations(steps) - removals(steps),
        states.last().version == registrations(steps) + removals(steps),
        forall|h: Handle| #[trigger]
            states.last().live.contains_key(h) ==> states.last().issued(h) && handed_out(steps, h),
    decreases steps.len(),
{
    let adds = |s: RegistryStep<T, G>| s is Register;
    let drops = |s: RegistryStep<T, G>| s is Remove;
    reveal(Seq::filter);
    if steps.len() == 0 {
        assert(states.last() == states[0]);
    } else {
        let step = steps.last();
        let earlier = steps.drop_last();
        let past = states.drop_last();
        assert forall|i: int| 0 <= i < earlier.len() implies stepped(
            past[i],
            #[trigger] earlier[i],
            past[i + 1],
        ) by {
            assert(stepped(states[i], steps[i], states[i + 1]));
        }
        lemma_history(past, earlier);
        let before = past.last();
        let after = states.last();
        assert(stepped(states[steps.len() - 1], steps[steps.len() - 1], states[steps.len() as int]));
        assert forall|h: Handle| handed_out(earlier, h) implies #[trigger] handed_out(
            steps,
            h,
        ) by {
            let i = choose|i: int|
                0 <= i < earlier.len() && ((#[trigger] earlier[i]) matches RegistryStep::Register(
                    g,
                    _,
                ) && g == h);
            assert(steps[i] == earlier[i]);
        }
        match step {
            RegistryStep::Register(h, _) => {
                assert(!before.live.contains_key(h));
                assert(after.live.dom() =~= before.live.dom().insert(h));
                assert(steps[steps.len() - 1] is Register);
                assert(handed_out(steps, h));
            },
            RegistryStep::Remove(h) => {
                assert(after.live.dom() =~= before.live.dom().remove(h));
            },
            RegistryStep::SetState(h, _) | RegistryStep::SetGpu(h, _) => {
                assert(after.live.dom() =~= before.live.dom());
            },
            RegistryStep::Nothing => {},
        }
        assert forall|h: Handle| #[trigger] after.live.contains_key(h) implies after.issued(h)
            && handed_out(steps, h) by {
            if before.live.contains_key(h) {
                assert(before.issued(h) && handed_out(earlier, h));
            }
        }
    }
}

/// Whatever was done to a registry, it holds as many assets as were registered less those that
/// were removed, and each of its live handles was handed out.
pub proof fn length_counts_registrations_less_removals<T, G>(
    states: Seq<RegistryModel<T, G>>,
    steps: Seq<RegistryStep<T, G>>,
)
    requires
        history(states, steps),
    ensures
        states.last().live.dom().finite(),
        states.last().live.dom().len() == registrations(steps) - removals(steps),
        forall|h: Handle| #[trigger]
            states.last().live.contains_key(h) ==> handed_out(steps, h),
{
    lemma_history(states, steps);
}

/// The version starts at zero and grows by one with every registration and every removal, and with
/// nothing else.
pub proof fn version_counts_registrations_and_removals<T, G>(
    states: Seq<RegistryModel<T, G>>,
    steps: Seq<RegistryStep<T, G>>,
)
    requires
        history(states, steps),
    ensures
        states[0].version == 0,
        states.last().version == registrations(steps) + removals(steps),
        forall|i: int|
            0 <= i < steps.len() ==> states[i + 1].version == states[i].version + (if (
            #[trigger] steps[i]) is Register || steps[i] is Remove {
                1int
            } else {
                0
            }),
{
    lemma_history(states, steps);
    assert forall|i: int| 0 <= i < steps.len() implies states[i + 1].version == states[i].version
        + (if (#[trigger] steps[i]) is Register || steps[i] is Remove {
        1int
    } else {
        0
    }) by {
        assert(stepped(states[i], steps[i], states[i + 1]));
    }
}

/// What was registered is live under its new handle, with its data, resident and not on the GPU;
/// all others stay as they were.
pub proof fn registering_is_exact<T, G>(
    before: RegistryModel<T, G>,
    after: RegistryModel<T, G>,
    h: Handle,
    data: DataSource<T>,
    other: Handle,
)
    requires
        registered(before, after, h, data),
    ensures
        after.live.contains_key(h),
        after.live[h].data == data,
        after.live[h].state == AssetState::Resident,
        after.live[h].gpu is None,
        after.version == before.version + 1,
        other != h ==> after.live.contains_key(other) == before.live.contains_key(other),
        other != h && before.live.contains_key(other) ==> after.live[other] == before.live[other],
        after.generations.len() == before.generations.len() + (if before.free.len() > 0 {
            0int
        } else {
            1int
        }),
{
}

/// Setting the state of an asset or its GPU data changes that and nothing else.
pub proof fn setting_is_exact<T, G>(
    m: RegistryModel<T, G>,
    h: Handle,
    state: AssetState,
    gpu: Option<G>,
    other: Handle,
)
    requires
        m.live.contains_key(h),
    ensures
        m.with_state(h, state).live[h].state == state,
        m.with_state(h, state).live[h].data == m.live[h].data,
        m.with_state(h, state).live[h].gpu == m.live[h].gpu,
        m.with_gpu(h, gpu).live[h].gpu == gpu,
        m.with_gpu(h, gpu).live[h].data == m.live[h].data,
        m.with_gpu(h, gpu).live[h].state == m.live[h].state,
        m.with_state(h, state).live.contains_key(other) == m.live.contains_key(other),
        m.with_gpu(h, gpu).live.contains_key(other) == m.live.contains_key(other),
        other != h && m.live.contains_key(other) ==> m.with_state(h, state).live[other]
            == m.live[other] && m.with_gpu(h, gpu).live[other] == m.live[other],
        m.with_state(h, state).version == m.version,
        m.with_gpu(h, gpu).version == m.version,
        m.with_state(h, state).generations == m.generations,
        m.with_gpu(h, gpu).generations == m.generations,
        m.with_state(h, state).free == m.free,
        m.with_gpu(h, gpu).free == m.free,
{
}

/// The slot of a removed asset is used next, with a new generation, so that its old handle stays
/// dead.
pub proof fn removed_slots_come_back_with_a_new_generation<T, G>(
    m: RegistryModel<T, G>,
    after: RegistryModel<T, G>,
    h: Handle,
    new: Handle,
    data: DataSource<T>,
)
    requires
        h.index < m.generations.len(),
        h.generation < u32::MAX,
        m.version < u64::MAX,
        registered(m.without(h), after, new, data),
    ensures
        new.index == h.index,
        new.generation == h.generation + 1,
        m.without(h).version == m.version + 1,
{
}

} // verus!
