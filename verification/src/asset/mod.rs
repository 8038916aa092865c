//! The asset library: handles, residency of data in memory, files and their entries.
use crate::game_path::{Address, GamePath};
use crate::gc::{GcInfo, GcPolicy};
use crate::handle::Handle;
use crate::lists::{differs, lemma_filter_contains, lemma_filter_distinct};
use crate::path_index::{index_with, index_without, without, FileIndex, PathSet};
use crate::resource::MergedResourceSpace;
use crate::slots::{generation_of, is_key, issued_keys, slot_values, SlotTable};
pub mod laws;
pub mod load;
pub mod pump;

use vstd::prelude::*;

verus! {

/// Where the data of an asset is.
#[derive(Clone, Copy, Debug, PartialEq, Eq, Structural)]
pub enum AssetState {
    /// Removed: the handle is dead.
    Unloaded,
    /// A placeholder whose file is still being parsed.
    Loading,
    /// The data was dropped; the file it came from is remembered.
    DiskOnly,
    /// The data is in memory.
    Resident,
    /// The data is in memory and somebody asked that it stay.
    Pinned,
}

/// What a handle is good for at the moment.
#[derive(Clone, Copy, Debug, PartialEq, Eq, Structural)]
pub enum HandleState {
    /// Its file is still being parsed.
    Loading,
    /// Its data can be used.
    Ready,
    /// Its data has to be read again.
    DiskOnly,
    /// It is dead.
    Invalid,
}

/// Counts over the whole library.
#[derive(Clone, Copy, Debug, PartialEq, Eq, Structural)]
pub struct AssetStatus {
    /// Live entries.
    pub entries: usize,
    /// Entries that are being loaded.
    pub loading: usize,
    /// Entries whose data is in memory.
    pub ready: usize,
    /// Entries whose data was dropped.
    pub disk_only: usize,
    /// Files that are being parsed in the background.
    pub in_flight: usize,
}

/// Data of an entry and where it came from.
#[derive(Debug)]
pub enum EntryData<D> {
    /// Data that was made by the program.
    Inline(D),
    /// Data out of a file, found there by `extra`; `None` where it was dropped.
    File { source: GamePath, extra: u64, data: Option<D> },
}

struct Entry<D> {
    key: u64,
    state: AssetState,
    type_tag: u64,
    gc: GcInfo,
    data: EntryData<D>,
}

/// What the library knows about one asset.
pub struct AssetRecord<D> {
    pub state: AssetState,
    /// Stands for the type of the data.
    pub type_tag: u64,
    pub gc: GcInfo,
    /// File and locator of the data, for data out of a file.
    pub origin: Option<(Address, u64)>,
    pub data: Option<D>,
}

/// The contents of the library.
#[verifier::ext_equal]
pub struct AssetModel<D> {
    /// Live assets by key.
    pub records: Map<u64, AssetRecord<D>>,
    /// Keys by file, in order of registration.
    pub files: Map<Address, Seq<u64>>,
    /// Files that can be read again.
    pub reloadable: Set<Address>,
    /// Files that are being parsed in the background.
    pub in_flight: Set<Address>,
    /// The use clock.
    pub clock: u64,
    /// Changes with every asset that comes or goes.
    pub version: u64,
}

impl<D> AssetRecord<D> {
    /// The file of the data.
    pub open spec fn source(self) -> Option<Address> {
        match self.origin {
            Some((a, _)) => Some(a),
            None => None,
        }
    }

    /// With the data dropped, if there is data out of a file.
    pub open spec fn evicted(self) -> AssetRecord<D> {
        if self.origin is Some && self.data is Some {
            AssetRecord { state: AssetState::DiskOnly, data: None, ..self }
        } else {
            self
        }
    }

    /// With the data in place.
    pub open spec fn filled(self, data: D) -> AssetRecord<D> {
        AssetRecord { state: AssetState::Resident, data: Some(data), ..self }
    }

    /// With one more pin.
    pub open spec fn pinned(self, now: u64) -> AssetRecord<D> {
        AssetRecord {
            state: AssetState::Pinned,
            gc: GcInfo { last_used: now, pins: (self.gc.pins + 1) as u32 },
            ..self
        }
    }

    /// With one pin less.
    pub open spec fn unpinned(self) -> AssetRecord<D> {
        let pins = if self.gc.pins > 0 {
            (self.gc.pins - 1) as u32
        } else {
            0u32
        };
        AssetRecord {
            state: if pins == 0 {
                AssetState::Resident
            } else {
                self.state
            },
            gc: GcInfo { last_used: self.gc.last_used, pins },
            ..self
        }
    }

    /// Used now.
    pub open spec fn touched(self, now: u64) -> AssetRecord<D> {
        AssetRecord { gc: GcInfo { last_used: now, pins: self.gc.pins }, ..self }
    }
}

impl<D> AssetModel<D> {
    /// The file index and the assets agree, nothing was used later than now, and no live asset
    /// counts as removed.
    pub open spec fn consistent(self) -> bool {
        &&& forall|a: Address| #[trigger]
            self.files.contains_key(a) ==> self.files[a].len() > 0 && self.files[a].no_duplicates()
        &&& forall|a: Address, k: u64|
            self.files.contains_key(a) && #[trigger] self.files[a].contains(k)
                ==> self.records.contains_key(k) && self.records[k].source() == Some(a)
        &&& forall|k: u64, a: Address|
            self.records.contains_key(k) && #[trigger] self.records[k].source() == Some(a)
                ==> #[trigger] self.files.contains_key(a) && self.files[a].contains(k)
        &&& forall|k: u64| #[trigger]
            self.records.contains_key(k) ==> self.records[k].gc.last_used <= self.clock
                && self.records[k].state != AssetState::Unloaded
    }

    /// There is room for `n` more assets and as many ticks of the clock.
    pub open spec fn roomy(self, n: int) -> bool {
        &&& self.records.dom().len() + n <= 0xffff_fffe
        &&& self.clock + n <= u64::MAX
        &&& self.version + n <= u64::MAX
    }

    /// The `n` entries of a file can be registered: there is room for them, or the file is known
    /// and nothing is registered.
    pub open spec fn takes(self, source: Address, n: int) -> bool {
        self.files.contains_key(source) || self.roomy(n)
    }

    /// With the record of one asset replaced.
    pub open spec fn with(self, key: u64, record: AssetRecord<D>) -> AssetModel<D> {
        AssetModel { records: self.records.insert(key, record), ..self }
    }

    /// With the clock moved on by one.
    pub open spec fn ticked(self) -> AssetModel<D> {
        AssetModel { clock: (self.clock + 1) as u64, ..self }
    }

    /// With a new asset, first used now.
    pub open spec fn registered(
        self,
        key: u64,
        state: AssetState,
        type_tag: u64,
        origin: Option<(Address, u64)>,
        data: Option<D>,
    ) -> AssetModel<D> {
        let now = (self.clock + 1) as u64;
        AssetModel {
            records: self.records.insert(
                key,
                AssetRecord {
                    state,
                    type_tag,
                    gc: GcInfo { last_used: now, pins: 0 },
                    origin,
                    data,
                },
            ),
            files: match origin {
                Some((a, _)) => index_with(self.files, a, key),
                None => self.files,
            },
            clock: now,
            version: (self.version + 1) as u64,
            ..self
        }
    }

    /// With an asset removed. A file whose last asset goes is forgotten.
    pub open spec fn removed(self, key: u64) -> AssetModel<D> {
        if !self.records.contains_key(key) {
            self
        } else {
            let rest = AssetModel {
                records: self.records.remove(key),
                version: (self.version + 1) as u64,
                ..self
            };
            match self.records[key].source() {
                None => rest,
                Some(a) => {
                    let files = index_without(self.files, a, key);
                    AssetModel {
                        files,
                        reloadable: if files.contains_key(a) {
                            self.reloadable
                        } else {
                            self.reloadable.remove(a)
                        },
                        ..rest
                    }
                },
            }
        }
    }

    /// With every record passed through a function of key and record.
    pub open spec fn mapped(
        self,
        f: spec_fn(u64, AssetRecord<D>) -> AssetRecord<D>,
    ) -> AssetModel<D> {
        AssetModel {
            records: Map::new(
                |k: u64| self.records.contains_key(k),
                |k: u64| f(k, self.records[k]),
            ),
            ..self
        }
    }
}

spec fn record_of<D>(e: Entry<D>) -> AssetRecord<D> {
    AssetRecord {
        state: e.state,
        type_tag: e.type_tag,
        gc: e.gc,
        origin: match e.data {
            EntryData::Inline(_) => None,
            EntryData::File { source, extra, data } => Some((source@, extra)),
        },
        data: match e.data {
            EntryData::Inline(d) => Some(d),
            EntryData::File { source, extra, data } => data,
        },
    }
}

/// Every live key holds the position of its entry.
spec fn aligned<D>(t: SlotTable, entries: Seq<Entry<D>>) -> bool {
    &&& forall|k: u64| #[trigger]
        slot_values(t).contains_key(k) ==> slot_values(t)[k] < entries.len()
            && entries[slot_values(t)[k] as int].key == k
    &&& forall|i: int|
        0 <= i < entries.len() ==> is_key((#[trigger] entries[i]).key) && slot_values(
            t,
        ).contains_key(entries[i].key) && slot_values(t)[entries[i].key] == i
    &&& slot_values(t).dom().subset_of(issued_keys(t))
}

spec fn records_map<D>(t: SlotTable, entries: Seq<Entry<D>>) -> Map<u64, AssetRecord<D>> {
    Map::new(
        |k: u64| slot_values(t).contains_key(k),
        |k: u64| record_of(entries[slot_values(t)[k] as int]),
    )
}

proof fn lemma_update<D>(t: SlotTable, entries: Seq<Entry<D>>, i: int, e: Entry<D>)
    requires
        aligned(t, entries),
        0 <= i < entries.len(),
        e.key == entries[i].key,
    ensures
        aligned(t, entries.update(i, e)),
        records_map(t, entries.update(i, e)) == records_map(t, entries).insert(
            e.key,
            record_of(e),
        ),
        records_map(t, entries).contains_key(e.key),
        records_map(t, entries)[e.key] == record_of(entries[i]),
{
    let new = entries.update(i, e);
    assert(slot_values(t).contains_key(entries[i].key));
    assert forall|k: u64| #[trigger] slot_values(t).contains_key(k) implies slot_values(t)[k]
        < new.len() && new[slot_values(t)[k] as int].key == k by {
        assert(entries[slot_values(t)[k] as int].key == k);
    }
    assert forall|j: int| 0 <= j < new.len() implies is_key((#[trigger] new[j]).key)
        && slot_values(t).contains_key(new[j].key) && slot_values(t)[new[j].key] == j by {
        assert(is_key(entries[j].key));
    }
    assert(records_map(t, new) =~= records_map(t, entries).insert(e.key, record_of(e)));
}

proof fn lemma_dom_len<D>(t: SlotTable, entries: Seq<Entry<D>>)
    requires
        aligned(t, entries),
    ensures
        slot_values(t).dom().finite(),
        slot_values(t).dom().len() == entries.len(),
        records_map(t, entries).dom() == slot_values(t).dom(),
{
    let keys = entries.map_values(|e: Entry<D>| e.key);
    assert(keys.no_duplicates()) by {
        assert forall|i: int, j: int| 0 <= i < keys.len() && 0 <= j < keys.len() && i != j implies keys[i]
            != keys[j] by {
            assert(slot_values(t)[entries[i].key] == i);
            assert(slot_values(t)[entries[j].key] == j);
        }
    }
    keys.unique_seq_to_set();
    assert(keys.to_set() =~= slot_values(t).dom()) by {
        assert forall|k: u64| keys.to_set().contains(k) == slot_values(t).dom().contains(k) by {
            if keys.contains(k) {
                let i = choose|i: int| 0 <= i < keys.len() && keys[i] == k;
                assert(entries[i].key == k);
            }
            if slot_values(t).contains_key(k) {
                assert(keys[slot_values(t)[k] as int] == k);
            }
        }
    }
    assert(records_map(t, entries).dom() =~= slot_values(t).dom());
}

/// The library. `D` is the type of the data, whatever it stands for; assets are told apart by
/// type tags.
pub struct AssetManager<D> {
    space: MergedResourceSpace,
    slots: SlotTable,
    entries: Vec<Entry<D>>,
    files: FileIndex,
    reloaders: PathSet,
    in_flight: PathSet,
    use_clock: u64,
    version: u64,
}

impl<D> View for AssetManager<D> {
    type V = AssetModel<D>;

    closed spec fn view(&self) -> AssetModel<D> {
        AssetModel {
            records: records_map(self.slots, self.entries@),
            files: self.files@,
            reloadable: self.reloaders@,
            in_flight: self.in_flight@,
            clock: self.use_clock,
            version: self.version,
        }
    }
}

impl<D> AssetManager<D> {
    /// The slot table and the entries fit together, and the contents are consistent.
    pub closed spec fn wf(&self) -> bool {
        aligned(self.slots, self.entries@) && self@.consistent() && self.entries@.len()
            <= 0xffff_fffe
    }

    /// The keys up to the present generation of each slot.
    pub closed spec fn issued(&self) -> Set<u64> {
        issued_keys(self.slots)
    }

    /// The resource space of the library.
    pub closed spec fn spec_space(&self) -> MergedResourceSpace {
        self.space
    }

    /// An empty library over a resource space.
    pub fn new(space: MergedResourceSpace) -> (m: AssetManager<D>)
        ensures
            m.wf(),
            m@.records =~= Map::empty(),
            m@.files =~= Map::empty(),
            m@.reloadable =~= Set::empty(),
            m@.in_flight =~= Set::empty(),
            m@.clock == 0,
            m@.version == 0,
            m.spec_space() == space,
    {
        AssetManager {
            space,
            slots: SlotTable::new(),
            entries: Vec::new(),
            files: FileIndex::new(),
            reloaders: PathSet::new(),
            in_flight: PathSet::new(),
            use_clock: 0,
            version: 0,
        }
    }

    /// The resource space.
    pub fn space(&self) -> (s: &MergedResourceSpace)
        ensures
            *s == self.spec_space(),
    {
        &self.space
    }

    /// Position of the entry of a key.
    fn find(&self, key: u64) -> (r: Option<usize>)
        requires
            aligned(self.slots, self.entries@),
        ensures
            match r {
                Some(i) => i < self.entries@.len() && self.entries@[i as int].key == key
                    && self@.records.contains_key(key) && self@.records[key] == record_of(
                    self.entries@[i as int],
                ),
                None => !self@.records.contains_key(key),
            },
    {
        proof {
            if slot_values(self.slots).contains_key(key) {
                let i = slot_values(self.slots)[key];
                assert(is_key(self.entries@[i as int].key));
            }
        }
        self.slots.find(key)
    }

    fn register_with_source(
        &mut self,
        state: AssetState,
        type_tag: u64,
        data: EntryData<D>,
    ) -> (key: u64)
        requires
            old(self).wf(),
            old(self)@.roomy(1),
            state != AssetState::Unloaded,
        ensures
            final(self).wf(),
            !old(self).issued().contains(key),
            !old(self)@.records.contains_key(key),
            final(self).issued() == old(self).issued().insert(key),
            final(self).spec_space() == old(self).spec_space(),
            final(self)@ == old(self)@.registered(
                key,
                state,
                type_tag,
                origin_of(data),
                data_of(data),
            ),
    {
        proof {
            lemma_dom_len(self.slots, self.entries@);
        }
        let ghost t0 = self.slots;
        let ghost es0 = self.entries@;
        let ghost before = self@;
        let ghost origin = origin_of(data);
        let ghost content = data_of(data);
        self.use_clock = self.use_clock + 1;
        let n = self.entries.len();
        let key = self.slots.insert(n);
        match &data {
            EntryData::File { source, .. } => {
                self.files.push(source.clone(), key);
            },
            EntryData::Inline(_) => {},
        }
        let gc = GcInfo { last_used: self.use_clock, pins: 0 };
        let entry = Entry { key, state, type_tag, gc, data };
        self.entries.push(entry);
        self.version = self.version + 1;
        proof {
            lemma_push(t0, self.slots, es0, entry);
            assert(self@ =~= before.registered(key, state, type_tag, origin, content));
            lemma_registered(before, key, state, type_tag, origin, content);
        }
        key
    }
}

pub open spec fn origin_of<D>(data: EntryData<D>) -> Option<(Address, u64)> {
    match data {
        EntryData::Inline(_) => None,
        EntryData::File { source, extra, data } => Some((source@, extra)),
    }
}

pub open spec fn data_of<D>(data: EntryData<D>) -> Option<D> {
    match data {
        EntryData::Inline(d) => Some(d),
        EntryData::File { source, extra, data } => data,
    }
}

proof fn lemma_registered<D>(
    m: AssetModel<D>,
    key: u64,
    state: AssetState,
    type_tag: u64,
    origin: Option<(Address, u64)>,
    data: Option<D>,
)
    requires
        m.consistent(),
        !m.records.contains_key(key),
        m.clock < u64::MAX,
        state != AssetState::Unloaded,
    ensures
        m.registered(key, state, type_tag, origin, data).consistent(),
{
    let n = m.registered(key, state, type_tag, origin, data);
    match origin {
        None => {
            assert forall|a: Address, k: u64|
                n.files.contains_key(a) && #[trigger] n.files[a].contains(
                    k,
                ) implies n.records.contains_key(k) && n.records[k].source() == Some(a) by {
                assert(m.files[a].contains(k));
            }
            assert forall|k: u64, a: Address|
                n.records.contains_key(k) && #[trigger] n.records[k].source() == Some(
                    a,
                ) implies #[trigger] n.files.contains_key(a) && n.files[a].contains(k) by {
                assert(m.records[k].source() == Some(a));
                assert(m.files.contains_key(a));
            }
        },
        Some((s, x)) => {
            let old_keys = if m.files.contains_key(s) {
                m.files[s]
            } else {
                seq![]
            };
            let keys = old_keys.push(key);
            assert(n.files[s] =~= keys);
            assert(!old_keys.contains(key)) by {
                if m.files.contains_key(s) && m.files[s].contains(key) {
                    assert(m.records.contains_key(key));
                }
            }
            assert(keys.no_duplicates()) by {
                assert forall|i: int, j: int|
                    0 <= i < keys.len() && 0 <= j < keys.len() && i != j implies keys[i]
                    != keys[j] by {
                    if i < old_keys.len() {
                        assert(old_keys.contains(old_keys[i]));
                    }
                    if j < old_keys.len() {
                        assert(old_keys.contains(old_keys[j]));
                    }
                }
            }
            assert forall|a: Address, k: u64|
                n.files.contains_key(a) && #[trigger] n.files[a].contains(
                    k,
                ) implies n.records.contains_key(k) && n.records[k].source() == Some(a) by {
                if a == s {
                    let i = choose|i: int| 0 <= i < keys.len() && keys[i] == k;
                    if i < old_keys.len() {
                        assert(old_keys.contains(old_keys[i]));
                        assert(m.files[a].contains(k));
                    }
                } else {
                    assert(m.files[a].contains(k));
                }
            }
            assert forall|k: u64, a: Address|
                n.records.contains_key(k) && #[trigger] n.records[k].source() == Some(
                    a,
                ) implies #[trigger] n.files.contains_key(a) && n.files[a].contains(k) by {
                if k == key {
                    assert(keys[keys.len() - 1] == key);
                } else {
                    assert(m.records[k].source() == Some(a));
                    assert(m.files.contains_key(a));
                    assert(m.files[a].contains(k));
                    if a == s {
                        let i = choose|i: int| 0 <= i < old_keys.len() && old_keys[i] == k;
                        assert(keys[i] == k);
                    }
                }
            }
        },
    }
    assert forall|k: u64| #[trigger] n.records.contains_key(k) implies n.records[k].gc.last_used
        <= n.clock && n.records[k].state != AssetState::Unloaded by {
        if k != key {
            assert(m.records.contains_key(k));
        }
    }
}

/// Replacing the record of an asset keeps the library consistent where neither file nor clock
/// speak against it.
proof fn lemma_with<D>(m: AssetModel<D>, key: u64, r: AssetRecord<D>)
    requires
        m.consistent(),
        m.records.contains_key(key),
        r.source() == m.records[key].source(),
        r.gc.last_used <= m.clock,
        r.state != AssetState::Unloaded,
    ensures
        m.with(key, r).consistent(),
{
    let n = m.with(key, r);
    assert forall|a: Address, k: u64|
        n.files.contains_key(a) && #[trigger] n.files[a].contains(k) implies n.records.contains_key(
        k,
    ) && n.records[k].source() == Some(a) by {
        assert(m.files[a].contains(k));
    }
    assert forall|k: u64, a: Address|
        n.records.contains_key(k) && #[trigger] n.records[k].source() == Some(a) implies #[trigger] n.files.contains_key(
        a,
    ) && n.files[a].contains(k) by {
        assert(m.records[k].source() == Some(a));
        assert(m.files.contains_key(a));
    }
    assert forall|k: u64| #[trigger] n.records.contains_key(k) implies n.records[k].gc.last_used
        <= n.clock && n.records[k].state != AssetState::Unloaded by {
        assert(m.records.contains_key(k));
    }
}

proof fn lemma_ticked<D>(m: AssetModel<D>)
    requires
        m.consistent(),
        m.clock < u64::MAX,
    ensures
        m.ticked().consistent(),
{
    let n = m.ticked();
    assert forall|a: Address, k: u64|
        n.files.contains_key(a) && #[trigger] n.files[a].contains(k) implies n.records.contains_key(
        k,
    ) && n.records[k].source() == Some(a) by {
        assert(m.files[a].contains(k));
    }
    assert forall|k: u64, a: Address|
        n.records.contains_key(k) && #[trigger] n.records[k].source() == Some(a) implies #[trigger] n.files.contains_key(
        a,
    ) && n.files[a].contains(k) by {
        assert(m.records[k].source() == Some(a));
        assert(m.files.contains_key(a));
    }
    assert forall|k: u64| #[trigger] n.records.contains_key(k) implies n.records[k].gc.last_used
        <= n.clock && n.records[k].state != AssetState::Unloaded by {
        assert(m.records.contains_key(k));
    }
}

proof fn lemma_without(s: Seq<u64>, x: u64)
    ensures
        forall|y: u64| #[trigger] without(s, x).contains(y) <==> s.contains(y) && y != x,
        s.no_duplicates() ==> without(s, x).no_duplicates(),
{
    lemma_filter_contains(s, differs(x));
    if s.no_duplicates() {
        lemma_filter_distinct(s, differs(x));
    }
}

proof fn lemma_removed<D>(m: AssetModel<D>, key: u64)
    requires
        m.consistent(),
    ensures
        m.removed(key).consistent(),
{
    if m.records.contains_key(key) {
        let n = m.removed(key);
        let src = m.records[key].source();
        if src is Some {
            assert(m.files.contains_key(src->0));
            lemma_without(m.files[src->0], key);
            let w = without(m.files[src->0], key);
            assert(w.len() == 0 ==> forall|y: u64| !w.contains(y));
        }
        assert forall|a: Address| #[trigger] n.files.contains_key(a) implies n.files[a].len() > 0
            && n.files[a].no_duplicates() by {
            assert(m.files.contains_key(a));
        }
        assert forall|a: Address, k: u64|
            n.files.contains_key(a) && #[trigger] n.files[a].contains(
                k,
            ) implies n.records.contains_key(k) && n.records[k].source() == Some(a) by {
            assert(m.files.contains_key(a));
            assert(m.files[a].contains(k));
            if src != Some(a) {
                assert(k != key);
            }
        }
        assert forall|k: u64, a: Address|
            n.records.contains_key(k) && #[trigger] n.records[k].source() == Some(
                a,
            ) implies #[trigger] n.files.contains_key(a) && n.files[a].contains(k) by {
            assert(m.records[k].source() == Some(a));
            assert(m.files.contains_key(a));
            assert(m.files[a].contains(k));
            if src == Some(a) {
                assert(without(m.files[a], key).contains(k));
            }
        }
        assert forall|k: u64| #[trigger] n.records.contains_key(k) implies n.records[k].gc.last_used
            <= n.clock && n.records[k].state != AssetState::Unloaded by {
            assert(m.records.contains_key(k));
        }
    }
}

proof fn lemma_push<D>(t0: SlotTable, t1: SlotTable, entries: Seq<Entry<D>>, e: Entry<D>)
    requires
        aligned(t0, entries),
        entries.len() <= usize::MAX,
        is_key(e.key),
        !issued_keys(t0).contains(e.key),
        slot_values(t1) == slot_values(t0).insert(e.key, entries.len() as usize),
        issued_keys(t1) == issued_keys(t0).insert(e.key),
    ensures
        aligned(t1, entries.push(e)),
        records_map(t1, entries.push(e)) == records_map(t0, entries).insert(e.key, record_of(e)),
        !records_map(t0, entries).contains_key(e.key),
{
    let new = entries.push(e);
    assert(!slot_values(t0).contains_key(e.key));
    assert forall|k: u64| #[trigger] slot_values(t1).contains_key(k) implies slot_values(t1)[k]
        < new.len() && new[slot_values(t1)[k] as int].key == k by {
        if k != e.key {
            assert(slot_values(t0).contains_key(k));
            assert(entries[slot_values(t0)[k] as int].key == k);
        }
    }
    assert forall|j: int| 0 <= j < new.len() implies is_key((#[trigger] new[j]).key)
        && slot_values(t1).contains_key(new[j].key) && slot_values(t1)[new[j].key] == j by {
        if j < entries.len() {
            assert(is_key(entries[j].key));
            assert(slot_values(t0).contains_key(entries[j].key));
        }
    }
    assert(records_map(t1, new) =~= records_map(t0, entries).insert(e.key, record_of(e))) by {
        assert forall|k: u64| #[trigger] slot_values(t0).contains_key(k) implies new[slot_values(
            t0,
        )[k] as int] == entries[slot_values(t0)[k] as int] by {}
    }
}

impl<D> AssetManager<D> {
    /// Registers data that the program made.
    pub fn register(&mut self, type_tag: u64, data: D) -> (h: Handle)
        requires
            old(self).wf(),
            old(self)@.roomy(1),
        ensures
            final(self).wf(),
            !old(self).issued().contains(h.spec_key()),
            final(self).issued() == old(self).issued().insert(h.spec_key()),
            final(self).spec_space() == old(self).spec_space(),
            final(self)@ == old(self)@.registered(
                h.spec_key(),
                AssetState::Resident,
                type_tag,
                None,
                Some(data),
            ),
    {
        let key = self.register_with_source(
            AssetState::Resident,
            type_tag,
            EntryData::Inline(data),
        );
        Handle::from_key(key)
    }

    /// Registers data out of a file.
    pub fn register_file(&mut self, source: GamePath, type_tag: u64, extra: u64, data: D) -> (h:
        Handle)
        requires
            old(self).wf(),
            old(self)@.roomy(1),
        ensures
            final(self).wf(),
            !old(self).issued().contains(h.spec_key()),
            final(self).issued() == old(self).issued().insert(h.spec_key()),
            final(self).spec_space() == old(self).spec_space(),
            final(self)@ == old(self)@.registered(
                h.spec_key(),
                AssetState::Resident,
                type_tag,
                Some((source@, extra)),
                Some(data),
            ),
    {
        let key = self.register_with_source(
            AssetState::Resident,
            type_tag,
            EntryData::File { source, extra, data: Some(data) },
        );
        Handle::from_key(key)
    }

    /// Registers a placeholder for data that is still being parsed.
    fn register_pending(&mut self, source: GamePath, type_tag: u64, extra: u64) -> (h: Handle)
        requires
            old(self).wf(),
            old(self)@.roomy(1),
        ensures
            final(self).wf(),
            !old(self).issued().contains(h.spec_key()),
            final(self).issued() == old(self).issued().insert(h.spec_key()),
            final(self).spec_space() == old(self).spec_space(),
            final(self)@ == old(self)@.registered(
                h.spec_key(),
                AssetState::Loading,
                type_tag,
                Some((source@, extra)),
                None,
            ),
    {
        let key = self.register_with_source(
            AssetState::Loading,
            type_tag,
            EntryData::File { source, extra, data: None },
        );
        Handle::from_key(key)
    }

    /// Whether the handle is alive.
    pub fn is_valid(&self, handle: Handle) -> (b: bool)
        requires
            self.wf(),
        ensures
            b == self@.records.contains_key(handle.spec_key()),
    {
        self.find(handle.key()).is_some()
    }

    /// Where the data of the asset is.
    pub fn state(&self, handle: Handle) -> (r: Option<AssetState>)
        requires
            self.wf(),
        ensures
            r == (if self@.records.contains_key(handle.spec_key()) {
                Some(self@.records[handle.spec_key()].state)
            } else {
                None
            }),
    {
        match self.find(handle.key()) {
            Some(i) => Some(self.entries[i].state),
            None => None,
        }
    }

    /// What the handle is good for.
    pub fn handle_state(&self, handle: Handle) -> (r: HandleState)
        requires
            self.wf(),
        ensures
            r == (if self@.records.contains_key(handle.spec_key()) {
                match self@.records[handle.spec_key()].state {
                    AssetState::Loading => HandleState::Loading,
                    AssetState::Resident => HandleState::Ready,
                    AssetState::Pinned => HandleState::Ready,
                    AssetState::DiskOnly => HandleState::DiskOnly,
                    AssetState::Unloaded => HandleState::Invalid,
                }
            } else {
                HandleState::Invalid
            }),
    {
        match self.state(handle) {
            Some(AssetState::Loading) => HandleState::Loading,
            Some(AssetState::Resident) | Some(AssetState::Pinned) => HandleState::Ready,
            Some(AssetState::DiskOnly) => HandleState::DiskOnly,
            _ => HandleState::Invalid,
        }
    }

    /// The data of the asset, where it is in memory.
    pub fn get_cached(&self, handle: Handle) -> (r: Option<&D>)
        requires
            self.wf(),
        ensures
            match r {
                Some(d) => self@.records.contains_key(handle.spec_key())
                    && self@.records[handle.spec_key()].data == Some(*d),
                None => !self@.records.contains_key(handle.spec_key())
                    || self@.records[handle.spec_key()].data is None,
            },
    {
        match self.find(handle.key()) {
            Some(i) => match &self.entries[i].data {
                EntryData::Inline(d) => Some(d),
                EntryData::File { data, .. } => data.as_ref(),
            },
            None => None,
        }
    }

    /// Data and origin of the asset.
    pub fn data_source(&self, handle: Handle) -> (r: Option<&EntryData<D>>)
        requires
            self.wf(),
        ensures
            match r {
                Some(d) => self@.records.contains_key(handle.spec_key())
                    && self@.records[handle.spec_key()].origin == origin_of(*d)
                    && self@.records[handle.spec_key()].data == data_of(*d),
                None => !self@.records.contains_key(handle.spec_key()),
            },
    {
        match self.find(handle.key()) {
            Some(i) => Some(&self.entries[i].data),
            None => None,
        }
    }

    /// The file of the asset; data made by the program has none.
    pub fn source_of(&self, handle: Handle) -> (r: Option<&GamePath>)
        requires
            self.wf(),
        ensures
            match r {
                Some(p) => self@.records.contains_key(handle.spec_key())
                    && self@.records[handle.spec_key()].source() == Some(p@),
                None => !self@.records.contains_key(handle.spec_key())
                    || self@.records[handle.spec_key()].source() is None,
            },
    {
        match self.data_source(handle) {
            Some(EntryData::File { source, .. }) => Some(source),
            _ => None,
        }
    }

    /// Asks that the data stay in memory; each call counts and has to be undone by `unpin`.
    pub fn pin(&mut self, handle: Handle) -> (b: bool)
        requires
            old(self).wf(),
            old(self)@.clock < u64::MAX,
            old(self)@.records.contains_key(handle.spec_key())
                ==> old(self)@.records[handle.spec_key()].gc.pins < u32::MAX,
        ensures
            final(self).wf(),
            b == old(self)@.records.contains_key(handle.spec_key()),
            final(self).issued() == old(self).issued(),
            final(self).spec_space() == old(self).spec_space(),
            final(self)@ == (if b {
                old(self)@.ticked().with(
                    handle.spec_key(),
                    old(self)@.records[handle.spec_key()].pinned((old(self)@.clock + 1) as u64),
                )
            } else {
                old(self)@.ticked()
            }),
    {
        let ghost before = self@;
        proof {
            lemma_ticked(before);
        }
        self.use_clock = self.use_clock + 1;
        let now = self.use_clock;
        let found = self.find(handle.key());
        match found {
            None => {
                proof {
                    assert(self@ =~= before.ticked());
                }
                false
            },
            Some(i) => {
                let ghost es = self.entries@;
                let pins = self.entries[i].gc.pins;
                self.entries[i].gc = GcInfo { last_used: now, pins: pins + 1 };
                self.entries[i].state = AssetState::Pinned;
                proof {
                    let e = self.entries@[i as int];
                    assert(self.entries@ =~= es.update(i as int, e));
                    lemma_update(self.slots, es, i as int, e);
                    let r = before.records[handle.spec_key()].pinned(now);
                    assert(self@ =~= before.ticked().with(handle.spec_key(), r));
                    lemma_with(before.ticked(), handle.spec_key(), r);
                }
                true
            },
        }
    }

    /// Takes back one `pin`; without pins the data may be dropped again.
    pub fn unpin(&mut self, handle: Handle) -> (b: bool)
        requires
            old(self).wf(),
        ensures
            final(self).wf(),
            b == old(self)@.records.contains_key(handle.spec_key()),
            final(self).issued() == old(self).issued(),
            final(self).spec_space() == old(self).spec_space(),
            final(self)@ == (if b {
                old(self)@.with(
                    handle.spec_key(),
                    old(self)@.records[handle.spec_key()].unpinned(),
                )
            } else {
                old(self)@
            }),
    {
        let ghost before = self@;
        let found = self.find(handle.key());
        match found {
            None => false,
            Some(i) => {
                let ghost es = self.entries@;
                let gc = self.entries[i].gc;
                let pins: u32 = gc.pins.saturating_sub(1);
                self.entries[i].gc = GcInfo { last_used: gc.last_used, pins };
                if pins == 0 {
                    self.entries[i].state = AssetState::Resident;
                }
                proof {
                    let e = self.entries@[i as int];
                    assert(self.entries@ =~= es.update(i as int, e));
                    lemma_update(self.slots, es, i as int, e);
                    let r = before.records[handle.spec_key()].unpinned();
                    assert(self@ =~= before.with(handle.spec_key(), r));
                    assert(before.records.contains_key(handle.spec_key()));
                    lemma_with(before, handle.spec_key(), r);
                }
                true
            },
        }
    }

    /// Moves the use clock on to `now`, where it is not that far yet. A library whose clock follows
    /// the time measures the windows of a policy in time.
    pub fn advance_clock(&mut self, now: u64)
        requires
            old(self).wf(),
        ensures
            final(self).wf(),
            final(self).issued() == old(self).issued(),
            final(self).spec_space() == old(self).spec_space(),
            final(self)@ == (AssetModel {
                clock: if now > old(self)@.clock {
                    now
                } else {
                    old(self)@.clock
                },
                ..old(self)@
            }),
    {
        let ghost before = self@;
        if now > self.use_clock {
            self.use_clock = now;
            proof {
                assert(self@ =~= AssetModel { clock: now, ..before });
                assert forall|k: u64| #[trigger] self@.records.contains_key(k) implies
                    self@.records[k].gc.last_used <= self@.clock by {
                    assert(before.records[k].gc.last_used <= before.clock);
                }
            }
        }
    }

    /// Whether the asset has a pin.
    pub fn pinned(&self, handle: Handle) -> (b: bool)
        requires
            self.wf(),
        ensures
            b == (self@.records.contains_key(handle.spec_key())
                && self@.records[handle.spec_key()].gc.pins > 0),
    {
        match self.find(handle.key()) {
            Some(i) => self.entries[i].gc.pins > 0,
            None => false,
        }
    }

    /// How often the asset is pinned; zero where the handle is dead.
    pub fn pin_count(&self, handle: Handle) -> (n: u32)
        requires
            self.wf(),
        ensures
            n == (if self@.records.contains_key(handle.spec_key()) {
                self@.records[handle.spec_key()].gc.pins
            } else {
                0
            }),
    {
        match self.find(handle.key()) {
            Some(i) => self.entries[i].gc.pins,
            None => 0,
        }
    }

    /// The clock of use.
    pub fn clock(&self) -> (t: u64)
        ensures
            t == self@.clock,
    {
        self.use_clock
    }

    /// Number of changes so far.
    pub fn version(&self) -> (v: u64)
        ensures
            v == self@.version,
    {
        self.version
    }

    /// Number of live assets.
    pub fn len(&self) -> (n: usize)
        requires
            self.wf(),
        ensures
            n == self@.records.dom().len(),
            n <= 0xffff_fffe,
            self@.records.dom().finite(),
    {
        proof {
            lemma_dom_len(self.slots, self.entries@);
        }
        self.entries.len()
    }

    /// Whether there is no live asset.
    pub fn is_empty(&self) -> (b: bool)
        requires
            self.wf(),
        ensures
            b == (self@.records.dom().len() == 0),
    {
        self.len() == 0
    }

    /// Number of live assets out of a file.
    pub fn file_refs(&self, source: &GamePath) -> (n: usize)
        ensures
            n == (if self@.files.contains_key(source@) {
                self@.files[source@].len()
            } else {
                0
            }),
    {
        self.files.keys_of(source).len()
    }

    /// Whether no asset came out of a file.
    pub fn has_no_files(&self) -> (b: bool)
        ensures
            b == (self@.files =~= Map::empty()),
    {
        self.files.is_empty()
    }

    /// Notes that a file can be read again.
    pub fn set_file_reloader(&mut self, source: GamePath)
        requires
            old(self).wf(),
        ensures
            final(self).wf(),
            final(self).issued() == old(self).issued(),
            final(self).spec_space() == old(self).spec_space(),
            final(self)@ == (AssetModel {
                reloadable: old(self)@.reloadable.insert(source@),
                ..old(self)@
            }),
    {
        let ghost before = self@;
        self.reloaders.insert(source);
        proof {
            lemma_reloadable(before, self@);
        }
    }

    /// Whether a file can be read again.
    pub fn has_reloader(&self, source: &GamePath) -> (b: bool)
        ensures
            b == self@.reloadable.contains(source@),
    {
        self.reloaders.contains(source)
    }
}

proof fn lemma_reloadable<D>(m: AssetModel<D>, n: AssetModel<D>)
    requires
        m.consistent(),
        n.records == m.records,
        n.files == m.files,
        n.clock == m.clock,
    ensures
        n.consistent(),
{
    assert forall|a: Address, k: u64|
        n.files.contains_key(a) && #[trigger] n.files[a].contains(k) implies n.records.contains_key(
        k,
    ) && n.records[k].source() == Some(a) by {
        assert(m.files[a].contains(k));
    }
    assert forall|k: u64, a: Address|
        n.records.contains_key(k) && #[trigger] n.records[k].source() == Some(a) implies #[trigger] n.files.contains_key(
        a,
    ) && n.files[a].contains(k) by {
        assert(m.records[k].source() == Some(a));
        assert(m.files.contains_key(a));
    }
    assert forall|k: u64| #[trigger] n.records.contains_key(k) implies n.records[k].gc.last_used
        <= n.clock && n.records[k].state != AssetState::Unloaded by {
        assert(m.records.contains_key(k));
    }
}

/// What has to happen before the data of a handle can be used.
#[derive(Debug)]
pub enum Access {
    /// Nothing: the data is there.
    Ready,
    /// The file is still being parsed: wait, then ask again.
    Wait,
    /// The data has to be parsed out of its file once more.
    Reload { source: GamePath, type_tag: u64, extra: u64 },
    /// The handle is dead, or its data is gone for good.
    Missing,
}

/// The way to the data of a record.
pub open spec fn access_of<D>(m: AssetModel<D>, key: u64) -> Option<Option<(Address, u64, u64)>> {
    if !m.records.contains_key(key) {
        None
    } else if m.records[key].data is Some {
        Some(None)
    } else {
        match m.records[key].origin {
            Some((a, x)) => if m.reloadable.contains(a) {
                Some(Some((a, m.records[key].type_tag, x)))
            } else {
                None
            },
            None => None,
        }
    }
}

/// After a file was parsed again for a record that had to be reloaded: the record holds what was
/// found in it. Where nothing was found nothing changes.
pub open spec fn reload_finished<D>(m: AssetModel<D>, key: u64, reloaded: Option<D>) -> AssetModel<
    D,
> {
    match (access_of(m, key), reloaded) {
        (Some(Some(_)), Some(data)) => m.with(key, m.records[key].filled(data)),
        _ => m,
    }
}

/// What there is to get of a record: its data, where it is in memory.
pub open spec fn got<D>(m: AssetModel<D>, key: u64) -> Option<D> {
    if m.records.contains_key(key) {
        m.records[key].data
    } else {
        None
    }
}

/// After the data of a record was got: it counts as used now. Where there was nothing to get
/// nothing changes.
pub open spec fn after_get<D>(m: AssetModel<D>, key: u64) -> AssetModel<D> {
    if got(m, key) is Some {
        m.ticked().with(key, m.records[key].touched((m.clock + 1) as u64))
    } else {
        m
    }
}

proof fn lemma_swap_remove<D>(
    t0: SlotTable,
    t1: SlotTable,
    entries: Seq<Entry<D>>,
    new: Seq<Entry<D>>,
    i: int,
)
    requires
        aligned(t0, entries),
        0 <= i < entries.len(),
        entries.len() <= usize::MAX,
        new == entries.update(i, entries.last()).drop_last(),
        slot_values(t1) == (if i < entries.len() - 1 {
            slot_values(t0).remove(entries[i].key).insert(entries.last().key, i as usize)
        } else {
            slot_values(t0).remove(entries[i].key)
        }),
        slot_values(t1).dom().subset_of(issued_keys(t1)),
    ensures
        aligned(t1, new),
        records_map(t1, new) == records_map(t0, entries).remove(entries[i].key),
{
    let last = entries.len() - 1;
    let key = entries[i].key;
    assert(slot_values(t0).contains_key(entries[i].key) && slot_values(t0)[entries[i].key] == i);
    assert(slot_values(t0).contains_key(entries[last].key) && slot_values(t0)[entries[last].key]
        == last);
    assert forall|k: u64| #[trigger] slot_values(t1).contains_key(k) implies slot_values(t1)[k]
        < new.len() && new[slot_values(t1)[k] as int].key == k && slot_values(t0).contains_key(k)
        && k != key && new[slot_values(t1)[k] as int] == entries[slot_values(t0)[k] as int] by {
        if i < last && k == entries[last].key {
        } else {
            assert(slot_values(t0).contains_key(k));
            assert(entries[slot_values(t0)[k] as int].key == k);
        }
    }
    assert forall|j: int| 0 <= j < new.len() implies is_key((#[trigger] new[j]).key)
        && slot_values(t1).contains_key(new[j].key) && slot_values(t1)[new[j].key] == j by {
        if j == i {
            assert(is_key(entries[last].key));
        } else {
            assert(is_key(entries[j].key));
            assert(slot_values(t0)[entries[j].key] == j);
        }
    }
    assert(records_map(t1, new) =~= records_map(t0, entries).remove(key));
}

impl<D> AssetManager<D> {
    /// Removes an asset; its handle dies.
    pub fn remove(&mut self, handle: Handle) -> (r: Option<EntryData<D>>)
        requires
            old(self).wf(),
            old(self)@.records.contains_key(handle.spec_key()) ==> old(self)@.version
                < u64::MAX,
        ensures
            final(self).wf(),
            final(self)@ == old(self)@.removed(handle.spec_key()),
            match r {
                Some(d) => old(self)@.records.contains_key(handle.spec_key())
                    && old(self)@.records[handle.spec_key()].origin == origin_of(d)
                    && old(self)@.records[handle.spec_key()].data == data_of(d),
                None => !old(self)@.records.contains_key(handle.spec_key()),
            },
            final(self).spec_space() == old(self).spec_space(),
            generation_of(handle.spec_key()) < 0xffff_ffff ==> final(self).issued() == old(
                self,
            ).issued(),
    {
        self.remove_key(handle.key())
    }

    fn remove_key(&mut self, key: u64) -> (r: Option<EntryData<D>>)
        requires
            old(self).wf(),
            old(self)@.records.contains_key(key) ==> old(self)@.version < u64::MAX,
        ensures
            final(self).wf(),
            final(self)@ == old(self)@.removed(key),
            match r {
                Some(d) => old(self)@.records.contains_key(key) && old(self)@.records[key].origin
                    == origin_of(d) && old(self)@.records[key].data == data_of(d),
                None => !old(self)@.records.contains_key(key),
            },
            final(self).spec_space() == old(self).spec_space(),
            generation_of(key) < 0xffff_ffff ==> final(self).issued() == old(self).issued(),
    {
        let ghost before = self@;
        let ghost t0 = self.slots;
        let ghost es = self.entries@;
        let i = match self.find(key) {
            Some(i) => i,
            None => {
                return None;
            },
        };
        proof {
            lemma_removed(before, key);
            assert(is_key(es[i as int].key));
        }
        let last = self.entries.len() - 1;
        self.slots.remove(key);
        let entry = self.entries.swap_remove(i);
        if i < last {
            let moved = self.entries[i].key;
            proof {
                assert(moved == es[last as int].key);
                assert(is_key(es[last as int].key));
                assert(slot_values(t0)[es[last as int].key] == last);
                assert(slot_values(t0)[es[i as int].key] == i);
            }
            self.slots.set(moved, i);
            proof {
                assert(slot_values(self.slots).dom() =~= slot_values(t0).remove(key).dom());
            }
        }
        proof {
            assert(self.entries@ =~= es.update(i as int, es.last()).drop_last());
            lemma_swap_remove(t0, self.slots, es, self.entries@, i as int);
        }
        match &entry.data {
            EntryData::File { source, .. } => {
                let gone = self.files.remove_key(source, key);
                proof {
                    assert(before.records[key].source() == Some(source@));
                    assert(before.files.contains_key(source@));
                }
                if gone {
                    self.reloaders.remove(source);
                }
            },
            EntryData::Inline(_) => {},
        }
        self.version = self.version + 1;
        proof {
            assert(self@ =~= before.removed(key));
        }
        Some(entry.data)
    }

    /// What has to happen before the data of the handle can be used.
    pub fn access(&self, handle: Handle) -> (r: Access)
        requires
            self.wf(),
        ensures
            ({
                let key = handle.spec_key();
                let loading = self@.records.contains_key(key) && self@.records[key].state
                    == AssetState::Loading;
                match r {
                    Access::Wait => loading,
                    Access::Ready => !loading && access_of(self@, key) == Some(
                        None::<(Address, u64, u64)>,
                    ),
                    Access::Reload { source, type_tag, extra } => !loading && access_of(self@, key)
                        == Some(Some((source@, type_tag, extra))),
                    Access::Missing => !loading && access_of(self@, key) is None,
                }
            }),
    {
        match self.find(handle.key()) {
            None => Access::Missing,
            Some(i) => {
                if self.entries[i].state == AssetState::Loading {
                    return Access::Wait;
                }
                match &self.entries[i].data {
                    EntryData::Inline(_) => Access::Ready,
                    EntryData::File { source, extra, data } => {
                        if data.is_some() {
                            Access::Ready
                        } else if self.reloaders.contains(source) {
                            Access::Reload {
                                source: source.clone(),
                                type_tag: self.entries[i].type_tag,
                                extra: *extra,
                            }
                        } else {
                            Access::Missing
                        }
                    },
                }
            },
        }
    }

    /// Takes in the data that was parsed again for a handle; `None` where the file could not be
    /// parsed or lacks the entry. The file stays readable then, so that it can be tried again.
    pub fn finish_reload(&mut self, handle: Handle, reloaded: Option<D>)
        requires
            old(self).wf(),
        ensures
            final(self).wf(),
            final(self).issued() == old(self).issued(),
            final(self).spec_space() == old(self).spec_space(),
            final(self)@ == reload_finished(old(self)@, handle.spec_key(), reloaded),
    {
        let ghost before = self@;
        let i = match self.find(handle.key()) {
            Some(i) => i,
            None => {
                return;
            },
        };
        match &self.entries[i].data {
            EntryData::Inline(_) => {
                return;
            },
            EntryData::File { source, data, .. } => {
                if data.is_some() || !self.reloaders.contains(source) {
                    return;
                }
            },
        }
        match reloaded {
            None => {},
            Some(data) => {
                self.set_file_data(i, data);
                proof {
                    let r = before.records[handle.spec_key()].filled(data);
                    assert(self@ =~= before.with(handle.spec_key(), r));
                }
            },
        }
    }

    /// Puts data into the file entry at a position.
    fn set_file_data(&mut self, i: usize, data: D)
        requires
            old(self).wf(),
            i < old(self).entries@.len(),
            old(self).entries@[i as int].data is File,
        ensures
            final(self).wf(),
            final(self).slots == old(self).slots,
            final(self).spec_space() == old(self).spec_space(),
            final(self)@ == old(self)@.with(
                old(self).entries@[i as int].key,
                record_of(old(self).entries@[i as int]).filled(data),
            ),
    {
        let ghost before = self@;
        let ghost es = self.entries@;
        let ghost e0 = es[i as int];
        self.entries[i].state = AssetState::Resident;
        match &mut self.entries[i].data {
            EntryData::File { data: place, .. } => {
                *place = Some(data);
            },
            EntryData::Inline(_) => {},
        }
        proof {
            let e = self.entries@[i as int];
            assert(self.entries@ =~= es.update(i as int, e));
            lemma_update(self.slots, es, i as int, e);
            let r = record_of(e0).filled(data);
            assert(record_of(e) == r);
            assert(self@ =~= before.with(e0.key, r));
            lemma_with(before, e0.key, r);
        }
    }

    /// The data of an asset that is in memory; it counts as used now.
    pub fn get(&mut self, handle: Handle) -> (r: Option<&D>)
        requires
            old(self).wf(),
            got(old(self)@, handle.spec_key()) is Some ==> old(self)@.clock < u64::MAX,
        ensures
            final(self).wf(),
            final(self).issued() == old(self).issued(),
            final(self).spec_space() == old(self).spec_space(),
            (match r {
                Some(d) => Some(*d),
                None => None,
            }) == got(old(self)@, handle.spec_key()),
            final(self)@ == after_get(old(self)@, handle.spec_key()),
    {
        let ghost before = self@;
        let found = self.find(handle.key());
        match found {
            None => None,
            Some(i) => {
                let present = match &self.entries[i].data {
                    EntryData::Inline(_) => true,
                    EntryData::File { data, .. } => data.is_some(),
                };
                if !present {
                    return None;
                }
                proof {
                    lemma_ticked(before);
                }
                self.use_clock = self.use_clock + 1;
                let ghost es = self.entries@;
                let now = self.use_clock;
                let pins = self.entries[i].gc.pins;
                self.entries[i].gc = GcInfo { last_used: now, pins };
                proof {
                    let e = self.entries@[i as int];
                    assert(self.entries@ =~= es.update(i as int, e));
                    lemma_update(self.slots, es, i as int, e);
                    let r = before.records[handle.spec_key()].touched(now);
                    assert(self@ =~= before.ticked().with(handle.spec_key(), r));
                    lemma_with(before.ticked(), handle.spec_key(), r);
                }
                match &self.entries[i].data {
                    EntryData::Inline(d) => Some(d),
                    EntryData::File { data, .. } => data.as_ref(),
                }
            },
        }
    }
}

proof fn lemma_mapped<D>(
    t: SlotTable,
    before: Seq<Entry<D>>,
    after: Seq<Entry<D>>,
    f: spec_fn(u64, AssetRecord<D>) -> AssetRecord<D>,
)
    requires
        aligned(t, before),
        after.len() == before.len(),
        forall|j: int|
            0 <= j < before.len() ==> (#[trigger] after[j]).key == before[j].key && record_of(
                after[j],
            ) == f(before[j].key, record_of(before[j])),
    ensures
        aligned(t, after),
        records_map(t, after) == Map::new(
            |k: u64| records_map(t, before).contains_key(k),
            |k: u64| f(k, records_map(t, before)[k]),
        ),
{
    assert forall|k: u64| #[trigger] slot_values(t).contains_key(k) implies slot_values(t)[k]
        < after.len() && after[slot_values(t)[k] as int].key == k by {
        assert(before[slot_values(t)[k] as int].key == k);
    }
    assert forall|j: int| 0 <= j < after.len() implies is_key((#[trigger] after[j]).key)
        && slot_values(t).contains_key(after[j].key) && slot_values(t)[after[j].key] == j by {
        assert(is_key(before[j].key));
    }
    assert(records_map(t, after) =~= Map::new(
        |k: u64| records_map(t, before).contains_key(k),
        |k: u64| f(k, records_map(t, before)[k]),
    ));
}

proof fn lemma_mapped_consistent<D>(
    m: AssetModel<D>,
    f: spec_fn(u64, AssetRecord<D>) -> AssetRecord<D>,
)
    requires
        m.consistent(),
        forall|k: u64, r: AssetRecord<D>|
            (#[trigger] f(k, r)).source() == r.source() && f(k, r).gc == r.gc && (r.state
                != AssetState::Unloaded ==> f(k, r).state != AssetState::Unloaded),
    ensures
        m.mapped(f).consistent(),
{
    let n = m.mapped(f);
    assert forall|a: Address, k: u64|
        n.files.contains_key(a) && #[trigger] n.files[a].contains(k) implies n.records.contains_key(
        k,
    ) && n.records[k].source() == Some(a) by {
        assert(m.files[a].contains(k));
    }
    assert forall|k: u64, a: Address|
        n.records.contains_key(k) && #[trigger] n.records[k].source() == Some(a) implies #[trigger] n.files.contains_key(
        a,
    ) && n.files[a].contains(k) by {
        assert(m.records[k].source() == Some(a));
        assert(m.files.contains_key(a));
    }
    assert forall|k: u64| #[trigger] n.records.contains_key(k) implies n.records[k].gc.last_used
        <= n.clock && n.records[k].state != AssetState::Unloaded by {
        assert(m.records.contains_key(k));
    }
}

/// The data of every asset out of one file dropped.
pub open spec fn unload_step<D>(source: Address) -> spec_fn(u64, AssetRecord<D>) -> AssetRecord<D> {
    |k: u64, r: AssetRecord<D>|
        if r.source() == Some(source) {
            r.evicted()
        } else {
            r
        }
}

/// The data of every asset dropped that the policy does not keep.
pub open spec fn gc_step<D>(policy: GcPolicy, now: u64) -> spec_fn(
    u64,
    AssetRecord<D>,
) -> AssetRecord<D> {
    |k: u64, r: AssetRecord<D>|
        if policy.keeps(r.gc, now) {
            r
        } else {
            r.evicted()
        }
}

impl<D> AssetManager<D> {
    /// Drops the data of the entry at a position, where it is data out of a file.
    fn evict_at(&mut self, i: usize)
        requires
            i < old(self).entries@.len(),
        ensures
            final(self).entries@.len() == old(self).entries@.len(),
            final(self).entries@[i as int].key == old(self).entries@[i as int].key,
            record_of(final(self).entries@[i as int]) == record_of(
                old(self).entries@[i as int],
            ).evicted(),
            forall|j: int|
                0 <= j < old(self).entries@.len() && j != i ==> final(self).entries@[j] == old(
                    self,
                ).entries@[j],
            final(self).slots == old(self).slots,
            final(self).files == old(self).files,
            final(self).reloaders == old(self).reloaders,
            final(self).in_flight == old(self).in_flight,
            final(self).use_clock == old(self).use_clock,
            final(self).version == old(self).version,
            final(self).space == old(self).space,
    {
        let drop_it = match &self.entries[i].data {
            EntryData::File { data, .. } => data.is_some(),
            EntryData::Inline(_) => false,
        };
        if drop_it {
            self.entries[i].state = AssetState::DiskOnly;
            match &mut self.entries[i].data {
                EntryData::File { data, .. } => {
                    *data = None;
                },
                EntryData::Inline(_) => {},
            }
        }
    }

    /// Drops the data of all assets out of one file; their handles stay alive.
    pub fn unload_memory(&mut self, source: &GamePath)
        requires
            old(self).wf(),
        ensures
            final(self).wf(),
            final(self).issued() == old(self).issued(),
            final(self).spec_space() == old(self).spec_space(),
            final(self)@ == old(self)@.mapped(unload_step(source@)),
    {
        let ghost before = self@;
        let ghost es = self.entries@;
        let ghost f = unload_step::<D>(source@);
        let mut i: usize = 0;
        while i < self.entries.len()
            invariant
                i <= self.entries@.len() == es.len(),
                es == old(self).entries@,
                f == unload_step::<D>(source@),
                self.slots == old(self).slots,
                self.files == old(self).files,
                self.reloaders == old(self).reloaders,
                self.in_flight == old(self).in_flight,
                self.use_clock == old(self).use_clock,
                self.version == old(self).version,
                self.space == old(self).space,
                forall|j: int|
                    0 <= j < i ==> (#[trigger] self.entries@[j]).key == es[j].key && record_of(
                        self.entries@[j],
                    ) == f(es[j].key, record_of(es[j])),
                forall|j: int| i <= j < es.len() ==> self.entries@[j] == es[j],
            decreases self.entries@.len() - i,
        {
            let hit = match &self.entries[i].data {
                EntryData::File { source: s, .. } => *s == *source,
                EntryData::Inline(_) => false,
            };
            if hit {
                self.evict_at(i);
            }
            i += 1;
        }
        proof {
            lemma_mapped(self.slots, es, self.entries@, f);
            assert(self@ =~= before.mapped(f));
            lemma_mapped_consistent(before, f);
        }
    }

    /// Drops the data of every asset that the policy does not keep, and forgets how to read
    /// files again of which no asset is left.
    pub fn gc(&mut self, policy: &GcPolicy)
        requires
            old(self).wf(),
        ensures
            final(self).wf(),
            final(self).issued() == old(self).issued(),
            final(self).spec_space() == old(self).spec_space(),
            final(self)@ == (AssetModel {
                reloadable: old(self)@.reloadable.intersect(old(self)@.files.dom()),
                ..old(self)@.mapped(gc_step(*policy, old(self)@.clock))
            }),
    {
        let ghost before = self@;
        let ghost es = self.entries@;
        let now = self.use_clock;
        let ghost f = gc_step::<D>(*policy, now);
        let mut in_use = PathSet::new();
        let mut i: usize = 0;
        while i < self.entries.len()
            invariant
                i <= self.entries@.len() == es.len(),
                es == old(self).entries@,
                now == old(self).use_clock,
                f == gc_step::<D>(*policy, now),
                self.slots == old(self).slots,
                self.files == old(self).files,
                self.reloaders == old(self).reloaders,
                self.in_flight == old(self).in_flight,
                self.use_clock == old(self).use_clock,
                self.version == old(self).version,
                self.space == old(self).space,
                forall|j: int|
                    0 <= j < i ==> (#[trigger] self.entries@[j]).key == es[j].key && record_of(
                        self.entries@[j],
                    ) == f(es[j].key, record_of(es[j])),
                forall|j: int| i <= j < es.len() ==> self.entries@[j] == es[j],
                forall|a: Address|
                    in_use@.contains(a) <==> exists|j: int|
                        0 <= j < i && record_of(#[trigger] es[j]).source() == Some(a),
            decreases self.entries@.len() - i,
        {
            let ghost used = in_use@;
            match &self.entries[i].data {
                EntryData::File { source, .. } => {
                    in_use.insert(source.clone());
                },
                EntryData::Inline(_) => {},
            }
            proof {
                assert forall|a: Address|
                    in_use@.contains(a) <==> exists|j: int|
                        0 <= j < i + 1 && record_of(#[trigger] es[j]).source() == Some(a) by {
                    if used.contains(a) {
                        let j = choose|j: int|
                            0 <= j < i && record_of(#[trigger] es[j]).source() == Some(a);
                        assert(record_of(es[j]).source() == Some(a));
                    }
                    if in_use@.contains(a) && !used.contains(a) {
                        assert(record_of(es[i as int]).source() == Some(a));
                    }
                }
            }
            if !policy.should_keep(self.entries[i].gc, now) {
                self.evict_at(i);
            }
            i += 1;
        }
        self.reloaders.retain_in(&in_use);
        proof {
            lemma_mapped(self.slots, es, self.entries@, f);
            assert(in_use@ =~= before.files.dom()) by {
                assert forall|a: Address| in_use@.contains(a) == before.files.dom().contains(a) by {
                    if in_use@.contains(a) {
                        let j = choose|j: int|
                            0 <= j < es.len() && record_of(#[trigger] es[j]).source() == Some(a);
                        let k = es[j].key;
                        assert(slot_values(self.slots).contains_key(k));
                        assert(before.records[k].source() == Some(a));
                        assert(before.files.contains_key(a));
                    }
                    if before.files.contains_key(a) {
                        let k = before.files[a][0];
                        assert(before.files[a].contains(k));
                        let j = slot_values(self.slots)[k] as int;
                        assert(es[j].key == k);
                        assert(record_of(es[j]).source() == Some(a));
                    }
                }
            }
            let m = before.mapped(f);
            assert(self@ =~= (AssetModel {
                reloadable: before.reloadable.intersect(before.files.dom()),
                ..m
            }));
            lemma_mapped_consistent(before, f);
            lemma_reloadable(m, self@);
        }
    }

    /// The live handles of one type, in no particular order.
    pub fn iter_of(&self, type_tag: u64) -> (list: Vec<Handle>)
        requires
            self.wf(),
        ensures
            list@.no_duplicates(),
            forall|h: Handle| #[trigger]
                list@.contains(h) <==> self@.records.contains_key(h.spec_key())
                    && self@.records[h.spec_key()].type_tag == type_tag,
    {
        let mut list: Vec<Handle> = Vec::new();
        let ghost mut places: Seq<int> = Seq::empty();
        let mut i: usize = 0;
        while i < self.entries.len()
            invariant
                self.wf(),
                i <= self.entries@.len(),
                list@.len() == places.len(),
                forall|m: int|
                    0 <= m < places.len() ==> 0 <= #[trigger] places[m] < i
                        && self.entries@[places[m]].type_tag == type_tag && list@[m].spec_key()
                        == self.entries@[places[m]].key,
                forall|m: int, n: int| 0 <= m < n < places.len() ==> places[m] < places[n],
                forall|j: int|
                    0 <= j < i && (#[trigger] self.entries@[j]).type_tag == type_tag
                        ==> places.contains(j),
            decreases self.entries@.len() - i,
        {
            let ghost before = places;
            if self.entries[i].type_tag == type_tag {
                list.push(Handle::from_key(self.entries[i].key));
                proof {
                    places = places.push(i as int);
                    assert(places[before.len() as int] == i);
                    assert forall|j: int|
                        0 <= j < i + 1 && (#[trigger] self.entries@[j]).type_tag
                            == type_tag implies places.contains(j) by {
                        if j < i {
                            let m = choose|m: int| 0 <= m < before.len() && before[m] == j;
                            assert(places[m] == j);
                        }
                    }
                }
            }
            i += 1;
        }
        proof {
            assert forall|m: int, n: int|
                0 <= m < list@.len() && 0 <= n < list@.len() && m != n implies list@[m]
                != list@[n] by {
                let a = places[m];
                let b = places[n];
                assert(slot_values(self.slots)[self.entries@[a].key] == a);
                assert(slot_values(self.slots)[self.entries@[b].key] == b);
            }
            assert forall|h: Handle| #[trigger]
                list@.contains(h) <==> self@.records.contains_key(h.spec_key())
                    && self@.records[h.spec_key()].type_tag == type_tag by {
                if list@.contains(h) {
                    let m = choose|m: int| 0 <= m < list@.len() && list@[m] == h;
                    let a = places[m];
                    assert(slot_values(self.slots).contains_key(self.entries@[a].key));
                    assert(slot_values(self.slots)[self.entries@[a].key] == a);
                }
                if self@.records.contains_key(h.spec_key())
                    && self@.records[h.spec_key()].type_tag == type_tag {
                    let j = slot_values(self.slots)[h.spec_key()] as int;
                    assert(self.entries@[j].key == h.spec_key());
                    assert(self.entries@[j].type_tag == type_tag);
                    let m = choose|m: int| 0 <= m < places.len() && places[m] == j;
                    assert(list@[m] == h);
                }
            }
        }
        list
    }

    /// The handles of one type that came out of a file, in order of registration.
    pub fn loaded_handles_of(&self, type_tag: u64, source: &GamePath) -> (list: Vec<Handle>)
        requires
            self.wf(),
        ensures
            list@.map_values(|h: Handle| h.spec_key()) == typed_keys(
                self@.records,
                keys_in(self@, source@),
                type_tag,
            ),
    {
        let keys = self.files.keys_of(source);
        proof {
            assert(keys@ =~= keys_in(self@, source@));
        }
        let typed = self.typed(&keys, type_tag);
        let mut list: Vec<Handle> = Vec::new();
        let mut i: usize = 0;
        while i < typed.len()
            invariant
                i <= typed@.len(),
                list@.map_values(|h: Handle| h.spec_key()) =~= typed@.take(i as int),
            decreases typed@.len() - i,
        {
            let h = Handle::from_key(typed[i]);
            let ghost done = list@;
            list.push(h);
            proof {
                assert(list@.map_values(|h: Handle| h.spec_key()) =~= done.map_values(
                    |h: Handle| h.spec_key(),
                ).push(typed@[i as int]));
            }
            i += 1;
        }
        proof {
            assert(typed@.take(i as int) =~= typed@);
        }
        list
    }

    /// The keys of one type among some keys.
    fn typed(&self, keys: &Vec<u64>, type_tag: u64) -> (out: Vec<u64>)
        requires
            aligned(self.slots, self.entries@),
        ensures
            out@ == typed_keys(self@.records, keys@, type_tag),
    {
        let mut out: Vec<u64> = Vec::new();
        let mut i: usize = 0;
        proof {
            reveal(Seq::filter);
            assert(keys@.take(0) =~= Seq::<u64>::empty());
        }
        while i < keys.len()
            invariant
                aligned(self.slots, self.entries@),
                i <= keys@.len(),
                out@ == typed_keys(self@.records, keys@.take(i as int), type_tag),
            decreases keys@.len() - i,
        {
            proof {
                reveal(Seq::filter);
                assert(keys@.take(i as int + 1).drop_last() =~= keys@.take(i as int));
            }
            match self.find(keys[i]) {
                Some(e) => {
                    if self.entries[e].type_tag == type_tag {
                        out.push(keys[i]);
                    }
                },
                None => {},
            }
            i += 1;
        }
        proof {
            assert(keys@.take(i as int) =~= keys@);
        }
        out
    }
}

/// The keys of a file, none where the file is unknown.
pub open spec fn keys_in<D>(m: AssetModel<D>, source: Address) -> Seq<u64> {
    if m.files.contains_key(source) {
        m.files[source]
    } else {
        seq![]
    }
}

/// The keys that belong to assets of one type.
pub open spec fn typed_keys<D>(
    records: Map<u64, AssetRecord<D>>,
    keys: Seq<u64>,
    type_tag: u64,
) -> Seq<u64> {
    keys.filter(|k: u64| records.contains_key(k) && records[k].type_tag == type_tag)
}

} // verus!
