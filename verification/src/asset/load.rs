//! Loading files: registering what a parser gave, filling placeholders, reading data again.
use super::{
    keys_in, lemma_dom_len, lemma_reloadable, AssetManager, AssetModel, AssetState, EntryData,
};
use crate::game_path::{Address, GamePath};
use vstd::prelude::*;

verus! {

/// Why a file could not be loaded.
#[derive(Clone, Copy, Debug, PartialEq, Eq, Structural)]
pub enum LoadError {
    /// The bytes could not be read.
    Unreadable,
    /// The bytes could not be parsed.
    Unparsable,
    /// The file holds no entries.
    Empty,
    /// The library has no room for so many entries.
    Full,
}

/// One entry that a parser gave.
#[derive(Debug)]
pub struct LoadedEntry<D> {
    pub data: D,
    /// Locates the entry in its file.
    pub extra: u64,
}

/// The entries of one type that a parser gave.
#[derive(Debug)]
pub struct Batch<D> {
    pub type_tag: u64,
    pub entries: Vec<LoadedEntry<D>>,
}

/// Locators of the entries of one type that a scan found.
#[derive(Debug)]
pub struct ScannedType {
    pub type_tag: u64,
    pub extras: Vec<u64>,
}

/// Reads the entries of all types out of the bytes of a file.
pub trait FileLoader<D> {
    /// Two locators find the same entry.
    spec fn same_entry(&self, a: u64, b: u64) -> bool;

    /// Lists the entries without parsing them, in the order in which `parse` gives them.
    fn scan(&self, bytes: &[u8]) -> Option<Vec<ScannedType>>;

    /// Parses all entries.
    fn parse(&self, bytes: &[u8]) -> Option<Vec<Batch<D>>>;

    /// Whether two locators find the same entry.
    fn extra_eq(&self, a: u64, b: u64) -> (same: bool)
        ensures
            same == self.same_entry(a, b),
    ;
}

/// Type, locator and data of an entry that is about to be registered.
pub struct NewEntry<D> {
    pub type_tag: u64,
    pub extra: u64,
    pub data: Option<D>,
}

pub open spec fn batch_entries<D>(batch: Batch<D>) -> Seq<NewEntry<D>> {
    batch.entries@.map_values(
        |e: LoadedEntry<D>|
            NewEntry { type_tag: batch.type_tag, extra: e.extra, data: Some(e.data) },
    )
}

pub open spec fn scanned_entries<D>(s: ScannedType) -> Seq<NewEntry<D>> {
    s.extras@.map_values(
        |x: u64| NewEntry::<D> { type_tag: s.type_tag, extra: x, data: None },
    )
}

/// All entries of some batches, in order.
pub open spec fn all_entries<D>(batches: Seq<Batch<D>>) -> Seq<NewEntry<D>>
    decreases batches.len(),
{
    if batches.len() == 0 {
        seq![]
    } else {
        all_entries(batches.drop_last()) + batch_entries(batches.last())
    }
}

/// All entries that a scan found, in order.
pub open spec fn all_scanned<D>(types: Seq<ScannedType>) -> Seq<NewEntry<D>>
    decreases types.len(),
{
    if types.len() == 0 {
        seq![]
    } else {
        all_scanned(types.drop_last()) + scanned_entries(types.last())
    }
}

/// The library after the first `n` entries of a file were registered under the given keys.
pub open spec fn registered_all<D>(
    m: AssetModel<D>,
    source: Address,
    state: AssetState,
    entries: Seq<NewEntry<D>>,
    keys: Seq<u64>,
    n: nat,
) -> AssetModel<D>
    decreases n,
{
    if n == 0 {
        m
    } else {
        let i = n as int - 1;
        registered_all(m, source, state, entries, keys, (n - 1) as nat).registered(
            keys[i],
            state,
            entries[i].type_tag,
            Some((source, entries[i].extra)),
            entries[i].data,
        )
    }
}

proof fn lemma_registered_all<D>(
    m: AssetModel<D>,
    source: Address,
    state: AssetState,
    entries: Seq<NewEntry<D>>,
    keys: Seq<u64>,
    n: nat,
)
    requires
        !m.files.contains_key(source),
        n <= keys.len(),
        m.clock + n <= u64::MAX,
        m.version + n <= u64::MAX,
    ensures
        ({
            let r = registered_all(m, source, state, entries, keys, n);
            &&& keys_in(r, source) == keys.take(n as int)
            &&& r.clock == m.clock + n
            &&& r.version == m.version + n
            &&& r.in_flight == m.in_flight
            &&& r.reloadable == m.reloadable
        }),
    decreases n,
{
    if n > 0 {
        lemma_registered_all(m, source, state, entries, keys, (n - 1) as nat);
        assert(keys.take(n as int) =~= keys.take(n as int - 1).push(keys[n as int - 1]));
    } else {
        assert(keys.take(0) =~= Seq::<u64>::empty());
    }
}

proof fn lemma_registered_all_extends<D>(
    m: AssetModel<D>,
    source: Address,
    state: AssetState,
    a: Seq<NewEntry<D>>,
    b: Seq<NewEntry<D>>,
    ka: Seq<u64>,
    kb: Seq<u64>,
    n: nat,
)
    requires
        n <= a.len(),
        n <= b.len(),
        n <= ka.len(),
        n <= kb.len(),
        a.take(n as int) == b.take(n as int),
        ka.take(n as int) == kb.take(n as int),
    ensures
        registered_all(m, source, state, a, ka, n) == registered_all(m, source, state, b, kb, n),
    decreases n,
{
    if n > 0 {
        let i = n as int - 1;
        assert(a.take(i) =~= a.take(n as int).take(i));
        assert(b.take(i) =~= b.take(n as int).take(i));
        assert(ka.take(i) =~= ka.take(n as int).take(i));
        assert(kb.take(i) =~= kb.take(n as int).take(i));
        assert(a[i] == a.take(n as int)[i]);
        assert(b[i] == b.take(n as int)[i]);
        assert(ka[i] == ka.take(n as int)[i]);
        assert(kb[i] == kb.take(n as int)[i]);
        lemma_registered_all_extends(m, source, state, a, b, ka, kb, (n - 1) as nat);
    }
}

/// What registering the entries of a file makes of the library. The keys are those that the
/// file index holds afterwards.
pub open spec fn file_registered<D>(
    before: AssetModel<D>,
    after: AssetModel<D>,
    source: Address,
    state: AssetState,
    entries: Seq<NewEntry<D>>,
) -> bool {
    let keys = keys_in(after, source);
    &&& keys.len() == entries.len()
    &&& keys.no_duplicates()
    &&& forall|i: int| 0 <= i < keys.len() ==> !before.records.contains_key(#[trigger] keys[i])
    &&& after == (AssetModel {
        reloadable: before.reloadable.insert(source),
        in_flight: after.in_flight,
        ..registered_all(before, source, state, entries, keys, entries.len())
    })
}

/// What parsed entries of a file make of the library: a file that is known is left alone, and a
/// file without any batch is refused.
pub open spec fn parsed_file_registered<D>(
    before: AssetModel<D>,
    after: AssetModel<D>,
    source: Address,
    batches: Seq<Batch<D>>,
    r: Result<(), LoadError>,
) -> bool {
    if before.files.contains_key(source) {
        r is Ok && after == before
    } else if batches.len() == 0 {
        r == Err::<(), LoadError>(LoadError::Empty) && after == before
    } else {
        r is Ok && after.in_flight == before.in_flight && file_registered(
            before,
            after,
            source,
            AssetState::Resident,
            all_entries(batches),
        )
    }
}

/// What scanned entries of a file make of the library.
pub open spec fn scanned_file_registered<D>(
    before: AssetModel<D>,
    after: AssetModel<D>,
    source: Address,
    types: Seq<ScannedType>,
    r: Result<bool, LoadError>,
) -> bool {
    if before.files.contains_key(source) {
        r == Ok::<bool, LoadError>(false) && after == before
    } else if types.len() == 0 {
        r == Err::<bool, LoadError>(LoadError::Empty) && after == before
    } else {
        r == Ok::<bool, LoadError>(true) && after.in_flight == before.in_flight.insert(source)
            && file_registered(before, after, source, AssetState::Loading, all_scanned(types))
    }
}

proof fn lemma_all_entries_take<D>(batches: Seq<Batch<D>>, b: int)
    requires
        0 <= b < batches.len(),
    ensures
        all_entries(batches.take(b + 1)) == all_entries(batches.take(b)) + batch_entries(
            batches[b],
        ),
        all_entries(batches.take(b + 1)).len() <= all_entries(batches).len(),
    decreases batches.len() - b,
{
    assert(batches.take(b + 1).drop_last() =~= batches.take(b));
    if b + 1 < batches.len() {
        lemma_all_entries_take(batches, b + 1);
        assert(all_entries(batches.take(b + 2)).len() >= all_entries(batches.take(b + 1)).len());
    } else {
        assert(batches.take(b + 1) =~= batches);
    }
}

proof fn lemma_all_scanned_take<D>(types: Seq<ScannedType>, b: int)
    requires
        0 <= b < types.len(),
    ensures
        all_scanned::<D>(types.take(b + 1)) == all_scanned::<D>(types.take(b)) + scanned_entries::<
            D,
        >(types[b]),
        all_scanned::<D>(types.take(b + 1)).len() <= all_scanned::<D>(types).len(),
    decreases types.len() - b,
{
    assert(types.take(b + 1).drop_last() =~= types.take(b));
    if b + 1 < types.len() {
        lemma_all_scanned_take::<D>(types, b + 1);
        assert(all_scanned::<D>(types.take(b + 2)).len() >= all_scanned::<D>(
            types.take(b + 1),
        ).len());
    } else {
        assert(types.take(b + 1) =~= types);
    }
}

/// The keys of a file that was not known before belonged to no asset ever.
pub open spec fn fresh_keys<D>(
    before: &AssetManager<D>,
    after: &AssetManager<D>,
    source: Address,
) -> bool {
    !before@.files.contains_key(source) ==> forall|i: int|
        0 <= i < keys_in(after@, source).len() ==> !before.issued().contains(
            #[trigger] keys_in(after@, source)[i],
        )
}

/// The library in the middle of registering a file: `done` entries under the keys `keys`.
spec fn registering<D>(
    before: AssetModel<D>,
    now: AssetModel<D>,
    source: Address,
    state: AssetState,
    done: Seq<NewEntry<D>>,
    keys: Seq<u64>,
) -> bool {
    &&& keys.len() == done.len()
    &&& keys.no_duplicates()
    &&& forall|i: int|
        0 <= i < keys.len() ==> !before.records.contains_key(#[trigger] keys[i])
            && now.records.contains_key(keys[i])
    &&& forall|k: u64| before.records.contains_key(k) ==> #[trigger] now.records.contains_key(k)
    &&& now == registered_all(before, source, state, done, keys, done.len())
    &&& now.records.dom().finite()
    &&& now.records.dom().len() == before.records.dom().len() + done.len()
}

proof fn lemma_registering_step<D>(
    before: AssetModel<D>,
    now: AssetModel<D>,
    next: AssetModel<D>,
    source: Address,
    state: AssetState,
    done: Seq<NewEntry<D>>,
    keys: Seq<u64>,
    e: NewEntry<D>,
    key: u64,
)
    requires
        registering(before, now, source, state, done, keys),
        !now.records.contains_key(key),
        next == now.registered(key, state, e.type_tag, Some((source, e.extra)), e.data),
    ensures
        registering(before, next, source, state, done.push(e), keys.push(key)),
{
    let d2 = done.push(e);
    let k2 = keys.push(key);
    assert(d2.take(done.len() as int) =~= done);
    assert(k2.take(done.len() as int) =~= keys);
    assert(done.take(done.len() as int) =~= done);
    assert(keys.take(done.len() as int) =~= keys);
    lemma_registered_all_extends(before, source, state, done, d2, keys, k2, done.len());
    assert forall|i: int| 0 <= i < k2.len() implies !before.records.contains_key(#[trigger] k2[i])
        && next.records.contains_key(k2[i]) by {
        if i < keys.len() {
            assert(k2[i] == keys[i]);
        }
    }
    assert forall|i: int, j: int| 0 <= i < k2.len() && 0 <= j < k2.len() && i != j implies k2[i]
        != k2[j] by {
        if i < keys.len() {
            assert(now.records.contains_key(keys[i]));
        }
        if j < keys.len() {
            assert(now.records.contains_key(keys[j]));
        }
    }
    assert(next.records.dom() =~= now.records.dom().insert(key));
    assert(next == registered_all(before, source, state, d2, k2, d2.len()));
}

impl<D> AssetManager<D> {
    /// Registers the entries that a parser gave for a file, unless the file is known already.
    pub fn register_parsed_file(&mut self, path: GamePath, parsed: Vec<Batch<D>>) -> (r: Result<
        (),
        LoadError,
    >)
        requires
            old(self).wf(),
            old(self)@.takes(path@, all_entries(parsed@).len() as int),
        ensures
            final(self).wf(),
            final(self).spec_space() == old(self).spec_space(),
            old(self).issued().subset_of(final(self).issued()),
            parsed_file_registered(old(self)@, final(self)@, path@, parsed@, r),
            fresh_keys(old(self), final(self), path@),
    {
        if self.files.contains_key(&path) {
            return Ok(());
        }
        if parsed.len() == 0 {
            return Err(LoadError::Empty);
        }
        let ghost before = self@;
        let ghost all = parsed@;
        let ghost source = path@;
        let ghost mut done: Seq<NewEntry<D>> = Seq::empty();
        let ghost mut keys: Seq<u64> = Seq::empty();
        let ghost mut b: int = 0;
        let mut rest = parsed;
        proof {
            lemma_dom_len(self.slots, self.entries@);
            assert(all.take(0) =~= Seq::<Batch<D>>::empty());
            assert(all.skip(0) =~= all);
        }
        while rest.len() > 0
            invariant
                self.wf(),
                self.spec_space() == old(self).spec_space(),
                old(self).issued().subset_of(self.issued()),
                forall|m: int|
                    0 <= m < keys.len() ==> !old(self).issued().contains(#[trigger] keys[m]),
                source == path@,
                before == old(self)@,
                before.roomy(all_entries(all).len() as int),
                0 <= b <= all.len(),
                rest@ == all.skip(b),
                done == all_entries(all.take(b)),
                done.len() <= all_entries(all).len(),
                registering(before, self@, source, AssetState::Resident, done, keys),
                !before.files.contains_key(source),
            decreases rest@.len(),
        {
            proof {
                lemma_all_entries_take(all, b);
                assert(rest@[0] == all[b]);
            }
            let batch = rest.remove(0);
            let tag = batch.type_tag;
            let ghost items = batch.entries@;
            let ghost start = done;
            let mut entries = batch.entries;
            let ghost mut i: int = 0;
            proof {
                assert(items.skip(0) =~= items);
                assert(rest@ =~= all.skip(b + 1));
                assert(batch_entries(batch).take(0) =~= Seq::<NewEntry<D>>::empty());
                assert(start + Seq::<NewEntry<D>>::empty() =~= start);
            }
            while entries.len() > 0
                invariant
                    self.wf(),
                    self.spec_space() == old(self).spec_space(),
                    old(self).issued().subset_of(self.issued()),
                    forall|m: int|
                        0 <= m < keys.len() ==> !old(self).issued().contains(#[trigger] keys[m]),
                    source == path@,
                    before.roomy(all_entries(all).len() as int),
                    !before.files.contains_key(source),
                    0 <= b < all.len(),
                    batch == all[b],
                    tag == batch.type_tag,
                    items == batch.entries@,
                    0 <= i <= items.len(),
                    entries@ == items.skip(i),
                    done == start + batch_entries(batch).take(i),
                    start == all_entries(all.take(b)),
                    all_entries(all.take(b + 1)) == start + batch_entries(batch),
                    all_entries(all.take(b + 1)).len() <= all_entries(all).len(),
                    registering(before, self@, source, AssetState::Resident, done, keys),
                decreases entries@.len(),
            {
                let ghost now = self@;
                proof {
                    lemma_registered_all(
                        before,
                        source,
                        AssetState::Resident,
                        done,
                        keys,
                        done.len(),
                    );
                    assert(entries@[0] == items[i]);
                    assert(batch_entries(batch).len() == items.len());
                }
                let e = entries.remove(0);
                let ghost new = batch_entries(batch)[i];
                let key = self.register_with_source(
                    AssetState::Resident,
                    tag,
                    EntryData::File { source: path.clone(), extra: e.extra, data: Some(e.data) },
                );
                proof {
                    lemma_registering_step(
                        before,
                        now,
                        self@,
                        source,
                        AssetState::Resident,
                        done,
                        keys,
                        new,
                        key,
                    );
                    assert(batch_entries(batch).take(i + 1) =~= batch_entries(batch).take(i).push(
                        new,
                    ));
                    assert(start + batch_entries(batch).take(i + 1) =~= done.push(new));
                    done = done.push(new);
                    keys = keys.push(key);
                    assert(entries@ =~= items.skip(i + 1));
                    i = i + 1;
                }
            }
            proof {
                assert(batch_entries(batch).take(i) =~= batch_entries(batch));
                b = b + 1;
            }
        }
        proof {
            assert(all.take(b) =~= all);
            lemma_registered_all(before, source, AssetState::Resident, done, keys, done.len());
            assert(keys.take(done.len() as int) =~= keys);
        }
        self.set_file_reloader(path);
        Ok(())
    }

    /// Registers placeholders for the entries that a scan found in a file, unless the file is
    /// known already, and notes that the file is being parsed. Tells whether it has to be.
    pub fn register_scanned_file(&mut self, path: GamePath, scanned: &Vec<ScannedType>) -> (r:
        Result<bool, LoadError>)
        requires
            old(self).wf(),
            old(self)@.takes(path@, all_scanned::<D>(scanned@).len() as int),
        ensures
            final(self).wf(),
            final(self).spec_space() == old(self).spec_space(),
            old(self).issued().subset_of(final(self).issued()),
            scanned_file_registered(old(self)@, final(self)@, path@, scanned@, r),
            fresh_keys(old(self), final(self), path@),
    {
        if self.files.contains_key(&path) {
            return Ok(false);
        }
        if scanned.len() == 0 {
            return Err(LoadError::Empty);
        }
        let ghost before = self@;
        let ghost all = scanned@;
        let ghost source = path@;
        let ghost mut done: Seq<NewEntry<D>> = Seq::empty();
        let ghost mut keys: Seq<u64> = Seq::empty();
        let mut b: usize = 0;
        proof {
            lemma_dom_len(self.slots, self.entries@);
            assert(all.take(0) =~= Seq::<ScannedType>::empty());
        }
        while b < scanned.len()
            invariant
                self.wf(),
                self.spec_space() == old(self).spec_space(),
                old(self).issued().subset_of(self.issued()),
                forall|m: int|
                    0 <= m < keys.len() ==> !old(self).issued().contains(#[trigger] keys[m]),
                source == path@,
                before == old(self)@,
                all == scanned@,
                before.roomy(all_scanned::<D>(all).len() as int),
                b <= all.len(),
                done == all_scanned::<D>(all.take(b as int)),
                registering(before, self@, source, AssetState::Loading, done, keys),
                !before.files.contains_key(source),
            decreases all.len() - b,
        {
            proof {
                lemma_all_scanned_take::<D>(all, b as int);
            }
            let tag = scanned[b].type_tag;
            let extras = &scanned[b].extras;
            let ghost part = scanned_entries::<D>(all[b as int]);
            let ghost start = done;
            let mut i: usize = 0;
            proof {
                assert(part.take(0) =~= Seq::<NewEntry<D>>::empty());
                assert(start + Seq::<NewEntry<D>>::empty() =~= start);
            }
            while i < extras.len()
                invariant
                    self.wf(),
                    self.spec_space() == old(self).spec_space(),
                    old(self).issued().subset_of(self.issued()),
                    forall|m: int|
                        0 <= m < keys.len() ==> !old(self).issued().contains(#[trigger] keys[m]),
                    source == path@,
                    before.roomy(all_scanned::<D>(all).len() as int),
                    !before.files.contains_key(source),
                    b < all.len(),
                    tag == all[b as int].type_tag,
                    extras@ == all[b as int].extras@,
                    part == scanned_entries::<D>(all[b as int]),
                    i <= extras@.len(),
                    done == start + part.take(i as int),
                    start == all_scanned::<D>(all.take(b as int)),
                    all_scanned::<D>(all.take(b + 1)) == start + part,
                    all_scanned::<D>(all.take(b + 1)).len() <= all_scanned::<D>(all).len(),
                    registering(before, self@, source, AssetState::Loading, done, keys),
                decreases extras@.len() - i,
            {
                let ghost now = self@;
                proof {
                    lemma_registered_all(
                        before,
                        source,
                        AssetState::Loading,
                        done,
                        keys,
                        done.len(),
                    );
                    assert(part.len() == extras@.len());
                }
                let ghost new = part[i as int];
                let h = self.register_pending(path.clone(), tag, extras[i]);
                proof {
                    lemma_registering_step(
                        before,
                        now,
                        self@,
                        source,
                        AssetState::Loading,
                        done,
                        keys,
                        new,
                        h.spec_key(),
                    );
                    assert(part.take(i as int + 1) =~= part.take(i as int).push(new));
                    assert(start + part.take(i as int + 1) =~= done.push(new));
                    done = done.push(new);
                    keys = keys.push(h.spec_key());
                }
                i += 1;
            }
            proof {
                assert(part.take(i as int) =~= part);
            }
            b += 1;
        }
        proof {
            assert(all.take(b as int) =~= all);
            lemma_registered_all(before, source, AssetState::Loading, done, keys, done.len());
            assert(keys.take(done.len() as int) =~= keys);
        }
        let ghost now = self@;
        self.in_flight.insert(path.clone());
        proof {
            lemma_reloadable(now, self@);
        }
        self.set_file_reloader(path);
        Ok(true)
    }
}

/// The first entry of a list whose locator passes.
pub open spec fn first_located<D>(
    entries: Seq<LoadedEntry<D>>,
    hit: spec_fn(u64) -> bool,
) -> Option<D>
    decreases entries.len(),
{
    if entries.len() == 0 {
        None
    } else if hit(entries[0].extra) {
        Some(entries[0].data)
    } else {
        first_located(entries.skip(1), hit)
    }
}

/// The first entry of one type whose locator passes.
pub open spec fn located<D>(
    batches: Seq<Batch<D>>,
    type_tag: u64,
    hit: spec_fn(u64) -> bool,
) -> Option<D>
    decreases batches.len(),
{
    if batches.len() == 0 {
        None
    } else if batches[0].type_tag == type_tag && first_located(batches[0].entries@, hit) is Some {
        first_located(batches[0].entries@, hit)
    } else {
        located(batches.skip(1), type_tag, hit)
    }
}

/// The entry with the given type and locator among those that a parser gave.
pub fn find_entry<D, L: FileLoader<D>>(
    loader: &L,
    parsed: Vec<Batch<D>>,
    type_tag: u64,
    extra: u64,
) -> (r: Option<D>)
    ensures
        r == located(parsed@, type_tag, |x: u64| loader.same_entry(extra, x)),
{
    let ghost hit = |x: u64| loader.same_entry(extra, x);
    let ghost all = parsed@;
    let mut rest = parsed;
    while rest.len() > 0
        invariant
            hit == (|x: u64| loader.same_entry(extra, x)),
            all == parsed@,
            located(all, type_tag, hit) == located(rest@, type_tag, hit),
        decreases rest@.len(),
    {
        let ghost batches = rest@;
        let batch = rest.remove(0);
        proof {
            assert(batch == batches[0]);
            assert(rest@ =~= batches.skip(1));
        }
        if batch.type_tag == type_tag {
            let ghost items = batch.entries@;
            let mut entries = batch.entries;
            while entries.len() > 0
                invariant
                    hit == (|x: u64| loader.same_entry(extra, x)),
                    all == parsed@,
                    first_located(items, hit) == first_located(entries@, hit),
                    items == batches[0].entries@,
                    batches.len() > 0,
                    batches[0].type_tag == type_tag,
                    located(all, type_tag, hit) == located(batches, type_tag, hit),
                decreases entries@.len(),
            {
                let ghost before = entries@;
                let e = entries.remove(0);
                proof {
                    assert(e == before[0]);
                    assert(entries@ =~= before.skip(1));
                }
                if loader.extra_eq(extra, e.extra) {
                    return Some(e.data);
                }
            }
        }
    }
    None
}

/// Parses a file again and takes the entry with the given type and locator out of it. `bytes` is
/// `None` where the file could not be read.
pub fn reload<D, L: FileLoader<D>>(
    loader: &L,
    bytes: Option<&[u8]>,
    type_tag: u64,
    extra: u64,
) -> (r: Option<D>)
    ensures
        match bytes {
            None => r is None,
            Some(b) => exists|parsed: Option<Vec<Batch<D>>>| #[trigger]
                call_ensures(L::parse, (loader, b), parsed) && r == match parsed {
                    None => None,
                    Some(batches) => located(
                        batches@,
                        type_tag,
                        |x: u64| loader.same_entry(extra, x),
                    ),
                },
        },
{
    match bytes {
        None => None,
        Some(b) => {
            let parsed = loader.parse(b);
            match parsed {
                None => None,
                Some(batches) => find_entry(loader, batches, type_tag, extra),
            }
        },
    }
}

/// Number of entries in some batches, or `None` where it exceeds `limit`.
fn count_entries<D>(batches: &Vec<Batch<D>>, limit: u64) -> (r: Option<u64>)
    ensures
        match r {
            Some(n) => n == all_entries(batches@).len() && n <= limit,
            None => all_entries(batches@).len() > limit,
        },
{
    let mut n: u64 = 0;
    let mut b: usize = 0;
    proof {
        assert(batches@.take(0) =~= Seq::<Batch<D>>::empty());
    }
    while b < batches.len()
        invariant
            b <= batches@.len(),
            n == all_entries(batches@.take(b as int)).len(),
            n <= limit,
        decreases batches@.len() - b,
    {
        proof {
            lemma_all_entries_take(batches@, b as int);
            assert(batch_entries(batches@[b as int]).len() == batches@[b as int].entries@.len());
        }
        let k = batches[b].entries.len() as u64;
        if k > limit - n {
            return None;
        }
        n = n + k;
        b += 1;
    }
    proof {
        assert(batches@.take(b as int) =~= batches@);
    }
    Some(n)
}

/// Number of entries that a scan found, or `None` where it exceeds `limit`.
fn count_scanned<D>(types: &Vec<ScannedType>, limit: u64) -> (r: Option<u64>)
    ensures
        match r {
            Some(n) => n == all_scanned::<D>(types@).len() && n <= limit,
            None => all_scanned::<D>(types@).len() > limit,
        },
{
    let mut n: u64 = 0;
    let mut b: usize = 0;
    proof {
        assert(types@.take(0) =~= Seq::<ScannedType>::empty());
    }
    while b < types.len()
        invariant
            b <= types@.len(),
            n == all_scanned::<D>(types@.take(b as int)).len(),
            n <= limit,
        decreases types@.len() - b,
    {
        proof {
            lemma_all_scanned_take::<D>(types@, b as int);
            assert(scanned_entries::<D>(types@[b as int]).len() == types@[b as int].extras@.len());
        }
        let k = types[b].extras.len() as u64;
        if k > limit - n {
            return None;
        }
        n = n + k;
        b += 1;
    }
    proof {
        assert(types@.take(b as int) =~= types@);
    }
    Some(n)
}

impl<D> AssetManager<D> {
    /// How many assets can still be registered.
    pub fn room(&self) -> (n: u64)
        requires
            self.wf(),
        ensures
            forall|k: int| 0 <= k ==> (#[trigger] self@.roomy(k) <==> k <= n),
    {
        let by_slots: u64 = 0xffff_fffe - self.len() as u64;
        let by_clock: u64 = u64::MAX - self.use_clock;
        let by_version: u64 = u64::MAX - self.version;
        let mut n = by_slots;
        if by_clock < n {
            n = by_clock;
        }
        if by_version < n {
            n = by_version;
        }
        n
    }

    /// Registers the entries that a parser gave for a file, unless the file is known already or
    /// there is no room for them.
    pub(crate) fn register_where_room(&mut self, path: GamePath, batches: Vec<Batch<D>>) -> (r:
        Result<(), LoadError>)
        requires
            old(self).wf(),
        ensures
            final(self).wf(),
            final(self).spec_space() == old(self).spec_space(),
            old(self).issued().subset_of(final(self).issued()),
            if old(self)@.takes(path@, all_entries(batches@).len() as int) {
                parsed_file_registered(old(self)@, final(self)@, path@, batches@, r) && fresh_keys(
                    old(self),
                    final(self),
                    path@,
                )
            } else {
                r == Err::<(), LoadError>(LoadError::Full) && *final(self) == *old(self)
            },
    {
        if !self.files.contains_key(&path) {
            let room = self.room();
            if count_entries(&batches, room).is_none() {
                return Err(LoadError::Full);
            }
        }
        self.register_parsed_file(path, batches)
    }

    /// Loads a file at once: parses its bytes and registers all entries. A file that has entries
    /// already is neither read nor parsed: its handles stand. `bytes` is `None` where the file
    /// could not be read.
    pub fn load_file<L: FileLoader<D>>(
        &mut self,
        loader: &L,
        path: GamePath,
        bytes: Option<&[u8]>,
    ) -> (r: Result<(), LoadError>)
        requires
            old(self).wf(),
        ensures
            final(self).wf(),
            final(self).spec_space() == old(self).spec_space(),
            old(self).issued().subset_of(final(self).issued()),
            if old(self)@.files.contains_key(path@) {
                r == Ok::<(), LoadError>(()) && *final(self) == *old(self)
            } else {
                match bytes {
                    None => r == Err::<(), LoadError>(LoadError::Unreadable) && *final(self)
                        == *old(self),
                    Some(b) => exists|parsed: Option<Vec<Batch<D>>>| #[trigger]
                        call_ensures(L::parse, (loader, b), parsed) && match parsed {
                            None => r == Err::<(), LoadError>(LoadError::Unparsable) && *final(self)
                                == *old(self),
                            Some(batches) => if old(self)@.takes(
                                path@,
                                all_entries(batches@).len() as int,
                            ) {
                                parsed_file_registered(
                                    old(self)@,
                                    final(self)@,
                                    path@,
                                    batches@,
                                    r,
                                ) && fresh_keys(old(self), final(self), path@)
                            } else {
                                r == Err::<(), LoadError>(LoadError::Full) && *final(self) == *old(
                                    self,
                                )
                            },
                        },
                }
            },
    {
        if self.files.contains_key(&path) {
            return Ok(());
        }
        let b = match bytes {
            None => {
                return Err(LoadError::Unreadable);
            },
            Some(b) => b,
        };
        let parsed = loader.parse(b);
        match parsed {
            None => Err(LoadError::Unparsable),
            Some(batches) => self.register_where_room(path, batches),
        }
    }

    /// Begins to load a file in the background: registers placeholders for its entries, unless
    /// the file is known already, in which case nothing is scanned. Tells whether the caller has
    /// to parse the bytes and hand the outcome to `pump`.
    pub fn load_file_async<L: FileLoader<D>>(
        &mut self,
        loader: &L,
        path: GamePath,
        bytes: Option<&[u8]>,
    ) -> (r: Result<bool, LoadError>)
        requires
            old(self).wf(),
        ensures
            final(self).wf(),
            final(self).spec_space() == old(self).spec_space(),
            old(self).issued().subset_of(final(self).issued()),
            if old(self)@.files.contains_key(path@) {
                r == Ok::<bool, LoadError>(false) && *final(self) == *old(self)
            } else {
                match bytes {
                    None => r == Err::<bool, LoadError>(LoadError::Unreadable) && *final(self)
                        == *old(self),
                    Some(b) => exists|scanned: Option<Vec<ScannedType>>| #[trigger]
                        call_ensures(L::scan, (loader, b), scanned) && match scanned {
                            None => r == Err::<bool, LoadError>(LoadError::Unparsable)
                                && *final(self) == *old(self),
                            Some(types) => if old(self)@.roomy(
                                all_scanned::<D>(types@).len() as int,
                            ) {
                                scanned_file_registered(
                                    old(self)@,
                                    final(self)@,
                                    path@,
                                    types@,
                                    r,
                                ) && fresh_keys(old(self), final(self), path@)
                            } else {
                                r == Err::<bool, LoadError>(LoadError::Full) && *final(self)
                                    == *old(self)
                            },
                        },
                }
            },
    {
        if self.files.contains_key(&path) {
            return Ok(false);
        }
        let b = match bytes {
            None => {
                return Err(LoadError::Unreadable);
            },
            Some(b) => b,
        };
        let scanned = loader.scan(b);
        match scanned {
            None => Err(LoadError::Unparsable),
            Some(types) => {
                let room = self.room();
                match count_scanned::<D>(&types, room) {
                    None => Err(LoadError::Full),
                    Some(_) => self.register_scanned_file(path, &types),
                }
            },
        }
    }
}

/// What is found among the entries that a parser gave is an entry that was asked for: the first of
/// its batch with such a locator, in the first batch of the type that has one. Nothing is found
/// only where no entry of the type has such a locator.
pub proof fn found_entries_were_asked_for<D>(
    batches: Seq<Batch<D>>,
    type_tag: u64,
    hit: spec_fn(u64) -> bool,
)
    ensures
        match located(batches, type_tag, hit) {
            Some(d) => exists|b: int, i: int|
                #![trigger batches[b].entries@[i]]
                {
                    &&& 0 <= b < batches.len()
                    &&& 0 <= i < batches[b].entries@.len()
                    &&& batches[b].type_tag == type_tag
                    &&& hit(batches[b].entries@[i].extra)
                    &&& batches[b].entries@[i].data == d
                    &&& forall|j: int|
                        0 <= j < i ==> !hit((#[trigger] batches[b].entries@[j]).extra)
                    &&& forall|a: int, j: int|
                        0 <= a < b && batches[a].type_tag == type_tag && 0 <= j
                            < batches[a].entries@.len() ==> !hit(
                            (#[trigger] batches[a].entries@[j]).extra,
                        )
                },
            None => forall|a: int, j: int|
                0 <= a < batches.len() && batches[a].type_tag == type_tag && 0 <= j
                    < batches[a].entries@.len() ==> !hit(
                    (#[trigger] batches[a].entries@[j]).extra,
                ),
        },
    decreases batches.len(),
{
    if batches.len() > 0 {
        let items = batches[0].entries@;
        let rest = batches.skip(1);
        lemma_first_located(items, hit);
        if batches[0].type_tag == type_tag && first_located(items, hit) is Some {
            let i = choose|i: int|
                0 <= i < items.len() && hit((#[trigger] items[i]).extra) && first_located(
                    items,
                    hit,
                ) == Some(items[i].data) && forall|j: int|
                    0 <= j < i ==> !hit((#[trigger] items[j]).extra);
            assert(batches[0].entries@[i] == items[i]);
        } else {
            found_entries_were_asked_for(rest, type_tag, hit);
            assert forall|j: int|
                batches[0].type_tag == type_tag && 0 <= j < items.len() implies !hit(
                (#[trigger] batches[0].entries@[j]).extra,
            ) by {
                assert(items[j] == batches[0].entries@[j]);
            }
            match located(rest, type_tag, hit) {
                Some(d) => {
                    let (b, i) = choose|b: int, i: int|
                        #![trigger rest[b].entries@[i]]
                        {
                            &&& 0 <= b < rest.len()
                            &&& 0 <= i < rest[b].entries@.len()
                            &&& rest[b].type_tag == type_tag
                            &&& hit(rest[b].entries@[i].extra)
                            &&& rest[b].entries@[i].data == d
                            &&& forall|j: int|
                                0 <= j < i ==> !hit((#[trigger] rest[b].entries@[j]).extra)
                            &&& forall|a: int, j: int|
                                0 <= a < b && rest[a].type_tag == type_tag && 0 <= j
                                    < rest[a].entries@.len() ==> !hit(
                                    (#[trigger] rest[a].entries@[j]).extra,
                                )
                        };
                    assert(batches[b + 1] == rest[b]);
                    assert forall|a: int, j: int|
                        0 <= a < b + 1 && batches[a].type_tag == type_tag && 0 <= j
                            < batches[a].entries@.len() implies !hit(
                        (#[trigger] batches[a].entries@[j]).extra,
                    ) by {
                        if a > 0 {
                            assert(rest[a - 1].entries@[j] == batches[a].entries@[j]);
                        }
                    }
                    assert(batches[b + 1].entries@[i] == rest[b].entries@[i]);
                },
                None => {
                    assert forall|a: int, j: int|
                        0 <= a < batches.len() && batches[a].type_tag == type_tag && 0 <= j
                            < batches[a].entries@.len() implies !hit(
                        (#[trigger] batches[a].entries@[j]).extra,
                    ) by {
                        if a > 0 {
                            assert(rest[a - 1].entries@[j] == batches[a].entries@[j]);
                        }
                    }
                },
            }
        }
    }
}

proof fn lemma_first_located<D>(items: Seq<LoadedEntry<D>>, hit: spec_fn(u64) -> bool)
    ensures
        match first_located(items, hit) {
            Some(d) => exists|i: int|
                0 <= i < items.len() && hit((#[trigger] items[i]).extra) && d == items[i].data
                    && forall|j: int| 0 <= j < i ==> !hit((#[trigger] items[j]).extra),
            None => forall|j: int|
                0 <= j < items.len() ==> !hit((#[trigger] items[j]).extra),
        },
    decreases items.len(),
{
    if items.len() > 0 {
        let rest = items.skip(1);
        if hit(items[0].extra) {
            assert(items[0].data == first_located(items, hit)->0);
        } else {
            lemma_first_located(rest, hit);
            match first_located(rest, hit) {
                Some(d) => {
                    let i = choose|i: int|
                        0 <= i < rest.len() && hit((#[trigger] rest[i]).extra) && d
                            == rest[i].data && forall|j: int|
                            0 <= j < i ==> !hit((#[trigger] rest[j]).extra);
                    assert(items[i + 1] == rest[i]);
                    assert forall|j: int| 0 <= j < i + 1 implies !hit(
                        (#[trigger] items[j]).extra,
                    ) by {
                        if j > 0 {
                            assert(rest[j - 1] == items[j]);
                        }
                    }
                },
                None => {
                    assert forall|j: int| 0 <= j < items.len() implies !hit(
                        (#[trigger] items[j]).extra,
                    ) by {
                        if j > 0 {
                            assert(rest[j - 1] == items[j]);
                        }
                    }
                },
            }
        }
    }
}

/// What `find_entry` answers is the data of an entry that was asked for: of a batch of the type, with
/// a locator of the same entry, and with no such entry before it. It answers nothing only where
/// there is no such entry.
pub proof fn answered_entries_were_asked_for<D, L: FileLoader<D>>(
    loader: &L,
    parsed: Vec<Batch<D>>,
    type_tag: u64,
    extra: u64,
    r: Option<D>,
)
    requires
        call_ensures(find_entry::<D, L>, (loader, parsed, type_tag, extra), r),
    ensures
        r is Some ==> exists|b: int, i: int|
            #![trigger parsed@[b].entries@[i]]
            {
                &&& 0 <= b < parsed@.len()
                &&& 0 <= i < parsed@[b].entries@.len()
                &&& parsed@[b].type_tag == type_tag
                &&& loader.same_entry(extra, parsed@[b].entries@[i].extra)
                &&& parsed@[b].entries@[i].data == r->0
                &&& forall|j: int|
                    0 <= j < i ==> !loader.same_entry(
                        extra,
                        (#[trigger] parsed@[b].entries@[j]).extra,
                    )
                &&& forall|a: int, j: int|
                    0 <= a < b && parsed@[a].type_tag == type_tag && 0 <= j
                        < parsed@[a].entries@.len() ==> !loader.same_entry(
                        extra,
                        (#[trigger] parsed@[a].entries@[j]).extra,
                    )
            },
        r is None ==> forall|a: int, j: int|
            0 <= a < parsed@.len() && parsed@[a].type_tag == type_tag && 0 <= j
                < parsed@[a].entries@.len() ==> !loader.same_entry(
                extra,
                (#[trigger] parsed@[a].entries@[j]).extra,
            ),
{
    let hit = |x: u64| loader.same_entry(extra, x);
    found_entries_were_asked_for(parsed@, type_tag, hit);
    if r is Some {
        let (b, i) = choose|b: int, i: int|
            #![trigger parsed@[b].entries@[i]]
            {
                &&& 0 <= b < parsed@.len()
                &&& 0 <= i < parsed@[b].entries@.len()
                &&& parsed@[b].type_tag == type_tag
                &&& hit(parsed@[b].entries@[i].extra)
                &&& parsed@[b].entries@[i].data == r->0
                &&& forall|j: int| 0 <= j < i ==> !hit((#[trigger] parsed@[b].entries@[j]).extra)
                &&& forall|a: int, j: int|
                    0 <= a < b && parsed@[a].type_tag == type_tag && 0 <= j
                        < parsed@[a].entries@.len() ==> !hit(
                        (#[trigger] parsed@[a].entries@[j]).extra,
                    )
            };
        assert(loader.same_entry(extra, parsed@[b].entries@[i].extra));
        assert forall|j: int| 0 <= j < i implies !loader.same_entry(
            extra,
            (#[trigger] parsed@[b].entries@[j]).extra,
        ) by {
            assert(!hit(parsed@[b].entries@[j].extra));
        }
        assert forall|a: int, j: int|
            0 <= a < b && parsed@[a].type_tag == type_tag && 0 <= j
                < parsed@[a].entries@.len() implies !loader.same_entry(
            extra,
            (#[trigger] parsed@[a].entries@[j]).extra,
        ) by {
            assert(!hit(parsed@[a].entries@[j].extra));
        }
    } else {
        assert forall|a: int, j: int|
            0 <= a < parsed@.len() && parsed@[a].type_tag == type_tag && 0 <= j
                < parsed@[a].entries@.len() implies !loader.same_entry(
            extra,
            (#[trigger] parsed@[a].entries@[j]).extra,
        ) by {
            assert(!hit(parsed@[a].entries@[j].extra));
        }
    }
}

} // verus!
