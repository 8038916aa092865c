//! Completion of background loads, and counts over the library.
use super::load::Batch;
use super::{
    keys_in, lemma_reloadable, record_of, typed_keys, AssetManager, AssetModel, AssetRecord,
    AssetState, AssetStatus,
};
use crate::game_path::{Address, GamePath};
use crate::lists::{
    differs, lemma_filter_all, lemma_filter_both, lemma_filter_contains, lemma_filter_distinct,
    lemma_filter_out_one, lemma_filter_same, lemma_take_next,
};
use crate::path_index::without;
use crate::slots::{generation_of, slot_values};
use crate::text::{first_index, lemma_first_index};
use vstd::prelude::*;

verus! {

/// Place of a key among the keys of its type.
pub open spec fn rank<D>(m: AssetModel<D>, keys: Seq<u64>, k: u64) -> int {
    first_index(typed_keys(m.records, keys, m.records[k].type_tag), k)
}

/// The data that the first `b` batches hold for the asset at a place among those of its type; the
/// last batch of the type that is long enough decides.
pub open spec fn supply<D>(
    batches: Seq<Batch<D>>,
    type_tag: u64,
    place: int,
    b: nat,
) -> Option<D>
    decreases b,
{
    if b == 0 {
        None
    } else {
        let batch = batches[b as int - 1];
        if batch.type_tag == type_tag && place < batch.entries@.len() {
            Some(batch.entries@[place].data)
        } else {
            supply(batches, type_tag, place, (b - 1) as nat)
        }
    }
}

/// The data that a finished parse holds for the asset of a key.
pub open spec fn supplied<D>(
    m: AssetModel<D>,
    keys: Seq<u64>,
    batches: Seq<Batch<D>>,
    k: u64,
) -> Option<D> {
    supply(batches, m.records[k].type_tag, rank(m, keys, k), batches.len())
}

/// The assets of a file filled with what a finished parse holds for them.
pub open spec fn fill_step<D>(
    m: AssetModel<D>,
    keys: Seq<u64>,
    batches: Seq<Batch<D>>,
) -> spec_fn(u64, AssetRecord<D>) -> AssetRecord<D> {
    |k: u64, r: AssetRecord<D>|
        if keys.contains(k) && supplied(m, keys, batches, k) is Some {
            r.filled(supplied(m, keys, batches, k)->0)
        } else {
            r
        }
}

/// The library without the assets of a file that are to be dropped.
pub open spec fn pruned<D>(
    m: AssetModel<D>,
    source: Address,
    drop: spec_fn(u64) -> bool,
) -> AssetModel<D> {
    let keys = keys_in(m, source);
    let left = keys.filter(|k: u64| !drop(k));
    AssetModel {
        records: Map::new(
            |k: u64| m.records.contains_key(k) && !(keys.contains(k) && drop(k)),
            |k: u64| m.records[k],
        ),
        files: if left.len() == 0 {
            m.files.remove(source)
        } else {
            m.files.insert(source, left)
        },
        reloadable: if keys.len() > 0 && left.len() == 0 {
            m.reloadable.remove(source)
        } else {
            m.reloadable
        },
        version: (m.version + (keys.len() - left.len())) as u64,
        ..m
    }
}

/// An asset that is still waiting for its data.
pub open spec fn still_loading<D>(m: AssetModel<D>) -> spec_fn(u64) -> bool {
    |k: u64| m.records[k].state == AssetState::Loading
}

/// What the end of a background parse makes of the library. Entries are matched to placeholders
/// of their type in order; placeholders that get nothing are dropped. After a failure all assets
/// of the file are dropped.
pub open spec fn completed<D>(
    m: AssetModel<D>,
    source: Address,
    outcome: Option<Seq<Batch<D>>>,
) -> AssetModel<D> {
    let idle = AssetModel { in_flight: m.in_flight.remove(source), ..m };
    match outcome {
        Some(batches) => {
            let filled = idle.mapped(fill_step(idle, keys_in(idle, source), batches));
            pruned(filled, source, still_loading(filled))
        },
        None => pruned(idle, source, |k: u64| true),
    }
}

/// None of the keys is of the last generation that a slot can have.
pub open spec fn young(keys: Seq<u64>) -> bool {
    forall|i: int| 0 <= i < keys.len() ==> generation_of(#[trigger] keys[i]) < 0xffff_ffff
}

spec fn either(drop: spec_fn(u64) -> bool, seen: Seq<u64>) -> spec_fn(u64) -> bool {
    |k: u64| seen.contains(k) && drop(k)
}

proof fn lemma_pruned_none<D>(m: AssetModel<D>, source: Address, drop: spec_fn(u64) -> bool)
    requires
        m.consistent(),
        forall|k: u64| keys_in(m, source).contains(k) ==> !#[trigger] drop(k),
    ensures
        pruned(m, source, drop) == m,
{
    let keys = keys_in(m, source);
    let keep = |k: u64| !drop(k);
    assert forall|k: u64| keys.contains(k) implies #[trigger] keep(k) by {
        assert(!drop(k));
    }
    lemma_filter_all(keys, keep);
    let p = pruned(m, source, drop);
    assert(keys.filter(|k: u64| !drop(k)) == keys);
    assert(p.records =~= m.records);
    assert(p.files =~= m.files);
    assert(p.reloadable =~= m.reloadable);
    assert(p =~= m);
}

proof fn lemma_pruned_same<D>(
    m: AssetModel<D>,
    source: Address,
    f: spec_fn(u64) -> bool,
    g: spec_fn(u64) -> bool,
)
    requires
        forall|k: u64| keys_in(m, source).contains(k) ==> (#[trigger] f(k) <==> g(k)),
    ensures
        pruned(m, source, f) == pruned(m, source, g),
{
    let keys = keys_in(m, source);
    let nf = |k: u64| !f(k);
    let ng = |k: u64| !g(k);
    assert forall|k: u64| keys.contains(k) implies (#[trigger] nf(k) <==> ng(k)) by {
        assert(f(k) <==> g(k));
    }
    lemma_filter_same(keys, nf, ng);
    let p = pruned(m, source, f);
    let q = pruned(m, source, g);
    assert(p.records =~= q.records) by {
        assert forall|k: u64| p.records.contains_key(k) == q.records.contains_key(k) by {
            if keys.contains(k) {
                assert(f(k) <==> g(k));
            }
        }
    }
    assert(p =~= q);
}

proof fn lemma_prune_one<D>(m: AssetModel<D>, source: Address, f: spec_fn(u64) -> bool, k: u64)
    requires
        m.consistent(),
        m.version + keys_in(m, source).len() <= u64::MAX,
        keys_in(m, source).contains(k),
        !f(k),
    ensures
        pruned(m, source, f).removed(k) == pruned(m, source, |x: u64| f(x) || x == k),
        pruned(m, source, f).version < u64::MAX,
{
    let keys = keys_in(m, source);
    let p = pruned(m, source, f);
    let g = |x: u64| f(x) || x == k;
    let q = pruned(m, source, g);
    let nf = |x: u64| !f(x);
    let ng = |x: u64| !g(x);
    let left = keys.filter(nf);
    assert(m.files.contains_key(source));
    assert(keys.no_duplicates());
    lemma_filter_contains(keys, nf);
    lemma_filter_distinct(keys, nf);
    assert(left.contains(k));
    lemma_filter_both(keys, nf, differs(k));
    let both = |x: u64| nf(x) && differs(k)(x);
    assert forall|x: u64| keys.contains(x) implies (#[trigger] both(x) <==> ng(x)) by {}
    lemma_filter_same(keys, both, ng);
    assert(without(left, k) == keys.filter(ng));
    lemma_filter_out_one(left, k);
    keys.lemma_filter_len(nf);
    keys.lemma_filter_len(ng);
    assert(keys.filter(|x: u64| !f(x)) == left);
    assert(keys.filter(|x: u64| !g(x)) == keys.filter(ng));
    assert(m.files[source].contains(k));
    assert(m.records[k].source() == Some(source));
    assert(p.records.contains_key(k));
    assert(p.records[k].source() == Some(source));
    assert(p.files.contains_key(source) && p.files[source] == left);
    assert(p.removed(k).records =~= q.records);
    assert(p.removed(k).files =~= q.files);
    assert(p.removed(k).reloadable =~= q.reloadable);
    assert(p.removed(k) =~= q);
}

impl<D> AssetManager<D> {
    /// Removes those assets of a file that are still waiting for data, or all of them.
    fn prune(&mut self, source: &GamePath, all: bool)
        requires
            old(self).wf(),
            old(self)@.version + keys_in(old(self)@, source@).len() <= u64::MAX,
        ensures
            final(self).wf(),
            final(self).spec_space() == old(self).spec_space(),
            young(keys_in(old(self)@, source@)) ==> final(self).issued() == old(self).issued(),
            final(self)@ == pruned(
                old(self)@,
                source@,
                if all {
                    |k: u64| true
                } else {
                    still_loading(old(self)@)
                },
            ),
    {
        let ghost m = self@;
        let ghost drop: spec_fn(u64) -> bool = if all {
            |k: u64| true
        } else {
            still_loading(m)
        };
        let keys = self.files.keys_of(source);
        let ghost ks = keys@;
        proof {
            assert(ks =~= keys_in(m, source@));
            let e = either(drop, ks.take(0));
            assert forall|k: u64| ks.contains(k) implies !#[trigger] e(k) by {}
            lemma_pruned_none(m, source@, e);
        }
        let mut i: usize = 0;
        while i < keys.len()
            invariant
                self.wf(),
                self.spec_space() == old(self).spec_space(),
                young(ks) ==> self.issued() == old(self).issued(),
                m == old(self)@,
                m.consistent(),
                m.version + ks.len() <= u64::MAX,
                ks == keys_in(m, source@),
                keys@ == ks,
                i <= ks.len(),
                drop == (if all {
                    |k: u64| true
                } else {
                    still_loading(m)
                }),
                self@ == pruned(m, source@, either(drop, ks.take(i as int))),
            decreases ks.len() - i,
        {
            let k = keys[i];
            let ghost f = either(drop, ks.take(i as int));
            let ghost g = either(drop, ks.take(i as int + 1));
            proof {
                assert(ks.contains(k));
                assert(m.files.contains_key(source@));
                assert(m.files[source@].contains(k));
                assert(ks.no_duplicates());
                lemma_take_next(ks, i as int);
                assert(!f(k));
                assert(self@.records.contains_key(k));
                assert(self@.records[k] == m.records[k]);
            }
            let hit = if all {
                true
            } else {
                match self.find(k) {
                    Some(e) => self.entries[e].state == AssetState::Loading,
                    None => false,
                }
            };
            if hit {
                proof {
                    lemma_prune_one(m, source@, f, k);
                    let h = |x: u64| f(x) || x == k;
                    assert forall|x: u64| ks.contains(x) implies (#[trigger] h(x) <==> g(x)) by {}
                    lemma_pruned_same(m, source@, h, g);
                }
                self.remove_key(k);
            } else {
                proof {
                    assert forall|x: u64| ks.contains(x) implies (#[trigger] f(x) <==> g(x)) by {}
                    lemma_pruned_same(m, source@, f, g);
                }
            }
            i += 1;
        }
        proof {
            assert(ks.take(i as int) =~= ks);
            let e = either(drop, ks);
            assert forall|x: u64| ks.contains(x) implies (#[trigger] e(x) <==> drop(x)) by {}
            lemma_pruned_same(m, source@, e, drop);
        }
    }
}

spec fn partial<D>(batches: Seq<Batch<D>>, type_tag: u64, place: int, b: nat, j: int) -> Option<D> {
    if b < batches.len() && batches[b as int].type_tag == type_tag && place < j {
        Some(batches[b as int].entries@[place].data)
    } else {
        supply(batches, type_tag, place, b)
    }
}

spec fn partial_step<D>(
    m: AssetModel<D>,
    keys: Seq<u64>,
    batches: Seq<Batch<D>>,
    b: nat,
    j: int,
) -> spec_fn(u64, AssetRecord<D>) -> AssetRecord<D> {
    |k: u64, r: AssetRecord<D>|
        match partial(batches, m.records[k].type_tag, rank(m, keys, k), b, j) {
            Some(d) => if keys.contains(k) {
                r.filled(d)
            } else {
                r
            },
            None => r,
        }
}

proof fn lemma_mapped_same<D>(
    m: AssetModel<D>,
    f: spec_fn(u64, AssetRecord<D>) -> AssetRecord<D>,
    g: spec_fn(u64, AssetRecord<D>) -> AssetRecord<D>,
)
    requires
        forall|k: u64| #[trigger]
            m.records.contains_key(k) ==> f(k, m.records[k]) == g(k, m.records[k]),
    ensures
        m.mapped(f) == m.mapped(g),
{
    assert(m.mapped(f).records =~= m.mapped(g).records);
}

proof fn lemma_rank<D>(m: AssetModel<D>, keys: Seq<u64>, k: u64)
    requires
        keys.no_duplicates(),
        keys.contains(k),
        m.records.contains_key(k),
    ensures
        ({
            let typed = typed_keys(m.records, keys, m.records[k].type_tag);
            &&& 0 <= rank(m, keys, k) < typed.len()
            &&& typed[rank(m, keys, k)] == k
            &&& typed.no_duplicates()
            &&& forall|j: int| 0 <= j < typed.len() && typed[j] == k ==> j == rank(m, keys, k)
        }),
{
    let tag = m.records[k].type_tag;
    let f = |x: u64| m.records.contains_key(x) && m.records[x].type_tag == tag;
    let typed = typed_keys(m.records, keys, tag);
    assert(typed == keys.filter(f));
    lemma_filter_contains(keys, f);
    lemma_filter_distinct(keys, f);
    assert(typed.contains(k));
    lemma_first_index(typed, k);
}

impl<D> AssetManager<D> {
    /// Puts the data of a finished parse into the assets of a file.
    fn fill(&mut self, source: &GamePath, batches: Vec<Batch<D>>)
        requires
            old(self).wf(),
        ensures
            final(self).wf(),
            final(self).spec_space() == old(self).spec_space(),
            final(self).issued() == old(self).issued(),
            final(self)@ == old(self)@.mapped(
                fill_step(old(self)@, keys_in(old(self)@, source@), batches@),
            ),
    {
        let ghost m = self@;
        let keys = self.files.keys_of(source);
        let ghost ks = keys@;
        let ghost all = batches@;
        let mut rest = batches;
        let ghost mut b: nat = 0;
        proof {
            assert(ks =~= keys_in(m, source@));
            assert(all.skip(0) =~= all);
            let f = partial_step(m, ks, all, 0, 0);
            assert forall|k: u64| m.records.contains_key(k) && ks.contains(k) implies rank(m, ks, k)
                >= 0 by {
                assert(m.files.contains_key(source@));
                lemma_rank(m, ks, k);
            }
            assert(m.mapped(f).records =~= m.records);
            assert(m.mapped(f) =~= m);
        }
        while rest.len() > 0
            invariant
                self.wf(),
                self.spec_space() == old(self).spec_space(),
                self.issued() == old(self).issued(),
                m == old(self)@,
                m.consistent(),
                ks == keys_in(m, source@),
                keys@ == ks,
                b <= all.len(),
                rest@ == all.skip(b as int),
                self@ == m.mapped(partial_step(m, ks, all, b, 0)),
            decreases rest@.len(),
        {
            proof {
                assert(rest@[0] == all[b as int]);
            }
            let batch = rest.remove(0);
            let tag = batch.type_tag;
            let ghost items = batch.entries@;
            let mut entries = batch.entries;
            let typed = self.typed(&keys, tag);
            proof {
                assert(rest@ =~= all.skip(b as int + 1));
                assert(items.skip(0) =~= items);
                let f = |x: u64| self@.records.contains_key(x) && self@.records[x].type_tag == tag;
                let g = |x: u64| m.records.contains_key(x) && m.records[x].type_tag == tag;
                assert forall|x: u64| ks.contains(x) implies (#[trigger] f(x) <==> g(x)) by {}
                lemma_filter_same(ks, f, g);
                assert(typed@ == typed_keys(m.records, ks, tag));
            }
            let mut j: usize = 0;
            while j < typed.len() && entries.len() > 0
                invariant
                    self.wf(),
                    self.spec_space() == old(self).spec_space(),
                    self.issued() == old(self).issued(),
                    m == old(self)@,
                    m.consistent(),
                    ks == keys_in(m, source@),
                    b < all.len(),
                    batch == all[b as int],
                    tag == batch.type_tag,
                    items == batch.entries@,
                    typed@ == typed_keys(m.records, ks, tag),
                    j <= typed@.len(),
                    j <= items.len(),
                    entries@ == items.skip(j as int),
                    self@ == m.mapped(partial_step(m, ks, all, b, j as int)),
                decreases entries@.len(),
            {
                let ghost now = self@;
                let ghost f = partial_step(m, ks, all, b, j as int);
                let ghost g = partial_step(m, ks, all, b, j as int + 1);
                let k = typed[j];
                proof {
                    assert(entries@[0] == items[j as int]);
                    let p = |x: u64| m.records.contains_key(x) && m.records[x].type_tag == tag;
                    lemma_filter_contains(ks, p);
                    assert(typed@.contains(k));
                    assert(ks.filter(p) == typed@);
                    assert(ks.contains(k));
                    assert(m.records.contains_key(k) && m.records[k].type_tag == tag);
                    assert(m.files.contains_key(source@));
                    assert(m.files[source@].contains(k));
                    lemma_rank(m, ks, k);
                    assert(rank(m, ks, k) == j);
                }
                let e = entries.remove(0);
                match self.find(k) {
                    Some(at) => {
                        proof {
                            assert(now.records[k].source() == Some(source@));
                            assert(self.entries@[at as int].data is File);
                        }
                        self.set_file_data(at, e.data);
                    },
                    None => {},
                }
                proof {
                    assert(entries@ =~= items.skip(j as int + 1));
                    assert(self@.records[k] == now.records[k].filled(items[j as int].data));
                    assert forall|x: u64| #[trigger] m.records.contains_key(x) implies g(
                        x,
                        m.records[x],
                    ) == self@.records[x] by {
                        if x != k && ks.contains(x) && m.records[x].type_tag == tag {
                            lemma_rank(m, ks, x);
                            assert(rank(m, ks, x) != j);
                        }
                    }
                    assert(self@.records =~= m.mapped(g).records);
                    assert(self@ =~= m.mapped(g));
                }
                j += 1;
            }
            proof {
                let f = partial_step(m, ks, all, b, j as int);
                let g = partial_step(m, ks, all, b + 1, 0);
                assert forall|x: u64| #[trigger] m.records.contains_key(x) implies f(
                    x,
                    m.records[x],
                ) == g(x, m.records[x]) by {
                    if ks.contains(x) {
                        assert(m.files.contains_key(source@));
                        lemma_rank(m, ks, x);
                    }
                }
                lemma_mapped_same(m, f, g);
                b = b + 1;
            }
        }
        proof {
            let f = partial_step(m, ks, all, b, 0);
            let g = fill_step(m, ks, all);
            assert(b == all.len());
            assert forall|x: u64| #[trigger] m.records.contains_key(x) implies f(x, m.records[x])
                == g(x, m.records[x]) by {
                if ks.contains(x) {
                    assert(m.files.contains_key(source@));
                    lemma_rank(m, ks, x);
                }
            }
            lemma_mapped_same(m, f, g);
        }
    }

    /// Takes in the outcome of a background parse, `None` where it failed.
    pub fn pump(&mut self, source: &GamePath, outcome: Option<Vec<Batch<D>>>)
        requires
            old(self).wf(),
            old(self)@.version + keys_in(old(self)@, source@).len() <= u64::MAX,
        ensures
            final(self).wf(),
            final(self).spec_space() == old(self).spec_space(),
            young(keys_in(old(self)@, source@)) ==> final(self).issued() == old(self).issued(),
            final(self)@ == completed(
                old(self)@,
                source@,
                match outcome {
                    Some(batches) => Some(batches@),
                    None => None,
                },
            ),
    {
        let ghost m = self@;
        self.in_flight.remove(source);
        proof {
            lemma_reloadable(m, self@);
        }
        match outcome {
            Some(batches) => {
                self.fill(source, batches);
                self.prune(source, false);
            },
            None => {
                self.prune(source, true);
            },
        }
    }
}

/// Number of assets in a state.
pub open spec fn count_in<D>(m: AssetModel<D>, state: AssetState) -> nat {
    m.records.dom().filter(|k: u64| m.records[k].state == state).len()
}

spec fn keys_with<D>(m: AssetModel<D>, keys: Seq<u64>, state: AssetState) -> Seq<u64> {
    keys.filter(|k: u64| m.records[k].state == state)
}

proof fn lemma_count<D>(m: AssetModel<D>, keys: Seq<u64>, state: AssetState)
    requires
        keys.no_duplicates(),
        keys.to_set() == m.records.dom(),
    ensures
        count_in(m, state) == keys_with(m, keys, state).len(),
{
    let f = |k: u64| m.records[k].state == state;
    let r = keys.filter(f);
    lemma_filter_contains(keys, f);
    lemma_filter_distinct(keys, f);
    r.unique_seq_to_set();
    assert(r == keys_with(m, keys, state));
    assert(r.to_set() =~= m.records.dom().filter(|k: u64| m.records[k].state == state)) by {
        assert forall|k: u64|
            r.to_set().contains(k) == m.records.dom().filter(
                |k: u64| m.records[k].state == state,
            ).contains(k) by {
            assert(r.contains(k) <==> keys.contains(k) && f(k));
            assert(keys.to_set().contains(k) == m.records.dom().contains(k));
        }
    }
}

impl<D> AssetManager<D> {
    /// Counts over the whole library.
    pub fn status(&self) -> (s: AssetStatus)
        requires
            self.wf(),
        ensures
            s.entries == self@.records.dom().len(),
            s.loading == count_in(self@, AssetState::Loading),
            s.ready == count_in(self@, AssetState::Resident) + count_in(self@, AssetState::Pinned),
            s.disk_only == count_in(self@, AssetState::DiskOnly),
            s.in_flight == self@.in_flight.len(),
            s.loading + s.ready + s.disk_only == s.entries,
    {
        let ghost m = self@;
        let ghost keys = self.entries@.map_values(|e: super::Entry<D>| e.key);
        let mut loading: usize = 0;
        let mut ready: usize = 0;
        let mut disk_only: usize = 0;
        let mut i: usize = 0;
        let ghost mut resident: nat = 0;
        let ghost mut pinned: nat = 0;
        proof {
            reveal(Seq::filter);
            assert(keys.take(0) =~= Seq::<u64>::empty());
        }
        while i < self.entries.len()
            invariant
                self.wf(),
                m == self@,
                keys == self.entries@.map_values(|e: super::Entry<D>| e.key),
                i <= self.entries@.len(),
                loading + ready + disk_only == i,
                loading == keys_with(m, keys.take(i as int), AssetState::Loading).len(),
                resident == keys_with(m, keys.take(i as int), AssetState::Resident).len(),
                pinned == keys_with(m, keys.take(i as int), AssetState::Pinned).len(),
                ready == resident + pinned,
                disk_only == keys_with(m, keys.take(i as int), AssetState::DiskOnly).len(),
            decreases self.entries@.len() - i,
        {
            proof {
                reveal(Seq::filter);
                assert(keys.take(i as int + 1).drop_last() =~= keys.take(i as int));
                assert(keys.take(i as int + 1).last() == self.entries@[i as int].key);
                let k = self.entries@[i as int].key;
                assert(slot_values(self.slots).contains_key(k));
                assert(slot_values(self.slots)[k] == i);
                assert(m.records[k] == record_of(self.entries@[i as int]));
                assert(m.records.contains_key(k));
            }
            match self.entries[i].state {
                AssetState::Loading => {
                    loading = loading + 1;
                },
                AssetState::Resident => {
                    ready = ready + 1;
                    proof {
                        resident = resident + 1;
                    }
                },
                AssetState::Pinned => {
                    ready = ready + 1;
                    proof {
                        pinned = pinned + 1;
                    }
                },
                AssetState::DiskOnly => {
                    disk_only = disk_only + 1;
                },
                AssetState::Unloaded => {},
            }
            i += 1;
        }
        proof {
            assert(keys.take(i as int) =~= keys);
            super::lemma_dom_len(self.slots, self.entries@);
            assert(keys.no_duplicates()) by {
                assert forall|a: int, b: int|
                    0 <= a < keys.len() && 0 <= b < keys.len() && a != b implies keys[a]
                    != keys[b] by {
                    assert(slot_values(self.slots)[self.entries@[a].key] == a);
                    assert(slot_values(self.slots)[self.entries@[b].key] == b);
                }
            }
            assert(keys.to_set() =~= m.records.dom()) by {
                assert forall|k: u64| keys.to_set().contains(k) == m.records.dom().contains(k) by {
                    if keys.contains(k) {
                        let a = choose|a: int| 0 <= a < keys.len() && keys[a] == k;
                        assert(slot_values(self.slots).contains_key(self.entries@[a].key));
                    }
                    if m.records.contains_key(k) {
                        assert(keys[slot_values(self.slots)[k] as int] == k);
                    }
                }
            }
            lemma_count(m, keys, AssetState::Loading);
            lemma_count(m, keys, AssetState::Resident);
            lemma_count(m, keys, AssetState::Pinned);
            lemma_count(m, keys, AssetState::DiskOnly);
        }
        AssetStatus {
            entries: self.entries.len(),
            loading,
            ready,
            disk_only,
            in_flight: self.in_flight.len(),
        }
    }
}

} // verus!
