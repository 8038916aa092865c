//! What the library promises as a whole.
use super::load::{
    all_entries, all_scanned, file_registered, parsed_file_registered, registered_all,
    scanned_file_registered, Batch, LoadError, NewEntry, ScannedType,
};
use super::pump::{completed, count_in, fill_step, pruned, rank, still_loading, supplied, supply};
use super::{
    access_of, after_get, gc_step, got, keys_in, lemma_reloadable, lemma_removed, reload_finished,
    typed_keys, unload_step, AssetManager, AssetModel, AssetRecord, AssetState,
};
use crate::game_path::Address;
use crate::gc::GcPolicy;
use crate::lists::{lemma_filter_contains, lemma_filter_distinct, lemma_filter_parts};
use crate::slots::slot_values;
use vstd::prelude::*;

verus! {

/// Every live key was handed out by the library.
pub proof fn live_keys_were_issued<D>(m: &AssetManager<D>)
    requires
        m.wf(),
    ensures
        m@.records.dom().subset_of(m.issued()),
{
    assert(m@.records.dom() =~= slot_values(m.slots).dom());
}

/// A handle that was handed out and is dead stays dead when another asset is registered, for the
/// new asset gets a key that was not handed out before.
pub proof fn dead_handles_stay_dead<D>(
    m: AssetModel<D>,
    issued: Set<u64>,
    dead: u64,
    key: u64,
    state: AssetState,
    type_tag: u64,
    origin: Option<(Address, u64)>,
    data: Option<D>,
)
    requires
        issued.contains(dead),
        !m.records.contains_key(dead),
        !issued.contains(key),
    ensures
        !m.registered(key, state, type_tag, origin, data).records.contains_key(dead),
        issued.insert(key).contains(dead),
{
}

/// A removed asset is gone and all others stay as they are.
pub proof fn removal_is_exact<D>(m: AssetModel<D>, key: u64, other: u64)
    ensures
        !m.removed(key).records.contains_key(key),
        other != key ==> m.removed(key).records.contains_key(other) == m.records.contains_key(
            other,
        ),
        other != key && m.records.contains_key(other) ==> m.removed(key).records[other]
            == m.records[other],
{
}

/// A pin and an unpin leave the number of pins as it was; an asset without other pins is back
/// in plain residence, one with other pins stays pinned.
pub proof fn pin_then_unpin<D>(r: AssetRecord<D>, now: u64)
    requires
        r.gc.pins < u32::MAX,
    ensures
        r.pinned(now).unpinned().gc.pins == r.gc.pins,
        r.pinned(now).unpinned().data == r.data,
        r.pinned(now).unpinned().origin == r.origin,
        r.pinned(now).unpinned().state == (if r.gc.pins == 0 {
            AssetState::Resident
        } else {
            AssetState::Pinned
        }),
{
}

/// A collection kills no handle and touches neither pinned assets, unless the policy evicts them,
/// nor recent ones, unless the policy ignores recency, nor data that has no file.
pub proof fn gc_spares_what_the_policy_protects<D>(
    m: AssetModel<D>,
    policy: GcPolicy,
    now: u64,
    k: u64,
)
    requires
        m.records.contains_key(k),
    ensures
        ({
            let after = m.mapped(gc_step(policy, now));
            let r = m.records[k];
            &&& after.records.contains_key(k)
            &&& r.gc.pins > 0 && !policy.evict_pinned ==> after.records[k] == r
            &&& !policy.ignore_stale_window && r.gc.last_used >= now ==> after.records[k] == r
            &&& r.origin is None ==> after.records[k] == r
            &&& after.records[k].gc == r.gc
            &&& after.records[k].origin == r.origin
        }),
{
}

/// What the policy does not protect is dropped from memory.
pub proof fn gc_drops_the_rest<D>(m: AssetModel<D>, policy: GcPolicy, now: u64, k: u64)
    requires
        m.records.contains_key(k),
        !policy.keeps(m.records[k].gc, now),
        m.records[k].origin is Some,
    ensures
        m.mapped(gc_step(policy, now)).records[k].data is None,
{
}

/// Collecting twice at the same time is collecting once.
pub proof fn gc_twice_is_once<D>(m: AssetModel<D>, policy: GcPolicy, now: u64)
    ensures
        m.mapped(gc_step(policy, now)).mapped(gc_step(policy, now)) == m.mapped(
            gc_step(policy, now),
        ),
{
    let once = m.mapped(gc_step(policy, now));
    assert(once.mapped(gc_step(policy, now)).records =~= once.records);
}

/// Data that was dropped from memory can be had again: its file and locator are kept, and once
/// the data is parsed again the asset is resident with that data.
pub proof fn dropped_data_can_be_reloaded<D>(
    m: AssetModel<D>,
    source: Address,
    extra: u64,
    k: u64,
    data: D,
)
    requires
        m.records.contains_key(k),
        m.records[k].origin == Some((source, extra)),
        m.reloadable.contains(source),
    ensures
        ({
            let dropped = m.mapped(unload_step(source));
            let r = dropped.records[k];
            &&& dropped.records.contains_key(k)
            &&& r.data is None
            &&& access_of(dropped, k) == Some(
                Some((source, m.records[k].type_tag, extra)),
            )
            &&& r.filled(data).state == AssetState::Resident
            &&& r.filled(data).data == Some(data)
        }),
{
}

/// A reload that failed can be tried again: the way to the data stays open, and a later reload
/// that succeeds gives the asset its data.
pub proof fn failed_reload_can_be_retried<D>(m: AssetModel<D>, k: u64, data: D)
    requires
        access_of(m, k) matches Some(w) && w is Some,
    ensures
        access_of(reload_finished(m, k, None), k) == access_of(m, k),
        ({
            let retried = reload_finished(reload_finished(m, k, None), k, Some(data));
            &&& retried.records[k].data == Some(data)
            &&& retried.records[k].state == AssetState::Resident
            &&& access_of(retried, k) == Some(None::<(Address, u64, u64)>)
        }),
{
}

/// What was dropped from memory comes back though a reload failed in between: the failed reload
/// leaves nothing to get, and getting it changes nothing; the next reload that succeeds leaves its
/// data to get.
pub proof fn dropped_data_comes_back_after_a_failed_reload<D>(
    m: AssetModel<D>,
    source: Address,
    extra: u64,
    k: u64,
    data: D,
)
    requires
        m.records.contains_key(k),
        m.records[k].origin == Some((source, extra)),
        m.reloadable.contains(source),
    ensures
        ({
            let dropped = m.mapped(unload_step(source));
            let failed = reload_finished(dropped, k, None);
            let asked = after_get(failed, k);
            let retried = reload_finished(asked, k, Some(data));
            &&& got(dropped, k) is None
            &&& got(failed, k) is None
            &&& asked == dropped
            &&& asked.records.contains_key(k)
            &&& access_of(asked, k) == Some(Some((source, m.records[k].type_tag, extra)))
            &&& got(retried, k) == Some(data)
            &&& got(after_get(retried, k), k) == Some(data)
        }),
{
}

/// A file can be read again for as long as one of its assets lives: removing an asset takes that
/// away exactly where it was the last one of its file, and from no other file.
pub proof fn file_stays_readable_until_its_last_asset_goes<D>(
    m: AssetModel<D>,
    key: u64,
    source: Address,
)
    requires
        m.consistent(),
        m.reloadable.contains(source),
    ensures
        m.removed(key).reloadable.contains(source) <==> !(m.records.contains_key(key)
            && m.records[key].source() == Some(source) && forall|k: u64|
            m.removed(key).records.contains_key(k) ==> #[trigger] m.removed(
                key,
            ).records[k].source() != Some(source)),
{
    let after = m.removed(key);
    if m.records.contains_key(key) && m.records[key].source() == Some(source) {
        lemma_removed(m, key);
        if after.files.contains_key(source) {
            let k = after.files[source][0];
            assert(after.files[source].contains(k));
            assert(after.records.contains_key(k) && after.records[k].source() == Some(source));
        } else {
            assert forall|k: u64| after.records.contains_key(k) implies #[trigger] after.records[k].source()
                != Some(source) by {
                if after.records[k].source() == Some(source) {
                    assert(after.files.contains_key(source));
                }
            }
        }
    }
}

/// A file that is known is not registered again, whether parsed or scanned.
pub proof fn known_file_is_not_registered_again<D>(
    before: AssetModel<D>,
    after: AssetModel<D>,
    source: Address,
    batches: Seq<Batch<D>>,
    types: Seq<ScannedType>,
    r: Result<(), LoadError>,
    q: Result<bool, LoadError>,
)
    requires
        before.files.contains_key(source),
        parsed_file_registered(before, after, source, batches, r) || scanned_file_registered(
            before,
            after,
            source,
            types,
            q,
        ),
    ensures
        after == before,
{
}

/// After a failed background parse nothing is left of the file: no asset, no index entry, no way
/// to read it again, no parse under way. Everything else is untouched.
pub proof fn failed_load_leaves_nothing<D>(m: AssetModel<D>, source: Address)
    requires
        m.consistent(),
        m.files.contains_key(source),
    ensures
        ({
            let after = completed(m, source, None);
            &&& !after.files.contains_key(source)
            &&& !after.reloadable.contains(source)
            &&& !after.in_flight.contains(source)
            &&& forall|k: u64| #[trigger]
                after.records.contains_key(k) ==> after.records[k].source() != Some(source)
            &&& forall|k: u64|
                m.records.contains_key(k) && m.records[k].source() != Some(source)
                    ==> #[trigger] after.records.contains_key(k) && after.records[k] == m.records[k]
        }),
{
    let idle = AssetModel { in_flight: m.in_flight.remove(source), ..m };
    let keys = m.files[source];
    let none = |k: u64| !(|k: u64| true)(k);
    lemma_filter_contains(keys, none);
    let after = completed(m, source, None);
    assert(keys.filter(none).len() == 0) by {
        if keys.filter(none).len() > 0 {
            assert(keys.filter(none).contains(keys.filter(none)[0]));
        }
    }
    assert(keys_in(idle, source) == keys);
    assert forall|k: u64| #[trigger] after.records.contains_key(k) implies after.records[k].source()
        != Some(source) by {
        if m.records[k].source() == Some(source) {
            assert(m.files.contains_key(source));
            assert(m.files[source].contains(k));
        }
    }
    assert forall|k: u64|
        m.records.contains_key(k) && m.records[k].source() != Some(
            source,
        ) implies #[trigger] after.records.contains_key(k) && after.records[k] == m.records[k] by {
        if keys.contains(k) {
            assert(m.files[source].contains(k));
        }
    }
}

/// After a finished background parse no asset of the file is waiting any more, so nobody who asks
/// for one waits for ever.
pub proof fn finished_load_leaves_nobody_waiting<D>(
    m: AssetModel<D>,
    source: Address,
    batches: Seq<Batch<D>>,
    k: u64,
)
    requires
        m.consistent(),
        completed(m, source, Some(batches)).records.contains_key(k),
        completed(m, source, Some(batches)).records[k].source() == Some(source),
    ensures
        completed(m, source, Some(batches)).records[k].state != AssetState::Loading,
        !completed(m, source, Some(batches)).in_flight.contains(source),
{
    assert(m.records.contains_key(k));
    assert(m.records[k].source() == Some(source));
    assert(m.files.contains_key(source) && m.files[source].contains(k));
}

/// From one state to another `came` assets came and `went` went, and the version counted each.
pub open spec fn counted<D>(
    before: AssetModel<D>,
    after: AssetModel<D>,
    came: nat,
    went: nat,
) -> bool {
    &&& before.records.dom().finite() ==> after.records.dom().finite()
        && after.records.dom().len() == before.records.dom().len() + came - went
    &&& after.version == before.version + came + went
}

/// An asset that is registered is one more, and the version counts it.
pub proof fn registering_counts_one<D>(
    m: AssetModel<D>,
    key: u64,
    state: AssetState,
    type_tag: u64,
    origin: Option<(Address, u64)>,
    data: Option<D>,
)
    requires
        !m.records.contains_key(key),
        m.version < u64::MAX,
    ensures
        counted(m, m.registered(key, state, type_tag, origin, data), 1, 0),
{
    let after = m.registered(key, state, type_tag, origin, data);
    assert(after.records.dom() =~= m.records.dom().insert(key));
}

/// An asset that is removed is one less, and the version counts it; removing a dead handle counts
/// nothing.
pub proof fn removing_counts_one<D>(m: AssetModel<D>, key: u64)
    requires
        m.records.contains_key(key) ==> m.version < u64::MAX,
    ensures
        counted(
            m,
            m.removed(key),
            0,
            if m.records.contains_key(key) {
                1
            } else {
                0
            },
        ),
{
    if m.records.contains_key(key) {
        assert(m.removed(key).records.dom() =~= m.records.dom().remove(key));
    }
}

/// Using, pinning, dropping from memory and reloading count nothing.
pub proof fn using_counts_nothing<D>(
    m: AssetModel<D>,
    key: u64,
    r: AssetRecord<D>,
    f: spec_fn(u64, AssetRecord<D>) -> AssetRecord<D>,
    data: Option<D>,
)
    ensures
        counted(m, m.ticked(), 0, 0),
        m.records.contains_key(key) ==> counted(m, m.with(key, r), 0, 0),
        counted(m, m.mapped(f), 0, 0),
        counted(m, reload_finished(m, key, data), 0, 0),
{
    assert(m.mapped(f).records.dom() =~= m.records.dom());
    if m.records.contains_key(key) {
        assert(m.with(key, r).records.dom() =~= m.records.dom());
        if data is Some {
            let filled = m.records[key].filled(data->0);
            assert(m.with(key, filled).records.dom() =~= m.records.dom());
        }
    }
}

proof fn lemma_pruning_counts<D>(m: AssetModel<D>, source: Address, drop: spec_fn(u64) -> bool)
    requires
        m.consistent(),
        m.version + keys_in(m, source).len() <= u64::MAX,
    ensures
        counted(m, pruned(m, source, drop), 0, keys_in(m, source).filter(drop).len()),
{
    let keys = keys_in(m, source);
    let gone = keys.filter(drop);
    let after = pruned(m, source, drop);
    lemma_filter_parts(keys, drop);
    lemma_filter_contains(keys, drop);
    lemma_filter_distinct(keys, drop);
    assert(keys.filter(|k: u64| !drop(k)).len() + gone.len() == keys.len());
    if m.records.dom().finite() {
        gone.unique_seq_to_set();
        assert(gone.to_set().subset_of(m.records.dom())) by {
            assert forall|k: u64| gone.to_set().contains(k) implies m.records.dom().contains(k) by {
                assert(gone.contains(k));
                assert(m.files[source].contains(k));
            }
        }
        assert(after.records.dom() =~= m.records.dom().difference(gone.to_set())) by {
            assert forall|k: u64|
                after.records.dom().contains(k) == m.records.dom().difference(
                    gone.to_set(),
                ).contains(k) by {
                assert(gone.contains(k) <==> keys.contains(k) && drop(k));
            }
        }
        vstd::set_lib::lemma_set_disjoint_lens(after.records.dom(), gone.to_set());
        assert(after.records.dom() + gone.to_set() =~= m.records.dom());
    }
}

/// The number of assets that the end of a background parse drops.
pub open spec fn dropped_by<D>(
    m: AssetModel<D>,
    source: Address,
    outcome: Option<Seq<Batch<D>>>,
) -> nat {
    let idle = AssetModel { in_flight: m.in_flight.remove(source), ..m };
    let keys = keys_in(m, source);
    match outcome {
        Some(batches) => keys.filter(
            still_loading(idle.mapped(fill_step(idle, keys, batches))),
        ).len(),
        None => keys.len(),
    }
}

/// The end of a background parse counts the assets that it drops, and nothing else.
pub proof fn finishing_counts_what_is_dropped<D>(
    m: AssetModel<D>,
    source: Address,
    outcome: Option<Seq<Batch<D>>>,
)
    requires
        m.consistent(),
        m.version + keys_in(m, source).len() <= u64::MAX,
    ensures
        counted(m, completed(m, source, outcome), 0, dropped_by(m, source, outcome)),
{
    let idle = AssetModel { in_flight: m.in_flight.remove(source), ..m };
    let keys = keys_in(m, source);
    lemma_reloadable(m, idle);
    assert(keys_in(idle, source) == keys);
    match outcome {
        Some(batches) => {
            let filled = idle.mapped(fill_step(idle, keys, batches));
            assert(filled.records.dom() =~= m.records.dom());
            lemma_filled(idle, keys, batches);
            lemma_pruning_counts(filled, source, still_loading(filled));
        },
        None => {
            let all = |k: u64| true;
            crate::lists::lemma_filter_all(keys, all);
            lemma_pruning_counts(idle, source, all);
        },
    }
}

proof fn lemma_filled<D>(m: AssetModel<D>, keys: Seq<u64>, batches: Seq<Batch<D>>)
    requires
        m.consistent(),
    ensures
        m.mapped(fill_step(m, keys, batches)).consistent(),
{
    let n = m.mapped(fill_step(m, keys, batches));
    assert forall|a: Address, k: u64|
        n.files.contains_key(a) && #[trigger] n.files[a].contains(k) implies n.records.contains_key(
        k,
    ) && n.records[k].source() == Some(a) by {
        assert(m.files[a].contains(k));
    }
    assert forall|k: u64, a: Address|
        n.records.contains_key(k) && #[trigger] n.records[k].source() == Some(a) implies #[trigger] n.files.contains_key(
        a,
    ) && n.files[a].contains(k) by {
        assert(m.records[k].source() == Some(a));
        assert(m.files.contains_key(a));
    }
    assert forall|k: u64| #[trigger] n.records.contains_key(k) implies n.records[k].gc.last_used
        <= n.clock && n.records[k].state != AssetState::Unloaded by {
        assert(m.records.contains_key(k));
    }
}

/// The sum of a list.
pub open spec fn sum(list: Seq<nat>) -> nat
    decreases list.len(),
{
    if list.len() == 0 {
        0
    } else {
        sum(list.drop_last()) + list.last()
    }
}

/// The states of a library from when it was made, with the numbers of assets that came and went
/// between them.
pub open spec fn history<D>(
    states: Seq<AssetModel<D>>,
    came: Seq<nat>,
    went: Seq<nat>,
) -> bool {
    &&& came.len() == went.len()
    &&& states.len() == came.len() + 1
    &&& states[0].records == Map::<u64, AssetRecord<D>>::empty()
    &&& states[0].version == 0
    &&& forall|i: int|
        0 <= i < came.len() ==> counted(states[i], states[i + 1], #[trigger] came[i], went[i])
}

/// Whatever was done to a library, it holds as many assets as came less those that went, and its
/// version is the number of both together.
pub proof fn length_and_version_follow_from_the_changes<D>(
    states: Seq<AssetModel<D>>,
    came: Seq<nat>,
    went: Seq<nat>,
)
    requires
        history(states, came, went),
    ensures
        states.last().records.dom().finite(),
        states.last().records.dom().len() == sum(came) - sum(went),
        states.last().version == sum(came) + sum(went),
    decreases came.len(),
{
    if came.len() == 0 {
        assert(states.last().records.dom() =~= Set::<u64>::empty());
    } else {
        let n = came.len() - 1;
        let past = states.drop_last();
        assert forall|i: int| 0 <= i < came.drop_last().len() implies counted(
            past[i],
            past[i + 1],
            #[trigger] came.drop_last()[i],
            went.drop_last()[i],
        ) by {
            assert(counted(states[i], states[i + 1], came[i], went[i]));
        }
        length_and_version_follow_from_the_changes(past, came.drop_last(), went.drop_last());
        assert(counted(states[n], states[n + 1], came[n], went[n]));
    }
}

/// What was registered is there under its key as it was given: in its state, of its type, from its
/// file, with its data, unpinned and used just now. It comes last in its file. All other assets
/// and files stay.
pub proof fn registering_is_exact<D>(
    m: AssetModel<D>,
    key: u64,
    state: AssetState,
    type_tag: u64,
    origin: Option<(Address, u64)>,
    data: Option<D>,
    other: u64,
    file: Address,
)
    requires
        !m.records.contains_key(key),
        m.clock < u64::MAX,
        m.version < u64::MAX,
    ensures
        ({
            let after = m.registered(key, state, type_tag, origin, data);
            let r = after.records[key];
            &&& after.records.contains_key(key)
            &&& r.state == state
            &&& r.type_tag == type_tag
            &&& r.origin == origin
            &&& r.data == data
            &&& r.gc.pins == 0
            &&& r.gc.last_used == m.clock + 1
            &&& after.clock == m.clock + 1
            &&& after.version == m.version + 1
            &&& after.reloadable == m.reloadable
            &&& after.in_flight == m.in_flight
            &&& other != key ==> after.records.contains_key(other) == m.records.contains_key(other)
            &&& other != key && m.records.contains_key(other) ==> after.records[other]
                == m.records[other]
            &&& origin is None ==> after.files == m.files
            &&& origin is Some ==> after.files.contains_key((origin->0).0)
                && after.files[(origin->0).0].last() == key
            &&& origin is Some && m.files.contains_key((origin->0).0)
                ==> after.files[(origin->0).0].drop_last() == m.files[(origin->0).0]
            &&& origin is Some && !m.files.contains_key((origin->0).0)
                ==> after.files[(origin->0).0].len() == 1
            &&& origin is Some && file != (origin->0).0 ==> after.files.contains_key(file)
                == m.files.contains_key(file) && (m.files.contains_key(file) ==> after.files[file]
                == m.files[file])
        }),
{
}

/// Pinning counts one pin, stamps the time and marks the asset; unpinning takes one pin back, and
/// with the last one the mark; using stamps the time; filling brings data in; each leaves the
/// rest of the record alone.
pub proof fn records_change_by_one_thing<D>(r: AssetRecord<D>, now: u64, data: D)
    requires
        r.gc.pins < u32::MAX,
    ensures
        r.pinned(now).gc.pins == r.gc.pins + 1,
        r.pinned(now).gc.last_used == now,
        r.pinned(now).state == AssetState::Pinned,
        r.pinned(now).data == r.data && r.pinned(now).origin == r.origin && r.pinned(now).type_tag
            == r.type_tag,
        r.gc.pins > 0 ==> r.unpinned().gc.pins == r.gc.pins - 1,
        r.gc.pins == 0 ==> r.unpinned().gc.pins == 0,
        r.unpinned().gc.last_used == r.gc.last_used,
        r.gc.pins <= 1 ==> r.unpinned().state == AssetState::Resident,
        r.gc.pins > 1 ==> r.unpinned().state == r.state,
        r.unpinned().data == r.data && r.unpinned().origin == r.origin && r.unpinned().type_tag
            == r.type_tag,
        r.touched(now).gc.last_used == now,
        r.touched(now).gc.pins == r.gc.pins,
        r.touched(now).state == r.state && r.touched(now).data == r.data && r.touched(now).origin
            == r.origin && r.touched(now).type_tag == r.type_tag,
        r.filled(data).data == Some(data),
        r.filled(data).state == AssetState::Resident,
        r.filled(data).gc == r.gc && r.filled(data).origin == r.origin && r.filled(data).type_tag
            == r.type_tag,
        r.origin is Some && r.data is Some ==> r.evicted().data is None && r.evicted().state
            == AssetState::DiskOnly,
        r.origin is None || r.data is None ==> r.evicted() == r,
        r.evicted().gc == r.gc && r.evicted().origin == r.origin && r.evicted().type_tag
            == r.type_tag,
{
}

/// Asking for an asset gives the data it has, stamps the time of use on it and nothing on any
/// other; asking for what is not there changes nothing.
pub proof fn asking_stamps_the_use<D>(m: AssetModel<D>, key: u64, other: u64)
    requires
        m.clock < u64::MAX,
    ensures
        m.records.contains_key(key) ==> got(m, key) == m.records[key].data,
        !m.records.contains_key(key) ==> got(m, key) is None,
        m.records.contains_key(key) && m.records[key].data is Some ==> {
            let after = after_get(m, key);
            &&& after.clock == m.clock + 1
            &&& after.records[key].gc.last_used == m.clock + 1
            &&& after.records[key].gc.pins == m.records[key].gc.pins
            &&& after.records[key].data == m.records[key].data
            &&& after.records[key].state == m.records[key].state
            &&& after.records.contains_key(other) == m.records.contains_key(other)
            &&& other != key && m.records.contains_key(other) ==> after.records[other]
                == m.records[other]
            &&& after.files == m.files && after.version == m.version
        },
        got(m, key) is None ==> after_get(m, key) == m,
{
}

/// Data that is there is ready. Data that was dropped is to be read again from the file and under
/// the locator that it came from, while that file can be read; all else is missing.
pub proof fn dropped_data_is_asked_of_its_file<D>(m: AssetModel<D>, key: u64)
    ensures
        access_of(m, key) == Some(None::<(Address, u64, u64)>) <==> m.records.contains_key(key)
            && m.records[key].data is Some,
        access_of(m, key) matches Some(Some((a, t, x))) ==> {
            &&& m.records.contains_key(key)
            &&& m.records[key].data is None
            &&& m.records[key].origin == Some((a, x))
            &&& m.records[key].type_tag == t
            &&& m.reloadable.contains(a)
        },
        access_of(m, key) is None <==> !m.records.contains_key(key) || (m.records[key].data is None
            && (m.records[key].origin is None || !m.reloadable.contains(
            (m.records[key].origin->0).0,
        ))),
{
}

/// Unloading a file drops the data of its assets, which stay known; no other asset changes.
pub proof fn unloading_drops_one_file<D>(m: AssetModel<D>, source: Address, k: u64)
    requires
        m.records.contains_key(k),
    ensures
        ({
            let after = m.mapped(unload_step(source));
            let r = m.records[k];
            let s = after.records[k];
            &&& after.records.contains_key(k)
            &&& r.origin is Some && (r.origin->0).0 == source ==> s.data is None && s.origin
                == r.origin && s.type_tag == r.type_tag && s.gc == r.gc
            &&& r.origin is Some && (r.origin->0).0 == source && r.data is Some ==> s.state
                == AssetState::DiskOnly
            &&& r.origin is None || (r.origin->0).0 != source ==> s == r
            &&& after.files == m.files
            &&& after.reloadable == m.reloadable
        }),
{
}

/// The handles of a type that a file has are those of its assets of that type, each once and in
/// the order of their registration.
pub proof fn typed_keys_are_the_assets_of_that_type<D>(
    m: AssetModel<D>,
    source: Address,
    type_tag: u64,
    k: u64,
)
    requires
        m.consistent(),
    ensures
        typed_keys(m.records, keys_in(m, source), type_tag).contains(k) <==> m.records.contains_key(
            k,
        ) && m.records[k].type_tag == type_tag && m.records[k].origin is Some
            && (m.records[k].origin->0).0 == source,
        typed_keys(m.records, keys_in(m, source), type_tag).no_duplicates(),
{
    let keys = keys_in(m, source);
    let f = |k: u64| m.records.contains_key(k) && m.records[k].type_tag == type_tag;
    lemma_filter_contains(keys, f);
    lemma_filter_distinct(keys, f);
    assert(typed_keys(m.records, keys, type_tag) == keys.filter(f));
    if m.records.contains_key(k) && m.records[k].origin is Some && (m.records[k].origin->0).0
        == source {
        assert(m.records[k].source() == Some(source));
        assert(m.files.contains_key(source) && m.files[source].contains(k));
    }
    if keys.contains(k) {
        assert(m.files.contains_key(source) && m.files[source].contains(k));
        assert(m.records[k].source() == Some(source));
    }
}

proof fn lemma_all_entries_at<D>(batches: Seq<Batch<D>>, b: int, i: int) -> (at: int)
    requires
        0 <= b < batches.len(),
        0 <= i < batches[b].entries@.len(),
    ensures
        0 <= at < all_entries(batches).len(),
        all_entries(batches)[at].type_tag == batches[b].type_tag,
        all_entries(batches)[at].extra == batches[b].entries@[i].extra,
        all_entries(batches)[at].data == Some(batches[b].entries@[i].data),
    decreases batches.len(),
{
    let front = batches.drop_last();
    let before = all_entries(front);
    if b < batches.len() - 1 {
        let at = lemma_all_entries_at(front, b, i);
        assert(all_entries(batches)[at] == before[at]);
        at
    } else {
        let at = before.len() + i;
        assert(all_entries(batches)[at] == super::load::batch_entries(batches.last())[i]);
        at
    }
}

/// The entries of a parse are those of its batches, one batch after another, each of the type of
/// its batch, with its locator and its data.
pub proof fn entries_are_those_of_the_batches<D>(
    batches: Seq<Batch<D>>,
    batch: Batch<D>,
    b: int,
    i: int,
)
    ensures
        all_entries(Seq::<Batch<D>>::empty()).len() == 0,
        all_entries(batches.push(batch)).len() == all_entries(batches).len()
            + batch.entries@.len(),
        0 <= i < all_entries(batches).len() ==> all_entries(batches.push(batch))[i] == all_entries(
            batches,
        )[i],
        0 <= i < batch.entries@.len() ==> all_entries(batches.push(batch))[all_entries(
            batches,
        ).len() + i] == (NewEntry {
            type_tag: batch.type_tag,
            extra: batch.entries@[i].extra,
            data: Some(batch.entries@[i].data),
        }),
        0 <= b < batches.len() && 0 <= i < batches[b].entries@.len() ==> all_entries(
            batches,
        ).contains(
            NewEntry {
                type_tag: batches[b].type_tag,
                extra: batches[b].entries@[i].extra,
                data: Some(batches[b].entries@[i].data),
            },
        ),
{
    assert(batches.push(batch).drop_last() =~= batches);
    if 0 <= b < batches.len() && 0 <= i < batches[b].entries@.len() {
        let at = lemma_all_entries_at(batches, b, i);
        assert(all_entries(batches)[at] == (NewEntry {
            type_tag: batches[b].type_tag,
            extra: batches[b].entries@[i].extra,
            data: Some(batches[b].entries@[i].data),
        }));
    }
}

/// The placeholders of a scan are those of its types, one type after another, each with its
/// locator and without data.
pub proof fn placeholders_are_those_of_the_scan<D>(
    types: Seq<ScannedType>,
    t: ScannedType,
    i: int,
)
    ensures
        all_scanned::<D>(Seq::<ScannedType>::empty()).len() == 0,
        all_scanned::<D>(types.push(t)).len() == all_scanned::<D>(types).len() + t.extras@.len(),
        0 <= i < all_scanned::<D>(types).len() ==> all_scanned::<D>(types.push(t))[i]
            == all_scanned::<D>(types)[i],
        0 <= i < t.extras@.len() ==> all_scanned::<D>(types.push(t))[all_scanned::<D>(types).len()
            + i] == (NewEntry::<D> { type_tag: t.type_tag, extra: t.extras@[i], data: None }),
{
    assert(types.push(t).drop_last() =~= types);
}

proof fn lemma_registered_record<D>(
    m: AssetModel<D>,
    source: Address,
    state: AssetState,
    entries: Seq<NewEntry<D>>,
    keys: Seq<u64>,
    n: nat,
    i: int,
    other: u64,
)
    requires
        n <= keys.len(),
        keys.len() == entries.len(),
        keys.no_duplicates(),
    ensures
        ({
            let after = registered_all(m, source, state, entries, keys, n);
            &&& 0 <= i < n ==> after.records.contains_key(keys[i]) && after.records[keys[i]].state
                == state && after.records[keys[i]].type_tag == entries[i].type_tag
                && after.records[keys[i]].origin == Some((source, entries[i].extra))
                && after.records[keys[i]].data == entries[i].data
                && after.records[keys[i]].gc.pins == 0
            &&& (forall|j: int| 0 <= j < n ==> #[trigger] keys[j] != other)
                ==> after.records.contains_key(other) == m.records.contains_key(other) && (
            m.records.contains_key(other) ==> after.records[other] == m.records[other])
        }),
    decreases n,
{
    if n > 0 {
        lemma_registered_record(m, source, state, entries, keys, (n - 1) as nat, i, other);
    }
}

/// After a file was registered, its assets are its entries in order: each under a key of its own,
/// in the given state, of its type, with its locator and its data. Every other asset stays, and
/// the file can be read again.
pub proof fn files_are_registered_entry_by_entry<D>(
    before: AssetModel<D>,
    after: AssetModel<D>,
    source: Address,
    state: AssetState,
    entries: Seq<NewEntry<D>>,
    i: int,
    other: u64,
)
    requires
        file_registered(before, after, source, state, entries),
        !before.files.contains_key(source),
        0 <= i < entries.len(),
    ensures
        after.files.contains_key(source),
        after.files[source].len() == entries.len(),
        after.files[source].no_duplicates(),
        ({
            let k = after.files[source][i];
            let r = after.records[k];
            &&& !before.records.contains_key(k)
            &&& after.records.contains_key(k)
            &&& r.state == state
            &&& r.type_tag == entries[i].type_tag
            &&& r.origin == Some((source, entries[i].extra))
            &&& r.data == entries[i].data
        }),
        after.reloadable.contains(source),
        before.records.contains_key(other) ==> after.records.contains_key(other)
            && after.records[other] == before.records[other],
{
    let keys = keys_in(after, source);
    lemma_registered_record(
        before,
        source,
        state,
        entries,
        keys,
        entries.len(),
        i,
        other,
    );
    assert(keys.len() > 0);
}

/// Where a background parse ends with one batch of a type, its entries fill the waiting assets of
/// that type in order: the asset that comes at some place among them gets the data at that place.
pub proof fn entries_fill_the_waiting_assets_in_order<D>(
    m: AssetModel<D>,
    source: Address,
    batches: Seq<Batch<D>>,
    b: int,
    place: int,
)
    requires
        m.consistent(),
        0 <= b < batches.len(),
        forall|c: int|
            0 <= c < batches.len() && c != b ==> (#[trigger] batches[c]).type_tag
                != batches[b].type_tag,
        0 <= place < batches[b].entries@.len(),
        place < typed_keys(m.records, keys_in(m, source), batches[b].type_tag).len(),
    ensures
        ({
            let k = typed_keys(m.records, keys_in(m, source), batches[b].type_tag)[place];
            let after = completed(m, source, Some(batches));
            &&& after.records.contains_key(k)
            &&& after.records[k].data == Some(batches[b].entries@[place].data)
            &&& after.records[k].state == AssetState::Resident
            &&& after.records[k].origin == m.records[k].origin
            &&& after.records[k].type_tag == batches[b].type_tag
        }),
{
    let keys = keys_in(m, source);
    let t = batches[b].type_tag;
    let list = typed_keys(m.records, keys, t);
    let k = list[place];
    assert(list.contains(k));
    typed_keys_are_the_assets_of_that_type(m, source, t, k);
    let idle = AssetModel { in_flight: m.in_flight.remove(source), ..m };
    assert(keys_in(idle, source) == keys);
    assert forall|j: int| 0 <= j < place implies list[j] != k by {}
    crate::text::lemma_first_index_is(list, k, place);
    assert(rank(idle, keys, k) == place);
    lemma_supply(batches, t, place, b, batches.len());
    assert(supplied(idle, keys, batches, k) == Some(batches[b].entries@[place].data));
    let f = |k: u64| m.records.contains_key(k) && m.records[k].type_tag == t;
    lemma_filter_contains(keys, f);
    assert(list == keys.filter(f));
    assert(keys.contains(k));
    let filled = idle.mapped(fill_step(idle, keys, batches));
    assert(filled.records.contains_key(k));
    assert(filled.records[k].state == AssetState::Resident);
    assert(!still_loading(filled)(k));
}

proof fn lemma_supply<D>(batches: Seq<Batch<D>>, t: u64, place: int, b: int, n: nat)
    requires
        0 <= b < n <= batches.len(),
        batches[b].type_tag == t,
        0 <= place < batches[b].entries@.len(),
        forall|c: int| 0 <= c < batches.len() && c != b ==> (#[trigger] batches[c]).type_tag != t,
    ensures
        supply(batches, t, place, n) == Some(batches[b].entries@[place].data),
    decreases n,
{
    if b < n - 1 {
        lemma_supply(batches, t, place, b, (n - 1) as nat);
    }
}

/// The library has room for some more assets exactly where their number, the time of use and the
/// version still fit; a file that is known always finds room.
pub proof fn room_is_bounded_by_what_can_be_counted<D>(m: AssetModel<D>, source: Address, n: int)
    ensures
        m.roomy(n) <==> m.records.dom().len() + n <= 0xffff_fffe && m.clock + n <= u64::MAX
            && m.version + n <= u64::MAX,
        m.files.contains_key(source) ==> m.takes(source, n),
        !m.files.contains_key(source) ==> (m.takes(source, n) <==> m.roomy(n)),
{
}

/// An asset that comes in some state is counted there, and in no other state.
pub proof fn assets_are_counted_by_their_state<D>(
    m: AssetModel<D>,
    key: u64,
    state: AssetState,
    type_tag: u64,
    origin: Option<(Address, u64)>,
    data: Option<D>,
    other: AssetState,
)
    requires
        m.records.dom().finite(),
        !m.records.contains_key(key),
    ensures
        count_in(m.registered(key, state, type_tag, origin, data), state) == count_in(m, state) + 1,
        other != state ==> count_in(m.registered(key, state, type_tag, origin, data), other)
            == count_in(m, other),
        (forall|k: u64| #[trigger] m.records.contains_key(k) ==> m.records[k].state != state)
            ==> count_in(m, state) == 0,
{
    let after = m.registered(key, state, type_tag, origin, data);
    let a = m.records.dom().filter(|k: u64| m.records[k].state == state);
    let b = after.records.dom().filter(|k: u64| after.records[k].state == state);
    assert(b =~= a.insert(key));
    assert(a.finite()) by {
        m.records.dom().lemma_len_filter(|k: u64| m.records[k].state == state);
    }
    assert(!a.contains(key));
    let c = m.records.dom().filter(|k: u64| m.records[k].state == other);
    let d = after.records.dom().filter(|k: u64| after.records[k].state == other);
    if other != state {
        assert(c =~= d);
    }
    if forall|k: u64| #[trigger] m.records.contains_key(k) ==> m.records[k].state != state {
        assert(a =~= Set::<u64>::empty());
    }
}

/// After a finished background parse a file lists those of its assets that are still there, in
/// their order, and is forgotten where none is; all other files stay as they were.
pub proof fn finished_files_list_what_is_left<D>(
    m: AssetModel<D>,
    source: Address,
    batches: Seq<Batch<D>>,
    k: u64,
    other: Address,
)
    requires
        m.consistent(),
        m.files.contains_key(source),
    ensures
        ({
            let after = completed(m, source, Some(batches));
            &&& after.files.contains_key(source) ==> (after.files[source].contains(k)
                <==> m.files[source].contains(k) && after.records.contains_key(k))
            &&& after.files.contains_key(source) ==> after.files[source].no_duplicates()
            &&& m.files[source].contains(k) && after.records.contains_key(k)
                ==> after.files.contains_key(source)
            &&& !m.files[source].contains(k) ==> after.records.contains_key(k)
                == m.records.contains_key(k) && (m.records.contains_key(k) ==> after.records[k]
                == m.records[k])
            &&& other != source ==> after.files.contains_key(other) == m.files.contains_key(other)
                && (m.files.contains_key(other) ==> after.files[other] == m.files[other])
            &&& after.clock == m.clock
        }),
{
    let keys = keys_in(m, source);
    let idle = AssetModel { in_flight: m.in_flight.remove(source), ..m };
    let filled = idle.mapped(fill_step(idle, keys, batches));
    let drop = still_loading(filled);
    let keep = |k: u64| !drop(k);
    let left = keys.filter(keep);
    lemma_filter_contains(keys, keep);
    lemma_filter_distinct(keys, keep);
    assert(keys_in(filled, source) == keys);
    let after = completed(m, source, Some(batches));
    assert(after == pruned(filled, source, drop));
    if keys.contains(k) {
        assert(m.files[source].contains(k));
        assert(m.records.contains_key(k));
        assert(filled.records.contains_key(k));
        if !drop(k) {
            assert(left.contains(k));
        }
    }
}

/// A handle is ready where its asset is resident or pinned, loading while its file is parsed, on disk
/// only where its data was dropped, and invalid where it is dead.
pub proof fn handles_tell_the_state_of_their_asset<D>(
    m: &AssetManager<D>,
    h: crate::handle::Handle,
    r: super::HandleState,
)
    requires
        m.wf(),
        call_ensures(AssetManager::<D>::handle_state, (m, h), r),
    ensures
        !m@.records.contains_key(h.spec_key()) ==> r is Invalid,
        m@.records.contains_key(h.spec_key()) ==> (r is Ready <==> m@.records[h.spec_key()].state
            == AssetState::Resident || m@.records[h.spec_key()].state == AssetState::Pinned),
        m@.records.contains_key(h.spec_key()) ==> (r is Loading <==> m@.records[h.spec_key()].state
            == AssetState::Loading),
        m@.records.contains_key(h.spec_key()) ==> (r is DiskOnly <==> m@.records[h.spec_key()].state
            == AssetState::DiskOnly),
{
}

} // verus!
