//! The pins of a scene: its assets stay in memory while it is shown.
use crate::asset::{AssetManager, AssetModel, AssetState};
use crate::handle::{key_determines_handle, Handle};
use vstd::prelude::*;

verus! {

/// The library after a pin.
pub open spec fn pinned_one<D>(m: AssetModel<D>, h: Handle) -> AssetModel<D> {
    if m.records.contains_key(h.spec_key()) {
        m.ticked().with(
            h.spec_key(),
            m.records[h.spec_key()].pinned((m.clock + 1) as u64),
        )
    } else {
        m.ticked()
    }
}

/// The library after a pin was taken back.
pub open spec fn unpinned_one<D>(m: AssetModel<D>, h: Handle) -> AssetModel<D> {
    if m.records.contains_key(h.spec_key()) {
        m.with(h.spec_key(), m.records[h.spec_key()].unpinned())
    } else {
        m
    }
}

/// The library after the first `n` assets of a list were pinned.
pub open spec fn pinned_all<D>(m: AssetModel<D>, list: Seq<Handle>, n: nat) -> AssetModel<D>
    decreases n,
{
    if n == 0 {
        m
    } else {
        pinned_one(pinned_all(m, list, (n - 1) as nat), list[n as int - 1])
    }
}

/// The library after the pins of the first `n` assets of a list were taken back.
pub open spec fn unpinned_all<D>(m: AssetModel<D>, list: Seq<Handle>, n: nat) -> AssetModel<D>
    decreases n,
{
    if n == 0 {
        m
    } else {
        unpinned_one(unpinned_all(m, list, (n - 1) as nat), list[n as int - 1])
    }
}

proof fn lemma_pinned_all<D>(m: AssetModel<D>, list: Seq<Handle>, n: nat, k: Handle)
    requires
        list.no_duplicates(),
        n <= list.len(),
        m.clock + n <= u64::MAX,
    ensures
        ({
            let r = pinned_all(m, list, n);
            &&& r.clock == m.clock + n
            &&& r.records.dom() == m.records.dom()
            &&& m.records.contains_key(k.spec_key()) ==> {
                let a = m.records[k.spec_key()];
                let b = r.records[k.spec_key()];
                if list.take(n as int).contains(k) {
                    b.gc.pins == (a.gc.pins + 1) as u32 && b.state == AssetState::Pinned && b.data
                        == a.data && b.origin == a.origin
                } else {
                    b == a
                }
            }
        }),
    decreases n,
{
    if n > 0 {
        lemma_pinned_all(m, list, (n - 1) as nat, k);
        let r = pinned_all(m, list, (n - 1) as nat);
        let h = list[n as int - 1];
        let i = n as int - 1;
        crate::lists::lemma_take_next(list, i);
        key_determines_handle(h, k);
        assert(list.take(i + 1) =~= list.take(n as int));
        assert(list.take(i + 1).contains(k) <==> list.take(i).contains(k) || k == h);
        assert(pinned_one(r, h).records.dom() =~= m.records.dom());
    } else {
        assert(list.take(0).len() == 0);
    }
}

proof fn lemma_unpinned_all<D>(m: AssetModel<D>, list: Seq<Handle>, n: nat, k: Handle)
    requires
        list.no_duplicates(),
        n <= list.len(),
    ensures
        ({
            let r = unpinned_all(m, list, n);
            &&& r.clock == m.clock
            &&& r.records.dom() == m.records.dom()
            &&& m.records.contains_key(k.spec_key()) ==> r.records[k.spec_key()] == (
            if list.take(n as int).contains(k) {
                m.records[k.spec_key()].unpinned()
            } else {
                m.records[k.spec_key()]
            })
        }),
    decreases n,
{
    if n > 0 {
        lemma_unpinned_all(m, list, (n - 1) as nat, k);
        let r = unpinned_all(m, list, (n - 1) as nat);
        let h = list[n as int - 1];
        let i = n as int - 1;
        crate::lists::lemma_take_next(list, i);
        key_determines_handle(h, k);
        assert(list.take(i + 1) =~= list.take(n as int));
        assert(list.take(i + 1).contains(k) <==> list.take(i).contains(k) || k == h);
        assert(unpinned_one(r, h).records.dom() =~= m.records.dom());
    } else {
        assert(list.take(0).len() == 0);
    }
}

/// There is room for one more pin on each asset of the list.
pub open spec fn can_pin<D>(m: AssetModel<D>, list: Seq<Handle>) -> bool {
    &&& m.clock + list.len() <= u64::MAX
    &&& forall|i: int|
        0 <= i < list.len() && m.records.contains_key((#[trigger] list[i]).spec_key())
            ==> m.records[list[i].spec_key()].gc.pins < u32::MAX
}

/// Whether there is room for one more pin on each asset of the list.
pub fn is_pinnable<D>(assets: &AssetManager<D>, list: &Vec<Handle>) -> (b: bool)
    requires
        assets.wf(),
    ensures
        b == can_pin(assets@, list@),
{
    if list.len() as u64 > u64::MAX - assets.clock() {
        return false;
    }
    let mut i: usize = 0;
    while i < list.len()
        invariant
            assets.wf(),
            i <= list@.len(),
            assets@.clock + list@.len() <= u64::MAX,
            forall|j: int|
                0 <= j < i && assets@.records.contains_key((#[trigger] list@[j]).spec_key())
                    ==> assets@.records[list@[j].spec_key()].gc.pins < u32::MAX,
        decreases list@.len() - i,
    {
        if assets.pin_count(list[i]) == u32::MAX {
            return false;
        }
        i += 1;
    }
    true
}

/// The assets that the scene on show has pinned.
#[derive(Debug)]
pub struct ScenePins {
    handles: Vec<Handle>,
}

impl View for ScenePins {
    type V = Seq<Handle>;

    closed spec fn view(&self) -> Seq<Handle> {
        self.handles@
    }
}

impl ScenePins {
    /// No scene is on show.
    pub fn new() -> (p: ScenePins)
        ensures
            p@.len() == 0,
    {
        ScenePins { handles: Vec::new() }
    }

    /// Shows another scene: pins its assets first, then takes back the pins of the scene before,
    /// so that what both need never goes.
    pub fn replace<D>(&mut self, assets: &mut AssetManager<D>, next: Vec<Handle>)
        requires
            old(assets).wf(),
            next@.no_duplicates(),
            can_pin(old(assets)@, next@),
        ensures
            final(assets).wf(),
            final(assets).issued() == old(assets).issued(),
            final(self)@ == next@,
            final(assets)@ == unpinned_all(
                pinned_all(old(assets)@, next@, next@.len()),
                old(self)@,
                old(self)@.len(),
            ),
    {
        let ghost before = assets@;
        let mut i: usize = 0;
        while i < next.len()
            invariant
                assets.wf(),
                assets.issued() == old(assets).issued(),
                i <= next@.len(),
                next@.no_duplicates(),
                can_pin(before, next@),
                assets@ == pinned_all(before, next@, i as nat),
            decreases next@.len() - i,
        {
            proof {
                lemma_pinned_all(before, next@, i as nat, next@[i as int]);
                crate::lists::lemma_take_next(next@, i as int);
            }
            assets.pin(next[i]);
            i += 1;
        }
        let ghost shown = assets@;
        let mut j: usize = 0;
        while j < self.handles.len()
            invariant
                assets.wf(),
                assets.issued() == old(assets).issued(),
                *self == *old(self),
                j <= self.handles@.len(),
                assets@ == unpinned_all(shown, self.handles@, j as nat),
            decreases self.handles@.len() - j,
        {
            assets.unpin(self.handles[j]);
            j += 1;
        }
        self.handles = next;
    }
}

/// When another scene is shown, what both scenes need keeps its pin and its data, what only the
/// old one needed loses one pin, what only the new one needs gains one, and nothing else changes.
pub proof fn replacing_moves_pins<D>(
    m: AssetModel<D>,
    old_list: Seq<Handle>,
    new_list: Seq<Handle>,
    h: Handle,
)
    requires
        old_list.no_duplicates(),
        new_list.no_duplicates(),
        can_pin(m, new_list),
        m.records.contains_key(h.spec_key()),
        old_list.contains(h) ==> m.records[h.spec_key()].gc.pins > 0,
    ensures
        ({
            let after = unpinned_all(
                pinned_all(m, new_list, new_list.len()),
                old_list,
                old_list.len(),
            );
            let a = m.records[h.spec_key()];
            let b = after.records[h.spec_key()];
            &&& after.records.contains_key(h.spec_key())
            &&& b.data == a.data && b.origin == a.origin
            &&& old_list.contains(h) && new_list.contains(h) ==> b.gc.pins == a.gc.pins && b.state
                == AssetState::Pinned
            &&& old_list.contains(h) && !new_list.contains(h) ==> b.gc.pins == a.gc.pins - 1
            &&& !old_list.contains(h) && new_list.contains(h) ==> b.gc.pins == a.gc.pins + 1
                && b.state == AssetState::Pinned
            &&& !old_list.contains(h) && !new_list.contains(h) ==> b == a
        }),
{
    let mid = pinned_all(m, new_list, new_list.len());
    lemma_pinned_all(m, new_list, new_list.len(), h);
    lemma_unpinned_all(mid, old_list, old_list.len(), h);
    assert(new_list.take(new_list.len() as int) =~= new_list);
    assert(old_list.take(old_list.len() as int) =~= old_list);
    if new_list.contains(h) {
        let i = choose|i: int| 0 <= i < new_list.len() && new_list[i] == h;
        assert(m.records[new_list[i].spec_key()].gc.pins < u32::MAX);
    }
}

} // verus!
