//! Generational keys: the table that hands them out and tells live ones from stale ones.
use slotmap::{DefaultKey, Key, KeyData, SlotMap};
use vstd::prelude::*;

verus! {

/// A slot table of the `slotmap` crate that holds positions.
///
/// A key is a 64-bit number: the generation of the slot in the upper half, always odd, and the
/// number of the slot in the lower half.
#[verifier::external_body]
pub struct SlotTable {
    map: SlotMap<DefaultKey, usize>,
}

/// The live keys of a table with the positions they hold.
pub uninterp spec fn slot_values(t: SlotTable) -> Map<u64, usize>;

/// The keys of a table up to the present generation of each slot, live or not.
pub uninterp spec fn issued_keys(t: SlotTable) -> Set<u64>;

/// The generation of a key.
pub open spec fn generation_of(key: u64) -> int {
    key as int / 0x1_0000_0000
}

/// The number has the form of a key.
pub open spec fn is_key(key: u64) -> bool {
    generation_of(key) % 2 == 1
}

/// The position of a key, if the key is live.
pub open spec fn slot_lookup(t: SlotTable, key: u64) -> Option<usize> {
    if slot_values(t).contains_key(key) {
        Some(slot_values(t)[key])
    } else {
        None
    }
}

impl SlotTable {
    /// `SlotMap::new`: a table without keys.
    #[verifier::external_body]
    pub(crate) fn new() -> (t: SlotTable)
        ensures
            slot_values(t) =~= Map::empty(),
            issued_keys(t) =~= Set::empty(),
    {
        SlotTable { map: SlotMap::new() }
    }

    /// `SlotMap::insert`: the value gets a key that no present generation of a slot had before.
    /// A table of `u32::MAX - 1` values is full.
    #[verifier::external_body]
    pub(crate) fn insert(&mut self, value: usize) -> (key: u64)
        requires
            slot_values(*old(self)).dom().len() < 0xffff_fffe,
        ensures
            is_key(key),
            !issued_keys(*old(self)).contains(key),
            slot_values(*final(self)) == slot_values(*old(self)).insert(key, value),
            issued_keys(*final(self)) == issued_keys(*old(self)).insert(key),
    {
        self.map.insert(value).data().as_ffi()
    }

    /// `SlotMap::remove`: a live key gives its value back and dies. The slot moves on to the next
    /// generation; the generations of one slot begin anew behind the last that 32 bits hold.
    #[verifier::external_body]
    pub(crate) fn remove(&mut self, key: u64) -> (r: Option<usize>)
        requires
            is_key(key),
        ensures
            r == slot_lookup(*old(self), key),
            slot_values(*final(self)) == slot_values(*old(self)).remove(key),
            generation_of(key) < 0xffff_ffff ==> issued_keys(*final(self)) == issued_keys(
                *old(self),
            ),
            slot_values(*old(self)).dom().subset_of(issued_keys(*old(self))) ==> slot_values(
                *final(self),
            ).dom().subset_of(issued_keys(*final(self))),
    {
        self.map.remove(DefaultKey::from(KeyData::from_ffi(key)))
    }

    /// `SlotMap::get`: the value of a live key.
    #[verifier::external_body]
    pub(crate) fn get(&self, key: u64) -> (r: Option<usize>)
        requires
            is_key(key),
        ensures
            r == slot_lookup(*self, key),
    {
        self.map.get(DefaultKey::from(KeyData::from_ffi(key))).copied()
    }

    /// `SlotMap::get_mut`: replaces the value of a live key.
    #[verifier::external_body]
    pub(crate) fn set(&mut self, key: u64, value: usize)
        requires
            is_key(key),
            slot_values(*old(self)).contains_key(key),
        ensures
            slot_values(*final(self)) == slot_values(*old(self)).insert(key, value),
            issued_keys(*final(self)) == issued_keys(*old(self)),
    {
        *self.map.get_mut(DefaultKey::from(KeyData::from_ffi(key))).unwrap() = value;
    }

    /// The position of any number, live key or not.
    pub fn find(&self, key: u64) -> (r: Option<usize>)
        ensures
            r == (if is_key(key) {
                slot_lookup(*self, key)
            } else {
                None
            }),
    {
        if (key / 0x1_0000_0000) % 2 == 1 {
            self.get(key)
        } else {
            None
        }
    }
}

/// Keys of slots that hold something have an odd generation; others find nothing.
pub proof fn keys_have_an_odd_generation(key: u64, t: SlotTable)
    ensures
        is_key(key) <==> (key / 0x1_0000_0000) % 2 == 1,
        slot_lookup(t, key) is Some <==> slot_values(t).contains_key(key),
        slot_values(t).contains_key(key) ==> slot_lookup(t, key) == Some(slot_values(t)[key]),
{
}

} // verus!
