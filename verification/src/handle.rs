//! Handles: a slot together with the generation of the slot.
use vstd::prelude::*;

verus! {

/// Names an asset. When the asset is removed its slot moves on to the next generation, so that
/// the handle does not name what uses the slot next.
#[derive(Clone, Copy, Debug, PartialEq, Eq, Structural, Hash)]
pub struct Handle {
    pub index: u32,
    pub generation: u32,
}

impl Handle {
    /// Slot and generation as one number, the generation in the upper half.
    pub open spec fn spec_key(self) -> u64 {
        (self.generation * 0x1_0000_0000 + self.index) as u64
    }

    /// The slot.
    pub fn index(self) -> (i: usize)
        ensures
            i == self.index,
    {
        self.index as usize
    }

    /// The generation of the slot.
    pub fn generation(self) -> (g: u32)
        ensures
            g == self.generation,
    {
        self.generation
    }

    /// Slot and generation as one number.
    pub fn key(self) -> (k: u64)
        ensures
            k == self.spec_key(),
    {
        self.generation as u64 * 0x1_0000_0000 + self.index as u64
    }

    /// The handle of a number.
    pub fn from_key(key: u64) -> (h: Handle)
        ensures
            h.spec_key() == key,
    {
        Handle {
            index: (key % 0x1_0000_0000) as u32,
            generation: (key / 0x1_0000_0000) as u32,
        }
    }
}

/// Two handles with the same number are the same handle.
pub proof fn key_determines_handle(a: Handle, b: Handle)
    ensures
        a.spec_key() == b.spec_key() <==> a == b,
{
}

/// A key holds the generation above and the index below, 32 bits each.
pub proof fn keys_hold_generation_and_index(h: Handle)
    ensures
        h.spec_key() / 0x1_0000_0000 == h.generation,
        h.spec_key() % 0x1_0000_0000 == h.index,
        h.spec_key() == h.generation * 0x1_0000_0000 + h.index,
{
}

} // verus!
