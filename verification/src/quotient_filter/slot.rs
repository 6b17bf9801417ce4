//! One slot of the quotient filter's table.

use vstd::prelude::*;

verus! {

/// A remainder and the three metadata bits that place it in a run and a cluster.
#[derive(Clone, Copy, Debug)]
pub struct Slot {
    /// The remainder stored in the slot.
    pub remainder: u64,
    /// Some stored remainder has this slot as its home.
    pub occupied: bool,
    /// The remainder is not the first of its run.
    pub continued: bool,
    /// The remainder is stored away from its home slot.
    pub shifted: bool,
}

impl Default for Slot {
    fn default() -> (s: Slot)
        ensures
            s.is_vacant(),
    {
        Slot { remainder: 0, occupied: false, continued: false, shifted: false }
    }
}

impl Slot {
    /// All three bits are clear and the remainder is zero.
    pub open spec fn is_vacant(&self) -> bool {
        self.remainder == 0 && !self.occupied && !self.continued && !self.shifted
    }

    pub fn is_empty(&self) -> (b: bool)
        ensures
            b == self.is_vacant(),
    {
        self.remainder == 0 && !self.occupied && !self.continued && !self.shifted
    }

    pub fn remainder(&self) -> (v: u64)
        ensures
            v == self.remainder,
    {
        self.remainder
    }

    pub fn set_remainder(&mut self, remainder: u64)
        ensures
            *final(self) == (Slot { remainder, ..*old(self) }),
    {
        self.remainder = remainder;
    }

    pub fn is_occupied(&self) -> (b: bool)
        ensures
            b == self.occupied,
    {
        self.occupied
    }

    pub fn set_occupied(&mut self, value: bool)
        ensures
            *final(self) == (Slot { occupied: value, ..*old(self) }),
    {
        self.occupied = value;
    }

    pub fn is_continued(&self) -> (b: bool)
        ensures
            b == self.continued,
    {
        self.continued
    }

    pub fn set_continued(&mut self, value: bool)
        ensures
            *final(self) == (Slot { continued: value, ..*old(self) }),
    {
        self.continued = value;
    }

    pub fn is_shifted(&self) -> (b: bool)
        ensures
            b == self.shifted,
    {
        self.shifted
    }

    pub fn set_shifted(&mut self, value: bool)
        ensures
            *final(self) == (Slot { shifted: value, ..*old(self) }),
    {
        self.shifted = value;
    }
}

} // verus!
