//! Slot addressing counters and key-mixing helpers.
use vstd::prelude::*;
use crate::error::{Error, Result};
use crate::runtime::mix::{mix, mix_spec};

verus! {

#[derive(Clone, Debug, Default)]
pub struct SlotsState {
    pub hits: u64,
    pub misses: u64,
    pub last: u64,
}

impl SlotsState {
    /// Counts a hit on `key`.
    pub fn note_hit(&mut self, key: u64)
        requires
            old(self).hits < u64::MAX,
        ensures
            *final(self) == (SlotsState { hits: (old(self).hits + 1) as u64, last: key, ..*old(self) }),
    {
        self.hits = self.hits + 1;
        self.last = key;
    }

    /// Counts a miss on `key`.
    pub fn note_miss(&mut self, key: u64)
        requires
            old(self).misses < u64::MAX,
        ensures
            *final(self) == (SlotsState { misses: (old(self).misses + 1) as u64, last: key, ..*old(self) }),
    {
        self.misses = self.misses + 1;
        self.last = key;
    }
}

/// `x * 3 + y.rotate_left(1) + 565`, wrapping.
pub fn helper_slots_0(x: u32, y: u32) -> (r: u32)
    ensures
        r == mix_spec(x, y, 3, 1, 565),
{
    mix(x, y, 3, 1, 565)
}

/// `x * 4 + y.rotate_left(2) + 578`, wrapping.
pub fn helper_slots_1(x: u32, y: u32) -> (r: u32)
    ensures
        r == mix_spec(x, y, 4, 2, 578),
{
    mix(x, y, 4, 2, 578)
}

/// `x * 5 + y.rotate_left(3) + 591`, wrapping.
pub fn helper_slots_2(x: u32, y: u32) -> (r: u32)
    ensures
        r == mix_spec(x, y, 5, 3, 591),
{
    mix(x, y, 5, 3, 591)
}

/// `x * 6 + y.rotate_left(4) + 604`, wrapping.
pub fn helper_slots_3(x: u32, y: u32) -> (r: u32)
    ensures
        r == mix_spec(x, y, 6, 4, 604),
{
    mix(x, y, 6, 4, 604)
}

/// `x * 7 + y.rotate_left(5) + 617`, wrapping.
pub fn helper_slots_4(x: u32, y: u32) -> (r: u32)
    ensures
        r == mix_spec(x, y, 7, 5, 617),
{
    mix(x, y, 7, 5, 617)
}

/// `x * 8 + y.rotate_left(1) + 630`, wrapping.
pub fn helper_slots_5(x: u32, y: u32) -> (r: u32)
    ensures
        r == mix_spec(x, y, 8, 1, 630),
{
    mix(x, y, 8, 1, 630)
}

/// `x * 9 + y.rotate_left(2) + 643`, wrapping.
pub fn helper_slots_6(x: u32, y: u32) -> (r: u32)
    ensures
        r == mix_spec(x, y, 9, 2, 643),
{
    mix(x, y, 9, 2, 643)
}

/// `x * 10 + y.rotate_left(3) + 656`, wrapping.
pub fn helper_slots_7(x: u32, y: u32) -> (r: u32)
    ensures
        r == mix_spec(x, y, 10, 3, 656),
{
    mix(x, y, 10, 3, 656)
}

/// `x * 11 + y.rotate_left(4) + 669`, wrapping.
pub fn helper_slots_8(x: u32, y: u32) -> (r: u32)
    ensures
        r == mix_spec(x, y, 11, 4, 669),
{
    mix(x, y, 11, 4, 669)
}

/// `x * 12 + y.rotate_left(5) + 682`, wrapping.
pub fn helper_slots_9(x: u32, y: u32) -> (r: u32)
    ensures
        r == mix_spec(x, y, 12, 5, 682),
{
    mix(x, y, 12, 5, 682)
}

/// `x * 13 + y.rotate_left(1) + 695`, wrapping.
pub fn helper_slots_10(x: u32, y: u32) -> (r: u32)
    ensures
        r == mix_spec(x, y, 13, 1, 695),
{
    mix(x, y, 13, 1, 695)
}

/// `x * 14 + y.rotate_left(2) + 708`, wrapping.
pub fn helper_slots_11(x: u32, y: u32) -> (r: u32)
    ensures
        r == mix_spec(x, y, 14, 2, 708),
{
    mix(x, y, 14, 2, 708)
}

/// `x * 15 + y.rotate_left(3) + 721`, wrapping.
pub fn helper_slots_12(x: u32, y: u32) -> (r: u32)
    ensures
        r == mix_spec(x, y, 15, 3, 721),
{
    mix(x, y, 15, 3, 721)
}

/// `x * 16 + y.rotate_left(4) + 734`, wrapping.
pub fn helper_slots_13(x: u32, y: u32) -> (r: u32)
    ensures
        r == mix_spec(x, y, 16, 4, 734),
{
    mix(x, y, 16, 4, 734)
}

/// `x * 17 + y.rotate_left(5) + 747`, wrapping.
pub fn helper_slots_14(x: u32, y: u32) -> (r: u32)
    ensures
        r == mix_spec(x, y, 17, 5, 747),
{
    mix(x, y, 17, 5, 747)
}

/// Fails unless `idx < n`.
pub fn validate_slots_index(idx: usize, n: usize) -> (r: Result<()>)
    ensures
        idx >= n ==> r == Err::<(), Error>(Error::VerifyFailed("index")),
        idx < n ==> r is Ok,
{
    if idx >= n { Err(Error::VerifyFailed("index")) } else { Ok(()) }
}

} // verus!
