//! Guard hit/miss counters and key-mixing helpers.
use vstd::prelude::*;
use crate::error::{Error, Result};
use crate::runtime::mix::{mix, mix_spec};

verus! {

#[derive(Clone, Debug, Default)]
pub struct GuardState {
    pub hits: u64,
    pub misses: u64,
    pub last: u64,
}

impl GuardState {
    /// Counts a hit on `key`.
    pub fn note_hit(&mut self, key: u64)
        requires
            old(self).hits < u64::MAX,
        ensures
            *final(self) == (GuardState { hits: (old(self).hits + 1) as u64, last: key, ..*old(self) }),
    {
        self.hits = self.hits + 1;
        self.last = key;
    }

    /// Counts a miss on `key`.
    pub fn note_miss(&mut self, key: u64)
        requires
            old(self).misses < u64::MAX,
        ensures
            *final(self) == (GuardState { misses: (old(self).misses + 1) as u64, last: key, ..*old(self) }),
    {
        self.misses = self.misses + 1;
        self.last = key;
    }
}

/// `x * 3 + y.rotate_left(1) + 531`, wrapping.
pub fn helper_guard_0(x: u32, y: u32) -> (r: u32)
    ensures
        r == mix_spec(x, y, 3, 1, 531),
{
    mix(x, y, 3, 1, 531)
}

/// `x * 4 + y.rotate_left(2) + 544`, wrapping.
pub fn helper_guard_1(x: u32, y: u32) -> (r: u32)
    ensures
        r == mix_spec(x, y, 4, 2, 544),
{
    mix(x, y, 4, 2, 544)
}

/// `x * 5 + y.rotate_left(3) + 557`, wrapping.
pub fn helper_guard_2(x: u32, y: u32) -> (r: u32)
    ensures
        r == mix_spec(x, y, 5, 3, 557),
{
    mix(x, y, 5, 3, 557)
}

/// `x * 6 + y.rotate_left(4) + 570`, wrapping.
pub fn helper_guard_3(x: u32, y: u32) -> (r: u32)
    ensures
        r == mix_spec(x, y, 6, 4, 570),
{
    mix(x, y, 6, 4, 570)
}

/// `x * 7 + y.rotate_left(5) + 583`, wrapping.
pub fn helper_guard_4(x: u32, y: u32) -> (r: u32)
    ensures
        r == mix_spec(x, y, 7, 5, 583),
{
    mix(x, y, 7, 5, 583)
}

/// `x * 8 + y.rotate_left(1) + 596`, wrapping.
pub fn helper_guard_5(x: u32, y: u32) -> (r: u32)
    ensures
        r == mix_spec(x, y, 8, 1, 596),
{
    mix(x, y, 8, 1, 596)
}

/// `x * 9 + y.rotate_left(2) + 609`, wrapping.
pub fn helper_guard_6(x: u32, y: u32) -> (r: u32)
    ensures
        r == mix_spec(x, y, 9, 2, 609),
{
    mix(x, y, 9, 2, 609)
}

/// `x * 10 + y.rotate_left(3) + 622`, wrapping.
pub fn helper_guard_7(x: u32, y: u32) -> (r: u32)
    ensures
        r == mix_spec(x, y, 10, 3, 622),
{
    mix(x, y, 10, 3, 622)
}

/// `x * 11 + y.rotate_left(4) + 635`, wrapping.
pub fn helper_guard_8(x: u32, y: u32) -> (r: u32)
    ensures
        r == mix_spec(x, y, 11, 4, 635),
{
    mix(x, y, 11, 4, 635)
}

/// `x * 12 + y.rotate_left(5) + 648`, wrapping.
pub fn helper_guard_9(x: u32, y: u32) -> (r: u32)
    ensures
        r == mix_spec(x, y, 12, 5, 648),
{
    mix(x, y, 12, 5, 648)
}

/// `x * 13 + y.rotate_left(1) + 661`, wrapping.
pub fn helper_guard_10(x: u32, y: u32) -> (r: u32)
    ensures
        r == mix_spec(x, y, 13, 1, 661),
{
    mix(x, y, 13, 1, 661)
}

/// `x * 14 + y.rotate_left(2) + 674`, wrapping.
pub fn helper_guard_11(x: u32, y: u32) -> (r: u32)
    ensures
        r == mix_spec(x, y, 14, 2, 674),
{
    mix(x, y, 14, 2, 674)
}

/// `x * 15 + y.rotate_left(3) + 687`, wrapping.
pub fn helper_guard_12(x: u32, y: u32) -> (r: u32)
    ensures
        r == mix_spec(x, y, 15, 3, 687),
{
    mix(x, y, 15, 3, 687)
}

/// `x * 16 + y.rotate_left(4) + 700`, wrapping.
pub fn helper_guard_13(x: u32, y: u32) -> (r: u32)
    ensures
        r == mix_spec(x, y, 16, 4, 700),
{
    mix(x, y, 16, 4, 700)
}

/// `x * 17 + y.rotate_left(5) + 713`, wrapping.
pub fn helper_guard_14(x: u32, y: u32) -> (r: u32)
    ensures
        r == mix_spec(x, y, 17, 5, 713),
{
    mix(x, y, 17, 5, 713)
}

/// Fails unless `idx < n`.
pub fn validate_guard_index(idx: usize, n: usize) -> (r: Result<()>)
    ensures
        idx >= n ==> r == Err::<(), Error>(Error::VerifyFailed("index")),
        idx < n ==> r is Ok,
{
    if idx >= n { Err(Error::VerifyFailed("index")) } else { Ok(()) }
}

} // verus!
