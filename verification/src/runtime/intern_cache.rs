//! Intern resolution cache counters and key-mixing helpers.
use vstd::prelude::*;
use crate::error::{Error, Result};
use crate::runtime::mix::{mix, mix_spec};

verus! {

#[derive(Clone, Debug, Default)]
pub struct InternCacheState {
    pub hits: u64,
    pub misses: u64,
    pub last: u64,
}

impl InternCacheState {
    /// Counts a hit on `key`.
    pub fn note_hit(&mut self, key: u64)
        requires
            old(self).hits < u64::MAX,
        ensures
            *final(self) == (InternCacheState { hits: (old(self).hits + 1) as u64, last: key, ..*old(self) }),
    {
        self.hits = self.hits + 1;
        self.last = key;
    }

    /// Counts a miss on `key`.
    pub fn note_miss(&mut self, key: u64)
        requires
            old(self).misses < u64::MAX,
        ensures
            *final(self) == (InternCacheState { misses: (old(self).misses + 1) as u64, last: key, ..*old(self) }),
    {
        self.misses = self.misses + 1;
        self.last = key;
    }
}

/// `x * 3 + y.rotate_left(1) + 254`, wrapping.
pub fn helper_intern_cache_0(x: u32, y: u32) -> (r: u32)
    ensures
        r == mix_spec(x, y, 3, 1, 254),
{
    mix(x, y, 3, 1, 254)
}

/// `x * 4 + y.rotate_left(2) + 267`, wrapping.
pub fn helper_intern_cache_1(x: u32, y: u32) -> (r: u32)
    ensures
        r == mix_spec(x, y, 4, 2, 267),
{
    mix(x, y, 4, 2, 267)
}

/// `x * 5 + y.rotate_left(3) + 280`, wrapping.
pub fn helper_intern_cache_2(x: u32, y: u32) -> (r: u32)
    ensures
        r == mix_spec(x, y, 5, 3, 280),
{
    mix(x, y, 5, 3, 280)
}

/// `x * 6 + y.rotate_left(4) + 293`, wrapping.
pub fn helper_intern_cache_3(x: u32, y: u32) -> (r: u32)
    ensures
        r == mix_spec(x, y, 6, 4, 293),
{
    mix(x, y, 6, 4, 293)
}

/// `x * 7 + y.rotate_left(5) + 306`, wrapping.
pub fn helper_intern_cache_4(x: u32, y: u32) -> (r: u32)
    ensures
        r == mix_spec(x, y, 7, 5, 306),
{
    mix(x, y, 7, 5, 306)
}

/// `x * 8 + y.rotate_left(1) + 319`, wrapping.
pub fn helper_intern_cache_5(x: u32, y: u32) -> (r: u32)
    ensures
        r == mix_spec(x, y, 8, 1, 319),
{
    mix(x, y, 8, 1, 319)
}

/// `x * 9 + y.rotate_left(2) + 332`, wrapping.
pub fn helper_intern_cache_6(x: u32, y: u32) -> (r: u32)
    ensures
        r == mix_spec(x, y, 9, 2, 332),
{
    mix(x, y, 9, 2, 332)
}

/// `x * 10 + y.rotate_left(3) + 345`, wrapping.
pub fn helper_intern_cache_7(x: u32, y: u32) -> (r: u32)
    ensures
        r == mix_spec(x, y, 10, 3, 345),
{
    mix(x, y, 10, 3, 345)
}

/// `x * 11 + y.rotate_left(4) + 358`, wrapping.
pub fn helper_intern_cache_8(x: u32, y: u32) -> (r: u32)
    ensures
        r == mix_spec(x, y, 11, 4, 358),
{
    mix(x, y, 11, 4, 358)
}

/// `x * 12 + y.rotate_left(5) + 371`, wrapping.
pub fn helper_intern_cache_9(x: u32, y: u32) -> (r: u32)
    ensures
        r == mix_spec(x, y, 12, 5, 371),
{
    mix(x, y, 12, 5, 371)
}

/// `x * 13 + y.rotate_left(1) + 384`, wrapping.
pub fn helper_intern_cache_10(x: u32, y: u32) -> (r: u32)
    ensures
        r == mix_spec(x, y, 13, 1, 384),
{
    mix(x, y, 13, 1, 384)
}

/// `x * 14 + y.rotate_left(2) + 397`, wrapping.
pub fn helper_intern_cache_11(x: u32, y: u32) -> (r: u32)
    ensures
        r == mix_spec(x, y, 14, 2, 397),
{
    mix(x, y, 14, 2, 397)
}

/// `x * 15 + y.rotate_left(3) + 410`, wrapping.
pub fn helper_intern_cache_12(x: u32, y: u32) -> (r: u32)
    ensures
        r == mix_spec(x, y, 15, 3, 410),
{
    mix(x, y, 15, 3, 410)
}

/// `x * 16 + y.rotate_left(4) + 423`, wrapping.
pub fn helper_intern_cache_13(x: u32, y: u32) -> (r: u32)
    ensures
        r == mix_spec(x, y, 16, 4, 423),
{
    mix(x, y, 16, 4, 423)
}

/// `x * 17 + y.rotate_left(5) + 436`, wrapping.
pub fn helper_intern_cache_14(x: u32, y: u32) -> (r: u32)
    ensures
        r == mix_spec(x, y, 17, 5, 436),
{
    mix(x, y, 17, 5, 436)
}

/// Fails unless `idx < n`.
pub fn validate_intern_cache_index(idx: usize, n: usize) -> (r: Result<()>)
    ensures
        idx >= n ==> r == Err::<(), Error>(Error::VerifyFailed("index")),
        idx < n ==> r is Ok,
{
    if idx >= n { Err(Error::VerifyFailed("index")) } else { Ok(()) }
}

} // verus!
