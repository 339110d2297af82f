//! Integer intervals ordered by inclusion: a lattice for abstract interpretation.
use vstd::prelude::*;

verus! {

#[derive(Clone, Copy, Debug, PartialEq, Eq, Structural)]
pub struct Interval {
    pub lo: i64,
    pub hi: i64,
}

/// Lower bound of the widest interval.
pub const TOP_LO: i64 = -2305843009213693952;
/// Upper bound of the widest interval.
pub const TOP_HI: i64 = 2305843009213693951;

/// Whether `x` lies in `a`.
pub open spec fn spec_contains(a: Interval, x: int) -> bool {
    a.lo <= x <= a.hi
}

pub open spec fn min_i64(a: i64, b: i64) -> i64 {
    if a <= b { a } else { b }
}

pub open spec fn max_i64(a: i64, b: i64) -> i64 {
    if a >= b { a } else { b }
}

/// `a + b`, clamped to the `i64` range.
pub open spec fn sat_add_i64(a: i64, b: i64) -> i64 {
    if a + b > i64::MAX { i64::MAX } else if a + b < i64::MIN { i64::MIN } else { (a + b) as i64 }
}

pub open spec fn spec_join(a: Interval, b: Interval) -> Interval {
    Interval { lo: min_i64(a.lo, b.lo), hi: max_i64(a.hi, b.hi) }
}

pub open spec fn spec_meet(a: Interval, b: Interval) -> Option<Interval> {
    let lo = max_i64(a.lo, b.lo);
    let hi = min_i64(a.hi, b.hi);
    if lo <= hi { Some(Interval { lo, hi }) } else { None }
}

impl Interval {
    pub fn point(x: i64) -> (r: Self)
        ensures
            r == (Interval { lo: x, hi: x }),
    {
        Interval { lo: x, hi: x }
    }

    /// The widest interval: a quarter of the `i64` range on each side, so that sums of two
    /// bounds do not overflow.
    pub fn top() -> (r: Self)
        ensures
            r == (Interval { lo: TOP_LO, hi: TOP_HI }),
            TOP_LO == i64::MIN / 4,
            TOP_HI == i64::MAX / 4,
    {
        Interval { lo: TOP_LO, hi: TOP_HI }
    }

    pub fn contains(self, x: i64) -> (r: bool)
        ensures
            r == spec_contains(self, x as int),
    {
        self.lo <= x && x <= self.hi
    }

    /// Smallest interval containing both.
    pub fn join(self, other: Self) -> (r: Self)
        ensures
            r == spec_join(self, other),
    {
        Interval {
            lo: if self.lo <= other.lo { self.lo } else { other.lo },
            hi: if self.hi >= other.hi { self.hi } else { other.hi },
        }
    }

    /// Intersection, when not empty.
    pub fn meet(self, other: Self) -> (r: Option<Self>)
        ensures
            r == spec_meet(self, other),
    {
        let lo = if self.lo >= other.lo { self.lo } else { other.lo };
        let hi = if self.hi <= other.hi { self.hi } else { other.hi };
        if lo <= hi {
            Some(Interval { lo, hi })
        } else {
            None
        }
    }

    /// Bounds added pairwise, saturating.
    pub fn add(self, other: Self) -> (r: Self)
        ensures
            r == (Interval { lo: sat_add_i64(self.lo, other.lo), hi: sat_add_i64(self.hi, other.hi) }),
    {
        Interval { lo: add_sat(self.lo, other.lo), hi: add_sat(self.hi, other.hi) }
    }

    /// Each bound that `other` moves outward jumps to the widest bound.
    pub fn widen(self, other: Self) -> (r: Self)
        ensures
            r == (Interval {
                lo: if other.lo < self.lo { TOP_LO } else { self.lo },
                hi: if other.hi > self.hi { TOP_HI } else { self.hi },
            }),
    {
        Interval {
            lo: if other.lo < self.lo { TOP_LO } else { self.lo },
            hi: if other.hi > self.hi { TOP_HI } else { self.hi },
        }
    }
}

/// `a + b`, clamped to the `i64` range.
fn add_sat(a: i64, b: i64) -> (r: i64)
    ensures
        r == sat_add_i64(a, b),
{
    let s: i128 = a as i128 + b as i128;
    if s > i64::MAX as i128 {
        i64::MAX
    } else if s < i64::MIN as i128 {
        i64::MIN
    } else {
        s as i64
    }
}

/// The interval of a pushed immediate.
pub fn from_push8(v: i8) -> (r: Interval)
    ensures
        r == (Interval { lo: v as i64, hi: v as i64 }),
{
    Interval::point(v as i64)
}

/// Join is commutative, associative and idempotent, and contains what either side does.
pub proof fn law_join_lattice(a: Interval, b: Interval, c: Interval, x: int)
    ensures
        spec_join(a, b) == spec_join(b, a),
        spec_join(spec_join(a, b), c) == spec_join(a, spec_join(b, c)),
        spec_join(a, a) == a,
        spec_contains(a, x) ==> spec_contains(spec_join(a, b), x),
        spec_contains(b, x) ==> spec_contains(spec_join(a, b), x),
{
}

/// Meet is commutative, and contains exactly what both sides contain.
pub proof fn law_meet_lattice(a: Interval, b: Interval, x: int)
    ensures
        spec_meet(a, b) == spec_meet(b, a),
        (spec_contains(a, x) && spec_contains(b, x)) <==> (spec_meet(a, b) matches Some(m) && spec_contains(m, x)),
{
}

/// Widening only grows an interval within the widest one.
pub proof fn law_widen_grows(a: Interval, b: Interval, x: int)
    requires
        TOP_LO <= a.lo,
        a.hi <= TOP_HI,
    ensures
        ({
            let w = Interval {
                lo: if b.lo < a.lo { TOP_LO } else { a.lo },
                hi: if b.hi > a.hi { TOP_HI } else { a.hi },
            };
            spec_contains(a, x) ==> spec_contains(w, x)
        }),
{
}

} // verus!
