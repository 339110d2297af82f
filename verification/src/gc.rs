//! Conservative mark helpers over the object registry.
use vstd::prelude::*;
use crate::heap::{Registry, live_count};
use crate::value::Obj;

verus! {

#[derive(Clone, Debug, Default)]
pub struct GcStats {
    pub marked: usize,
    pub swept: usize,
    pub bytes_reclaimed: usize,
}

/// Number of set flags.
pub open spec fn count_true(s: Seq<bool>) -> nat
    decreases s.len(),
{
    if s.len() == 0 {
        0
    } else {
        count_true(s.drop_last()) + if s.last() { 1nat } else { 0nat }
    }
}

/// Twice `live`, at least 64 and at most 4096.
pub open spec fn threshold(live: int) -> int {
    let d = live * 2;
    let lo = if d < 64 { 64 } else { d };
    if lo > 4096 { 4096 } else { lo }
}

proof fn lemma_count_true_bound(s: Seq<bool>)
    ensures
        count_true(s) <= s.len(),
    decreases s.len(),
{
    if s.len() > 0 {
        lemma_count_true_bound(s.drop_last());
    }
}

/// One flag per slot: set when the slot index is among the roots (objects have no child
/// edges in the compact representation, so the roots are the live set).
pub fn mark_from_roots(reg: &Registry, roots: &[usize]) -> (r: Vec<bool>)
    ensures
        r@.len() == reg.spec_slots().len(),
        forall|i: int| 0 <= i < r@.len() ==> r@[i] == roots@.contains(i as usize),
{
    let n = reg.len();
    let mut marked: Vec<bool> = Vec::new();
    let mut i: usize = 0;
    while i < n
        invariant
            i <= n,
            marked@.len() == i,
            forall|j: int| 0 <= j < i ==> !marked@[j],
        decreases n - i,
    {
        marked.push(false);
        i += 1;
    }
    let mut k: usize = 0;
    while k < roots.len()
        invariant
            k <= roots@.len(),
            marked@.len() == n,
            forall|j: int| 0 <= j < n ==> marked@[j] == roots@.subrange(0, k as int).contains(j as usize),
        decreases roots@.len() - k,
    {
        let x = roots[k];
        let ghost old_m = marked@;
        if x < n {
            marked.set(x, true);
        }
        proof {
            let pre = roots@.subrange(0, k as int);
            let post = roots@.subrange(0, k + 1);
            assert(post =~= pre.push(x));
            assert(post[k as int] == x);
            assert forall|j: int| 0 <= j < n implies marked@[j] == post.contains(j as usize) by {
                if j as usize == x {
                    assert(post[k as int] == j as usize);
                } else {
                    assert(marked@[j] == old_m[j]);
                    if pre.contains(j as usize) {
                        let w = choose|w: int| 0 <= w < pre.len() && pre[w] == j as usize;
                        assert(post[w] == j as usize);
                    }
                    if post.contains(j as usize) {
                        let w = choose|w: int| 0 <= w < post.len() && post[w] == j as usize;
                        if w < pre.len() {
                            assert(pre[w] == post[w]);
                        }
                    }
                }
            }
        }
        k += 1;
    }
    assert(roots@.subrange(0, roots@.len() as int) =~= roots@);
    marked
}

/// Number of set flags.
pub fn count_live(marked: &[bool]) -> (r: usize)
    ensures
        r == count_true(marked@),
{
    let mut n: usize = 0;
    let mut i: usize = 0;
    assert(marked@.subrange(0, 0) =~= Seq::<bool>::empty());
    while i < marked.len()
        invariant
            i <= marked@.len(),
            n <= i,
            n == count_true(marked@.subrange(0, i as int)),
        decreases marked@.len() - i,
    {
        assert(marked@.subrange(0, i + 1).drop_last() =~= marked@.subrange(0, i as int));
        if marked[i] {
            n += 1;
        }
        i += 1;
    }
    assert(marked@.subrange(0, i as int) =~= marked@);
    n
}

/// Size of an object in bytes.
pub fn estimate_bytes(obj: &Obj) -> (r: usize)
    ensures
        r == vstd::layout::size_of::<Obj>(),
{
    core::mem::size_of::<Obj>()
}

/// Marks every occupied slot: the occupied slots are marked, the free ones swept.
pub fn summarize_heap(reg: &Registry) -> (r: GcStats)
    ensures
        r.marked == live_count(reg.spec_slots()),
        r.swept == reg.spec_slots().len() - live_count(reg.spec_slots()),
        r.bytes_reclaimed == 0,
{
    let ghost sl = reg.spec_slots();
    let n = reg.len();
    let mut roots: Vec<usize> = Vec::new();
    let mut i: usize = 0;
    while i < n
        invariant
            n == sl.len(),
            sl == reg.spec_slots(),
            i <= n,
            forall|j: int| 0 <= j < roots@.len() ==> (#[trigger] roots@[j]) < i,
            forall|x: usize| x < i ==> (roots@.contains(x) <==> sl[x as int] is Some),
        decreases n - i,
    {
        let present = reg.get(i).is_some();
        let ghost old_r = roots@;
        if present {
            roots.push(i);
        }
        proof {
            assert forall|x: usize| x < i + 1 implies (roots@.contains(x) <==> sl[x as int] is Some) by {
                if present {
                    assert(roots@ == old_r.push(i));
                    assert(roots@[old_r.len() as int] == i);
                    if x < i {
                        if old_r.contains(x) {
                            let w = choose|w: int| 0 <= w < old_r.len() && old_r[w] == x;
                            assert(roots@[w] == x);
                        }
                        if roots@.contains(x) {
                            let w = choose|w: int| 0 <= w < roots@.len() && roots@[w] == x;
                            if w < old_r.len() {
                                assert(old_r[w] == x);
                            }
                        }
                    }
                } else {
                    if x == i && roots@.contains(x) {
                        let w = choose|w: int| 0 <= w < roots@.len() && roots@[w] == x;
                        assert(roots@[w] < i);
                    }
                }
            }
        }
        i += 1;
    }
    let marked = mark_from_roots(reg, roots.as_slice());
    let live = count_live(marked.as_slice());
    proof {
        assert forall|j: int| 0 <= j < marked@.len() implies marked@[j] == (sl[j] is Some) by {
            assert(roots@.contains(j as usize) == (sl[j] is Some));
        }
        lemma_live_matches(sl, marked@);
        lemma_count_true_bound(marked@);
    }
    let swept = marked.len() - live;
    GcStats { marked: live, swept, bytes_reclaimed: 0 }
}

proof fn lemma_live_matches(sl: Seq<Option<Obj>>, m: Seq<bool>)
    requires
        m.len() == sl.len(),
        forall|j: int| 0 <= j < m.len() ==> m[j] == (sl[j] is Some),
    ensures
        count_true(m) == live_count(sl),
    decreases m.len(),
{
    if m.len() > 0 {
        lemma_live_matches(sl.drop_last(), m.drop_last());
    }
}

/// Twice the live count, clamped to between 64 and 4096.
pub fn nursery_threshold(live: usize) -> (r: usize)
    requires
        live * 2 <= usize::MAX,
    ensures
        r == threshold(live as int),
{
    let d = live * 2;
    let lo = if d < 64 { 64 } else { d };
    if lo > 4096 { 4096 } else { lo }
}

} // verus!
