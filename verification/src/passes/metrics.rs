//! Per-function and per-module metric vectors.
use vstd::prelude::*;
use crate::cfg;
use crate::cfg::{blocks_view, on_cycle, reachable_set, spec_blocks};
use crate::ir;
use crate::ir::{call_count, lower_from, throw_count, window_list};
use crate::module::{FnModel, Function, Module};
use crate::optimize::peephole;
use crate::optimize::peephole::code_heat;

verus! {

broadcast use vstd::std_specs::btree::group_btree_axioms;

/// A function can be measured: it has code, and its hotness fits in a `u32`.
pub open spec fn measurable(f: FnModel) -> bool {
    f.code.len() > 0 && code_heat(f.code) <= u32::MAX
}

/// Code length, block count, reached blocks, cycle flag, calls, throws, hotness, window
/// adjustments.
pub open spec fn function_metrics(f: FnModel) -> Seq<u64> {
    let g = spec_blocks(f.code);
    let lowered = lower_from(f.code, 0);
    seq![
        f.code.len() as u64,
        g.len() as u64,
        reachable_set(g, 0).len() as u64,
        if exists|b: int| 0 <= b < g.len() && #[trigger] on_cycle(g, b) { 1u64 } else { 0u64 },
        call_count(lowered) as u64,
        throw_count(lowered) as u64,
        code_heat(f.code) as u64,
        window_list(lowered).len() as u64,
    ]
}

/// `a + b`, saturated at `u64::MAX`.
pub open spec fn sat_add_u64(a: u64, b: u64) -> u64 {
    if a + b > u64::MAX { u64::MAX } else { (a + b) as u64 }
}

/// Entrywise saturating sum of two eight-entry vectors.
pub open spec fn add_metrics(acc: Seq<u64>, v: Seq<u64>) -> Seq<u64> {
    Seq::new(8, |i: int| sat_add_u64(acc[i], v[i]))
}

/// Entrywise saturating sum of the metric vectors of `fs`.
pub open spec fn module_metrics(fs: Seq<FnModel>) -> Seq<u64>
    decreases fs.len(),
{
    if fs.len() == 0 {
        Seq::new(8, |i: int| 0u64)
    } else {
        add_metrics(module_metrics(fs.drop_last()), function_metrics(fs.last()))
    }
}

/// The eight metrics of a function.
pub fn function_metric_vector(f: &Function) -> (r: Vec<u64>)
    requires
        measurable(f@),
    ensures
        r@ == function_metrics(f@),
{
    let g = cfg::build(f);
    let lowered = ir::lower(f);
    let ghost gm = spec_blocks(f.code@);
    assert(blocks_view(g.blocks@).len() == g.blocks@.len());
    let reach = cfg::reachable(&g);
    let cyclic = cfg::has_cycle(&g);
    let mut v: Vec<u64> = Vec::new();
    v.push(f.code.len() as u64);
    v.push(g.blocks.len() as u64);
    v.push(reach.len() as u64);
    v.push(if cyclic { 1 } else { 0 });
    v.push(ir::count_calls(lowered.as_slice()) as u64);
    v.push(ir::count_throws(lowered.as_slice()) as u64);
    v.push(peephole::estimate_hotness(f.code.as_slice()) as u64);
    v.push(ir::windows(lowered.as_slice()).len() as u64);
    assert(v@ =~= function_metrics(f@));
    v
}

/// Entrywise saturating sum of the functions' metric vectors.
pub fn module_metric_vector(m: &Module) -> (r: Vec<u64>)
    requires
        forall|i: int| 0 <= i < m@.len() ==> measurable(#[trigger] m@[i]),
    ensures
        r@ == module_metrics(m@),
{
    let mut acc: Vec<u64> = Vec::new();
    let mut z: usize = 0;
    while z < 8
        invariant
            z <= 8,
            acc@.len() == z,
            forall|j: int| 0 <= j < z ==> acc@[j] == 0,
        decreases 8 - z,
    {
        acc.push(0);
        z += 1;
    }
    let mut fi: usize = 0;
    assert(m@.subrange(0, 0) =~= Seq::<FnModel>::empty());
    assert(acc@ =~= module_metrics(m@.subrange(0, 0)));
    while fi < m.functions.len()
        invariant
            fi <= m@.len(),
            m@.len() == m.functions@.len(),
            forall|i: int| 0 <= i < m@.len() ==> measurable(#[trigger] m@[i]),
            acc@ == module_metrics(m@.subrange(0, fi as int)),
        decreases m@.len() - fi,
    {
        let f = &m.functions[fi];
        assert(m@[fi as int] == f@);
        assert(measurable(m@[fi as int]));
        assert(m@.subrange(0, fi + 1).drop_last() =~= m@.subrange(0, fi as int));
        let v = function_metric_vector(f);
        let ghost before = acc@;
        let mut j: usize = 0;
        while j < 8
            invariant
                j <= 8,
                before.len() == 8,
                v@.len() == 8,
                acc@.len() == 8,
                forall|t: int| 0 <= t < j ==> acc@[t] == sat_add_u64(before[t], v@[t]),
                forall|t: int| j <= t < 8 ==> acc@[t] == before[t],
            decreases 8 - j,
        {
            let a = acc[j];
            acc.set(j, a.saturating_add(v[j]));
            j += 1;
        }
        assert(acc@ =~= add_metrics(before, v@));
        fi += 1;
    }
    assert(m@.subrange(0, fi as int) =~= m@);
    acc
}

} // verus!
