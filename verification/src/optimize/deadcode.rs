//! Unreachable-block elimination planning (modules are not changed).
use vstd::prelude::*;
use std::collections::BTreeSet;
use crate::cfg;
use crate::cfg::{BlockModel, Cfg, blocks_view, graph_wf, on_cycle, reachable_set, spec_blocks};
use crate::module::Function;

verus! {

broadcast use vstd::std_specs::btree::group_btree_axioms;

#[derive(Clone, Debug, Default)]
pub struct Plan {
    pub keep: BTreeSet<usize>,
    pub drop_pcs: BTreeSet<usize>,
}

/// Offsets covered by one of the first `k` blocks whose id is not kept.
pub open spec fn dropped_upto(g: Seq<BlockModel>, keep: Set<usize>, k: int) -> Set<usize> {
    Set::new(|pc: usize| exists|b: int| 0 <= b < k && #[trigger] g[b].start <= pc && pc < g[b].end
        && !keep.contains(g[b].id))
}

/// Offsets covered by a block whose id is not kept.
pub open spec fn dropped_pcs(g: Seq<BlockModel>, keep: Set<usize>) -> Set<usize> {
    dropped_upto(g, keep, g.len() as int)
}

/// The blocks kept for a function: those reached from the entry.
pub open spec fn kept_blocks(code: Seq<u8>) -> Set<usize> {
    reachable_set(spec_blocks(code), 0)
}

/// The offsets dropped for a function: those of unreached blocks.
pub open spec fn dropped_bytes(code: Seq<u8>) -> Set<usize> {
    dropped_pcs(spec_blocks(code), kept_blocks(code))
}

/// The plan for non-empty code keeps the entry block and every successor of a kept block,
/// and never drops offset 0 (the entry); every offset of an unreached block is dropped.
pub proof fn law_plan_keeps_what_runs(code: Seq<u8>)
    requires
        0 < code.len() <= usize::MAX,
    ensures
        kept_blocks(code).contains(0),
        forall|b: usize, k: int| kept_blocks(code).contains(b) && 0 <= k < spec_blocks(code)[b as int].succs.len()
            ==> kept_blocks(code).contains(#[trigger] spec_blocks(code)[b as int].succs[k]),
        !dropped_bytes(code).contains(0),
        forall|b: int, pc: usize| #![trigger spec_blocks(code)[b], dropped_bytes(code).contains(pc)]
            0 <= b < spec_blocks(code).len() && !kept_blocks(code).contains(b as usize)
            && spec_blocks(code)[b].start <= pc < spec_blocks(code)[b].end ==> dropped_bytes(code).contains(pc),
{
    let g = spec_blocks(code);
    assert(g.len() > 0 && g.len() <= usize::MAX && graph_wf(g)) by {
        cfg::law_blocks_partition(code);
        cfg::lemma_blocks_wf(code);
    }
    cfg::law_reachable_closed(g, 0);
    lemma_entry_not_dropped(code);
    assert forall|b: int, pc: usize| #![trigger g[b], dropped_bytes(code).contains(pc)]
        0 <= b < g.len() && !kept_blocks(code).contains(b as usize)
        && g[b].start <= pc < g[b].end implies dropped_bytes(code).contains(pc) by {
        cfg::law_blocks_partition(code);
        assert(g[b].id == b);
    }
}

proof fn lemma_entry_not_dropped(code: Seq<u8>)
    requires
        0 < code.len() <= usize::MAX,
    ensures
        !dropped_bytes(code).contains(0),
{
    let g = spec_blocks(code);
    cfg::law_blocks_partition(code);
    cfg::lemma_blocks_wf(code);
    cfg::law_reachable_closed(g, 0);
    if dropped_bytes(code).contains(0) {
        let b = choose|b: int| 0 <= b < g.len() && #[trigger] g[b].start <= 0usize && 0usize < g[b].end
            && !kept_blocks(code).contains(g[b].id);
        assert(g[b].id == b);
        if b > 0 {
            assert(g[0].start < g[b].start);
        }
    }
}

/// Keeps the blocks reached from the entry and lists the offsets of the others.
pub fn plan(f: &Function) -> (r: Plan)
    requires
        f.code@.len() > 0,
    ensures
        r.keep@ == kept_blocks(f.code@),
        r.drop_pcs@ == dropped_bytes(f.code@),
{
    let g = cfg::build(f);
    let keep = cfg::reachable(&g);
    let ghost gm = blocks_view(g.blocks@);
    let mut drop_pcs: BTreeSet<usize> = BTreeSet::new();
    let mut bi: usize = 0;
    assert(drop_pcs@ =~= dropped_upto(gm, keep@, 0));
    while bi < g.blocks.len()
        invariant
            gm == blocks_view(g.blocks@),
            bi <= g.blocks@.len(),
            drop_pcs@ == dropped_upto(gm, keep@, bi as int),
        decreases g.blocks@.len() - bi,
    {
        let b = &g.blocks[bi];
        assert(gm[bi as int] == b@);
        if !keep.contains(&b.id) {
            let mut pc = b.start;
            while pc < b.end
                invariant
                    gm[bi as int] == b@,
                    bi < gm.len(),
                    !keep@.contains(b.id),
                    pc <= b.end || pc == b.start,
                    pc >= b.start,
                    drop_pcs@ == dropped_upto(gm, keep@, bi as int).union(
                        Set::new(|x: usize| b.start <= x && x < pc)),
                decreases b.end - pc,
            {
                drop_pcs.insert(pc);
                pc += 1;
                assert(drop_pcs@ =~= dropped_upto(gm, keep@, bi as int).union(
                    Set::new(|x: usize| b.start <= x && x < pc)));
            }
            assert forall|x: usize| #[trigger] drop_pcs@.contains(x) == dropped_upto(gm, keep@, bi + 1).contains(x) by {
                if dropped_upto(gm, keep@, bi + 1).contains(x) && !dropped_upto(gm, keep@, bi as int).contains(x) {
                    let w = choose|w: int| 0 <= w < bi + 1 && #[trigger] gm[w].start <= x && x < gm[w].end
                        && !keep@.contains(gm[w].id);
                    assert(w == bi);
                }
                if Set::new(|y: usize| b.start <= y && y < pc).contains(x) {
                    assert(gm[bi as int].start <= x && x < gm[bi as int].end);
                }
            }
            assert(drop_pcs@ =~= dropped_upto(gm, keep@, bi + 1));
        } else {
            assert forall|x: usize| #[trigger] drop_pcs@.contains(x) == dropped_upto(gm, keep@, bi + 1).contains(x) by {
                if dropped_upto(gm, keep@, bi + 1).contains(x) {
                    let w = choose|w: int| 0 <= w < bi + 1 && #[trigger] gm[w].start <= x && x < gm[w].end
                        && !keep@.contains(gm[w].id);
                    assert(w != bi);
                }
            }
            assert(drop_pcs@ =~= dropped_upto(gm, keep@, bi + 1));
        }
        bi += 1;
    }
    Plan { keep, drop_pcs }
}

/// Number of bytes in unreached blocks.
pub fn unreachable_byte_count(f: &Function) -> (r: usize)
    requires
        f.code@.len() > 0,
    ensures
        r == dropped_bytes(f.code@).len(),
{
    plan(f).drop_pcs.len()
}

/// At most one block and no cycle.
pub fn is_trivial(cfg: &Cfg) -> (r: bool)
    requires
        graph_wf(blocks_view(cfg.blocks@)),
    ensures
        r == (cfg.blocks@.len() <= 1 && !exists|b: int| 0 <= b < cfg.blocks@.len()
            && #[trigger] on_cycle(blocks_view(cfg.blocks@), b)),
{
    cfg.blocks.len() <= 1 && !cfg::has_cycle(cfg)
}

} // verus!
