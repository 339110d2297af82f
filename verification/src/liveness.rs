//! Local slot liveness over a function's control-flow graph.
use vstd::prelude::*;
use crate::bitvec::{BitSet, BitSetModel, or_into};
use crate::bytecode;
use crate::bytecode::{lenient_len, lenient_instr_len};
use crate::cfg;
use crate::cfg::{BlockModel, blocks_view, graph_wf, spec_blocks};
use crate::gc::count_true;
use crate::module::{FnModel, Function};

verus! {

#[derive(Clone, Debug)]
pub struct Liveness {
    pub live_in: Vec<BitSet>,
    pub live_out: Vec<BitSet>,
}

/// The instructions of a block: from `pc`, stepping by instruction length, while before `end`.
pub open spec fn block_instrs(code: Seq<u8>, pc: nat, end: nat) -> Seq<(usize, u8)>
    decreases end + 4 - pc,
{
    if pc >= end {
        Seq::empty()
    } else {
        seq![(pc as usize, code[pc as int])] + block_instrs(code, pc + lenient_len(code[pc as int]), end)
    }
}

/// Whether entry `e` is a complete `loadlocal` of slot `s` (the slot is the low operand byte).
pub open spec fn loads(code: Seq<u8>, e: (usize, u8), s: int) -> bool {
    e.1 == bytecode::LOADLOCAL && e.0 + 2 < code.len() && code[e.0 + 1] == s
}

/// Whether entry `e` is a complete `storelocal` of slot `s`.
pub open spec fn stores(code: Seq<u8>, e: (usize, u8), s: int) -> bool {
    e.1 == bytecode::STORELOCAL && e.0 + 2 < code.len() && code[e.0 + 1] == s
}

/// Slot `s` is loaded in `w` before any store to it.
pub open spec fn used_first(code: Seq<u8>, w: Seq<(usize, u8)>, s: int) -> bool {
    exists|i: int| 0 <= i < w.len() && #[trigger] loads(code, w[i], s) && forall|j: int| 0 <= j < i ==> !stores(
        code,
        #[trigger] w[j],
        s,
    )
}

/// Slot `s` is stored in `w`.
pub open spec fn defined(code: Seq<u8>, w: Seq<(usize, u8)>, s: int) -> bool {
    exists|i: int| 0 <= i < w.len() && #[trigger] stores(code, w[i], s)
}

/// Bits of the slots below `nl` used before being defined in `w`, over `width` positions.
pub open spec fn use_bits(code: Seq<u8>, w: Seq<(usize, u8)>, nl: nat, width: nat) -> Seq<bool> {
    Seq::new(width, |s: int| s < nl && used_first(code, w, s))
}

/// Bits of the slots below `nl` defined in `w`, over `width` positions.
pub open spec fn def_bits(code: Seq<u8>, w: Seq<(usize, u8)>, nl: nat, width: nat) -> Seq<bool> {
    Seq::new(width, |s: int| s < nl && defined(code, w, s))
}

/// `width` unset bits.
pub open spec fn zeros(width: nat) -> Seq<bool> {
    Seq::new(width, |i: int| false)
}

/// Union of the live-in sets of the successors, in successor order.
pub open spec fn succ_union(succs: Seq<usize>, ins: Seq<Seq<bool>>, width: nat) -> Seq<bool>
    decreases succs.len(),
{
    if succs.len() == 0 {
        zeros(width)
    } else {
        or_into(succ_union(succs.drop_last(), ins, width), ins[succs.last() as int])
    }
}

/// Live-in from live-out: the defined slots below `nl` removed, the used ones added.
pub open spec fn transfer(out: Seq<bool>, def: Seq<bool>, uses: Seq<bool>, nl: nat) -> Seq<bool> {
    or_into(Seq::new(out.len(), |i: int| out[i] && !(i < nl && def[i])), uses)
}

/// The sets of a round of the iteration, and whether any of their sizes changed.
pub struct LiveState {
    pub ins: Seq<Seq<bool>>,
    pub outs: Seq<Seq<bool>>,
    pub changed: bool,
}

/// One round over blocks `b - 1` down to `0`, each updated in place from the current sets;
/// a block whose live-out or live-in changes size marks the round as changed.
pub open spec fn round_down(
    g: Seq<BlockModel>,
    uses: Seq<Seq<bool>>,
    defs: Seq<Seq<bool>>,
    st: LiveState,
    b: nat,
    width: nat,
    nl: nat,
) -> LiveState
    decreases b,
{
    if b == 0 {
        st
    } else {
        let k = (b - 1) as int;
        let out = succ_union(g[k].succs, st.ins, width);
        let inn = transfer(out, defs[k], uses[k], nl);
        let ch = st.changed || count_true(out) != count_true(st.outs[k]) || count_true(inn) != count_true(st.ins[k]);
        round_down(
            g,
            uses,
            defs,
            LiveState { ins: st.ins.update(k, inn), outs: st.outs.update(k, out), changed: ch },
            (b - 1) as nat,
            width,
            nl,
        )
    }
}

/// Rounds repeated while the last one changed something, at most `fuel` of them.
pub open spec fn settle(
    g: Seq<BlockModel>,
    uses: Seq<Seq<bool>>,
    defs: Seq<Seq<bool>>,
    st: LiveState,
    fuel: nat,
    width: nat,
    nl: nat,
) -> LiveState
    decreases fuel,
{
    if fuel == 0 {
        st
    } else {
        let r = round_down(g, uses, defs, LiveState { changed: false, ..st }, g.len(), width, nl);
        if r.changed {
            settle(g, uses, defs, r, (fuel - 1) as nat, width, nl)
        } else {
            r
        }
    }
}

/// Bits per set: the local count rounded up to whole 64-bit words.
pub open spec fn set_width(nl: nat) -> nat {
    ((nl + 63) / 64) as nat * 64
}

/// The instructions of block `k`.
pub open spec fn instrs_of(code: Seq<u8>, k: int) -> Seq<(usize, u8)> {
    block_instrs(code, spec_blocks(code)[k].start as nat, spec_blocks(code)[k].end as nat)
}

/// The used-before-defined slots of each block.
pub open spec fn all_uses(f: FnModel) -> Seq<Seq<bool>> {
    let n = spec_blocks(f.code).len();
    Seq::new(n, |k: int| use_bits(f.code, instrs_of(f.code, k), f.max_locals as nat, set_width(f.max_locals as nat)))
}

/// The defined slots of each block.
pub open spec fn all_defs(f: FnModel) -> Seq<Seq<bool>> {
    let n = spec_blocks(f.code).len();
    Seq::new(n, |k: int| def_bits(f.code, instrs_of(f.code, k), f.max_locals as nat, set_width(f.max_locals as nat)))
}

/// The round budget: four rounds per block and local, plus eight.
pub open spec fn fuel_of(f: FnModel) -> int {
    spec_blocks(f.code).len() * (f.max_locals as int) * 4 + 8
}

/// The sets at the end of the iteration: from empty sets, rounds until one changes no
/// set's size or the budget runs out.
pub open spec fn liveness_of(f: FnModel) -> LiveState {
    let g = spec_blocks(f.code);
    let w = set_width(f.max_locals as nat);
    let init = LiveState {
        ins: Seq::new(g.len(), |k: int| zeros(w)),
        outs: Seq::new(g.len(), |k: int| zeros(w)),
        changed: true,
    };
    settle(g, all_uses(f), all_defs(f), init, fuel_of(f) as nat, w, f.max_locals as nat)
}

/// The bits of each set.
pub open spec fn sets_bits(v: Seq<BitSet>) -> Seq<Seq<bool>> {
    v.map_values(|s: BitSet| s@.bits)
}

/// Every set is well formed with `nl` positions.
pub open spec fn sets_ok(v: Seq<BitSet>, nl: nat) -> bool {
    forall|k: int| 0 <= k < v.len() ==> (#[trigger] v[k]).wf() && v[k]@.len == nl && v[k]@.bits.len() == set_width(nl)
}

proof fn lemma_count_le_len(s: Seq<bool>)
    ensures
        count_true(s) <= s.len(),
    decreases s.len(),
{
    if s.len() > 0 {
        lemma_count_le_len(s.drop_last());
    }
}

fn uses_defs(code: &[u8], start: usize, end: usize, nlocals: usize) -> (r: (BitSet, BitSet))
    requires
        end <= code@.len(),
        nlocals <= 0xffff,
    ensures
        r.0.wf(),
        r.1.wf(),
        r.0@.len == nlocals,
        r.1@.len == nlocals,
        r.0@.bits == use_bits(code@, block_instrs(code@, start as nat, end as nat), nlocals as nat, set_width(
            nlocals as nat,
        )),
        r.1@.bits == def_bits(code@, block_instrs(code@, start as nat, end as nat), nlocals as nat, set_width(
            nlocals as nat,
        )),
{
    let n = crate::bytes::byte_len(code);
    let mut uses = BitSet::with_len(nlocals);
    let mut defs = BitSet::with_len(nlocals);
    let ghost width = set_width(nlocals as nat);
    let ghost all = block_instrs(code@, start as nat, end as nat);
    let ghost mut seen: Seq<(usize, u8)> = Seq::empty();
    let mut pc = start;
    proof {
        assert(uses@.bits =~= use_bits(code@, seen, nlocals as nat, width));
        assert(defs@.bits =~= def_bits(code@, seen, nlocals as nat, width));
    }
    while pc < end
        invariant
            n == code@.len(),
            n <= isize::MAX,
            end <= n,
            pc <= end + 3 || pc == start,
            nlocals <= 0xffff,
            width == set_width(nlocals as nat),
            all == block_instrs(code@, start as nat, end as nat),
            seen + block_instrs(code@, pc as nat, end as nat) == all,
            uses.wf(),
            defs.wf(),
            uses@.len == nlocals,
            defs@.len == nlocals,
            uses@.bits == use_bits(code@, seen, nlocals as nat, width),
            defs@.bits == def_bits(code@, seen, nlocals as nat, width),
        decreases end + 3 - pc,
    {
        let op = code[pc];
        let e = (pc, op);
        let ghost before = seen;
        let ghost post = seen.push(e);
        if op == bytecode::LOADLOCAL && n - pc > 2 {
            let slot = code[pc + 1] as usize;
            if slot < nlocals && !defs.get(slot) {
                uses.set(slot);
            }
        } else if op == bytecode::STORELOCAL && n - pc > 2 {
            let slot = code[pc + 1] as usize;
            if slot < nlocals {
                defs.set(slot);
            }
        }
        proof {
            uses.lemma_bits_len();
            defs.lemma_bits_len();
            assert forall|s: int| 0 <= s < width implies #[trigger] uses@.bits[s] == use_bits(
                code@,
                post,
                nlocals as nat,
                width,
            )[s] by {
                assert(post[before.len() as int] == e);
                if used_first(code@, before, s) {
                    let i = choose|i: int| 0 <= i < before.len() && #[trigger] loads(code@, before[i], s) && forall|
                        j: int,
                    | 0 <= j < i ==> !stores(code@, #[trigger] before[j], s);
                    assert(post[i] == before[i]);
                    assert forall|j: int| 0 <= j < i implies !stores(code@, #[trigger] post[j], s) by {
                        assert(post[j] == before[j]);
                    }
                }
                if used_first(code@, post, s) {
                    let i = choose|i: int| 0 <= i < post.len() && #[trigger] loads(code@, post[i], s) && forall|
                        j: int,
                    | 0 <= j < i ==> !stores(code@, #[trigger] post[j], s);
                    if i < before.len() {
                        assert(post[i] == before[i]);
                        assert forall|j: int| 0 <= j < i implies !stores(code@, #[trigger] before[j], s) by {
                            assert(post[j] == before[j]);
                            assert(!stores(code@, post[j], s));
                        }
                    } else {
                        assert(!defined(code@, before, s)) by {
                            if defined(code@, before, s) {
                                let j = choose|j: int| 0 <= j < before.len() && #[trigger] stores(code@, before[j], s);
                                assert(post[j] == before[j]);
                                assert(!stores(code@, post[j], s));
                            }
                        }
                    }
                }
                if loads(code@, e, s) && s < nlocals && !defined(code@, before, s) {
                    assert(loads(code@, post[before.len() as int], s));
                    assert forall|j: int| 0 <= j < before.len() implies !stores(code@, #[trigger] post[j], s) by {
                        assert(post[j] == before[j]);
                        if stores(code@, before[j], s) {
                            assert(defined(code@, before, s));
                        }
                    }
                }
            }
            assert forall|s: int| 0 <= s < width implies #[trigger] defs@.bits[s] == def_bits(
                code@,
                post,
                nlocals as nat,
                width,
            )[s] by {
                assert(post[before.len() as int] == e);
                if defined(code@, before, s) {
                    let j = choose|j: int| 0 <= j < before.len() && #[trigger] stores(code@, before[j], s);
                    assert(post[j] == before[j]);
                }
                if defined(code@, post, s) {
                    let j = choose|j: int| 0 <= j < post.len() && #[trigger] stores(code@, post[j], s);
                    if j < before.len() {
                        assert(post[j] == before[j]);
                    }
                }
                if stores(code@, e, s) {
                    assert(stores(code@, post[before.len() as int], s));
                }
            }
            assert(uses@.bits =~= use_bits(code@, post, nlocals as nat, width));
            assert(defs@.bits =~= def_bits(code@, post, nlocals as nat, width));
        }
        let next = pc + lenient_instr_len(op);
        proof {
            seen = post;
            assert(seen + block_instrs(code@, next as nat, end as nat) =~= before + block_instrs(
                code@,
                pc as nat,
                end as nat,
            ));
        }
        pc = next;
    }
    proof {
        assert(seen =~= all);
    }
    (uses, defs)
}



/// Every bit of `a` is set in `b` (same length).
pub open spec fn bits_le(a: Seq<bool>, b: Seq<bool>) -> bool {
    a.len() == b.len() && forall|i: int| 0 <= i < a.len() ==> a[i] ==> b[i]
}

/// Each set of `a` is within the same set of `b`.
pub open spec fn sets_le(a: Seq<Seq<bool>>, b: Seq<Seq<bool>>) -> bool {
    a.len() == b.len() && forall|k: int| 0 <= k < a.len() ==> bits_le(#[trigger] a[k], b[k])
}

/// All `n` sets have `width` bits.
pub open spec fn widths(s: Seq<Seq<bool>>, n: nat, width: nat) -> bool {
    s.len() == n && forall|k: int| 0 <= k < n ==> (#[trigger] s[k]).len() == width
}

/// The sets solve the liveness equations: live-out is the union of the successors'
/// live-in, live-in is live-out without the definitions plus the uses.
pub open spec fn solves(
    g: Seq<BlockModel>,
    uses: Seq<Seq<bool>>,
    defs: Seq<Seq<bool>>,
    ins: Seq<Seq<bool>>,
    outs: Seq<Seq<bool>>,
    width: nat,
    nl: nat,
) -> bool {
    forall|b: int| 0 <= b < g.len() ==> #[trigger] outs[b] == succ_union(g[b].succs, ins, width) && ins[b] == transfer(
        outs[b],
        defs[b],
        uses[b],
        nl,
    )
}

/// The sets lie below what the equations give them.
pub open spec fn below_equations(
    g: Seq<BlockModel>,
    uses: Seq<Seq<bool>>,
    defs: Seq<Seq<bool>>,
    ins: Seq<Seq<bool>>,
    outs: Seq<Seq<bool>>,
    width: nat,
    nl: nat,
) -> bool {
    forall|b: int| 0 <= b < g.len() ==> bits_le(#[trigger] outs[b], succ_union(g[b].succs, ins, width)) && bits_le(
        ins[b],
        transfer(outs[b], defs[b], uses[b], nl),
    )
}

/// The shapes every state of the iteration has.
pub open spec fn shapes_ok(g: Seq<BlockModel>, uses: Seq<Seq<bool>>, defs: Seq<Seq<bool>>, st: LiveState, width: nat) -> bool {
    &&& graph_wf(g)
    &&& widths(st.ins, g.len(), width)
    &&& widths(st.outs, g.len(), width)
    &&& widths(uses, g.len(), width)
    &&& widths(defs, g.len(), width)
}

proof fn lemma_count_le(a: Seq<bool>, b: Seq<bool>)
    requires
        bits_le(a, b),
    ensures
        count_true(a) <= count_true(b),
        count_true(a) == count_true(b) ==> a == b,
    decreases a.len(),
{
    if a.len() > 0 {
        lemma_count_le(a.drop_last(), b.drop_last());
        if count_true(a) == count_true(b) {
            assert(a.drop_last() == b.drop_last());
            assert(a =~= b) by {
                assert forall|i: int| 0 <= i < a.len() implies a[i] == b[i] by {
                    if i < a.len() - 1 {
                        assert(a.drop_last()[i] == b.drop_last()[i]);
                    }
                }
            }
        }
    } else {
        assert(a =~= b);
    }
}

proof fn lemma_succ_union_len(succs: Seq<usize>, ins: Seq<Seq<bool>>, width: nat)
    ensures
        succ_union(succs, ins, width).len() == width,
    decreases succs.len(),
{
    if succs.len() > 0 {
        lemma_succ_union_len(succs.drop_last(), ins, width);
    }
}

proof fn lemma_succ_union_mono(succs: Seq<usize>, a: Seq<Seq<bool>>, b: Seq<Seq<bool>>, width: nat, n: nat)
    requires
        sets_le(a, b),
        a.len() == n,
        forall|k: int| 0 <= k < succs.len() ==> (#[trigger] succs[k]) < n,
    ensures
        bits_le(succ_union(succs, a, width), succ_union(succs, b, width)),
    decreases succs.len(),
{
    lemma_succ_union_len(succs, a, width);
    lemma_succ_union_len(succs, b, width);
    if succs.len() > 0 {
        let p = succs.drop_last();
        lemma_succ_union_mono(p, a, b, width, n);
        let s = succs.last() as int;
        assert(succs[succs.len() - 1] < n);
        assert(bits_le(a[s], b[s]));
    }
}

proof fn lemma_transfer_mono(a: Seq<bool>, b: Seq<bool>, def: Seq<bool>, uses: Seq<bool>, nl: nat)
    requires
        bits_le(a, b),
    ensures
        bits_le(transfer(a, def, uses, nl), transfer(b, def, uses, nl)),
{
}

/// One round keeps the sets below the equations and only grows them; a round that
/// changes no size leaves every set as it was, and then each block met its equations.
proof fn lemma_round(
    g: Seq<BlockModel>,
    uses: Seq<Seq<bool>>,
    defs: Seq<Seq<bool>>,
    st: LiveState,
    b: nat,
    width: nat,
    nl: nat,
)
    requires
        shapes_ok(g, uses, defs, st, width),
        below_equations(g, uses, defs, st.ins, st.outs, width, nl),
        b <= g.len(),
    ensures
        ({
            let r = round_down(g, uses, defs, st, b, width, nl);
            &&& shapes_ok(g, uses, defs, r, width)
            &&& below_equations(g, uses, defs, r.ins, r.outs, width, nl)
            &&& sets_le(st.ins, r.ins)
            &&& sets_le(st.outs, r.outs)
            &&& (st.changed ==> r.changed)
            &&& (!r.changed ==> r.ins == st.ins && r.outs == st.outs && forall|k: int| 0 <= k < b ==> #[trigger] st.outs[k]
                == succ_union(g[k].succs, st.ins, width) && st.ins[k] == transfer(st.outs[k], defs[k], uses[k], nl))
        }),
    decreases b,
{
    if b == 0 {
        assert(sets_le(st.ins, st.ins));
        assert(sets_le(st.outs, st.outs));
    } else {
        let k = (b - 1) as int;
        let out = succ_union(g[k].succs, st.ins, width);
        let inn = transfer(out, defs[k], uses[k], nl);
        let ch = st.changed || count_true(out) != count_true(st.outs[k]) || count_true(inn) != count_true(st.ins[k]);
        let st2 = LiveState { ins: st.ins.update(k, inn), outs: st.outs.update(k, out), changed: ch };
        lemma_succ_union_len(g[k].succs, st.ins, width);
        assert(bits_le(st.outs[k], out));
        lemma_transfer_mono(st.outs[k], out, defs[k], uses[k], nl);
        assert(bits_le(st.ins[k], inn));
        assert(sets_le(st.ins, st2.ins));
        assert(sets_le(st.outs, st2.outs));
        assert(shapes_ok(g, uses, defs, st2, width));
        assert forall|j: int| 0 <= j < g.len() implies bits_le(#[trigger] st2.outs[j], succ_union(g[j].succs, st2.ins, width))
            && bits_le(st2.ins[j], transfer(st2.outs[j], defs[j], uses[j], nl)) by {
            assert forall|t: int| 0 <= t < g[j].succs.len() implies (#[trigger] g[j].succs[t]) < g.len() by {}
            lemma_succ_union_mono(g[j].succs, st.ins, st2.ins, width, g.len());
            if j != k {
                assert(bits_le(st.outs[j], succ_union(g[j].succs, st.ins, width)));
            } else {
                lemma_succ_union_len(g[j].succs, st2.ins, width);
            }
        }
        lemma_round(g, uses, defs, st2, (b - 1) as nat, width, nl);
        let r = round_down(g, uses, defs, st2, (b - 1) as nat, width, nl);
        assert(r == round_down(g, uses, defs, st, b, width, nl));
        assert(sets_le(st.ins, r.ins)) by {
            assert forall|j: int| 0 <= j < st.ins.len() implies bits_le(#[trigger] st.ins[j], r.ins[j]) by {
                assert(bits_le(st2.ins[j], r.ins[j]));
            }
        }
        assert(sets_le(st.outs, r.outs)) by {
            assert forall|j: int| 0 <= j < st.outs.len() implies bits_le(#[trigger] st.outs[j], r.outs[j]) by {
                assert(bits_le(st2.outs[j], r.outs[j]));
            }
        }
        if !r.changed {
            lemma_count_le(st.outs[k], out);
            lemma_count_le(st.ins[k], inn);
            assert(out == st.outs[k]);
            assert(inn == st.ins[k]);
            assert(st2.ins =~= st.ins);
            assert(st2.outs =~= st.outs);
        }
    }
}

/// When the rounds stop because one changed nothing, the sets solve the equations.
proof fn lemma_settle(
    g: Seq<BlockModel>,
    uses: Seq<Seq<bool>>,
    defs: Seq<Seq<bool>>,
    st: LiveState,
    fuel: nat,
    width: nat,
    nl: nat,
)
    requires
        shapes_ok(g, uses, defs, st, width),
        below_equations(g, uses, defs, st.ins, st.outs, width, nl),
        st.changed,
    ensures
        ({
            let r = settle(g, uses, defs, st, fuel, width, nl);
            !r.changed ==> solves(g, uses, defs, r.ins, r.outs, width, nl)
        }),
    decreases fuel,
{
    if fuel > 0 {
        let st0 = LiveState { changed: false, ..st };
        lemma_round(g, uses, defs, st0, g.len(), width, nl);
        let r = round_down(g, uses, defs, st0, g.len(), width, nl);
        if r.changed {
            lemma_settle(g, uses, defs, r, (fuel - 1) as nat, width, nl);
        } else {
            assert forall|b: int| 0 <= b < g.len() implies #[trigger] r.outs[b] == succ_union(g[b].succs, r.ins, width)
                && r.ins[b] == transfer(r.outs[b], defs[b], uses[b], nl) by {
                assert(st0.outs[b] == succ_union(g[b].succs, st0.ins, width));
            }
        }
    }
}


/// Bits at and past `nl` are clear.
pub open spec fn high_clear(s: Seq<bool>, nl: nat) -> bool {
    forall|i: int| nl <= i < s.len() ==> !#[trigger] s[i]
}

/// Every set has its bits at and past `nl` clear.
pub open spec fn all_high_clear(s: Seq<Seq<bool>>, nl: nat) -> bool {
    forall|k: int| 0 <= k < s.len() ==> high_clear(#[trigger] s[k], nl)
}

/// Total number of set bits over the sets.
pub open spec fn sum_counts(s: Seq<Seq<bool>>) -> nat
    decreases s.len(),
{
    if s.len() == 0 {
        0
    } else {
        sum_counts(s.drop_last()) + count_true(s.last())
    }
}

proof fn lemma_count_high_clear(s: Seq<bool>, nl: nat)
    requires
        high_clear(s, nl),
    ensures
        count_true(s) <= nl,
    decreases s.len(),
{
    if s.len() > 0 {
        lemma_count_high_clear(s.drop_last(), nl);
        if s.len() > nl {
            assert(!s[s.len() - 1]);
            assert(count_true(s.drop_last()) <= nl);
        } else {
            lemma_count_le_len_pub(s.drop_last());
        }
    }
}

proof fn lemma_count_le_len_pub(s: Seq<bool>)
    ensures
        count_true(s) <= s.len(),
    decreases s.len(),
{
    if s.len() > 0 {
        lemma_count_le_len_pub(s.drop_last());
    }
}

proof fn lemma_sum_bound(s: Seq<Seq<bool>>, nl: nat)
    requires
        all_high_clear(s, nl),
    ensures
        sum_counts(s) <= s.len() * nl,
    decreases s.len(),
{
    if s.len() > 0 {
        let p = s.drop_last();
        assert(all_high_clear(p, nl)) by {
            assert forall|k: int| 0 <= k < p.len() implies high_clear(#[trigger] p[k], nl) by {
                assert(p[k] == s[k]);
            }
        }
        lemma_sum_bound(p, nl);
        assert(high_clear(s[s.len() - 1], nl));
        lemma_count_high_clear(s.last(), nl);
        assert(s.len() * nl == p.len() * nl + nl) by (nonlinear_arith)
            requires
                s.len() == p.len() + 1,
        ;
    }
}

proof fn lemma_sum_mono(a: Seq<Seq<bool>>, b: Seq<Seq<bool>>, k: int)
    requires
        sets_le(a, b),
        0 <= k < a.len(),
    ensures
        sum_counts(a) <= sum_counts(b),
        count_true(a[k]) < count_true(b[k]) ==> sum_counts(a) < sum_counts(b),
    decreases a.len(),
{
    let n = a.len();
    let pa = a.drop_last();
    let pb = b.drop_last();
    assert(bits_le(a[n - 1], b[n - 1]));
    lemma_count_le(a[n - 1], b[n - 1]);
    if n > 1 {
        assert(sets_le(pa, pb)) by {
            assert forall|j: int| 0 <= j < pa.len() implies bits_le(#[trigger] pa[j], pb[j]) by {
                assert(pa[j] == a[j] && pb[j] == b[j]);
            }
        }
        let kk = if k < n - 1 { k } else { 0 };
        lemma_sum_mono(pa, pb, kk);
        if k < n - 1 {
            assert(pa[k] == a[k] && pb[k] == b[k]);
        }
    } else {
        assert(sum_counts(pa) == 0);
        assert(sum_counts(pb) == 0);
    }
    assert(sum_counts(a) == sum_counts(pa) + count_true(a[n - 1]));
    assert(sum_counts(b) == sum_counts(pb) + count_true(b[n - 1]));
}

/// A round that changes something adds set bits; rounds keep high bits clear.
proof fn lemma_round_grows(
    g: Seq<BlockModel>,
    uses: Seq<Seq<bool>>,
    defs: Seq<Seq<bool>>,
    st: LiveState,
    b: nat,
    width: nat,
    nl: nat,
)
    requires
        shapes_ok(g, uses, defs, st, width),
        below_equations(g, uses, defs, st.ins, st.outs, width, nl),
        all_high_clear(st.ins, nl),
        all_high_clear(st.outs, nl),
        all_high_clear(uses, nl),
        b <= g.len(),
    ensures
        ({
            let r = round_down(g, uses, defs, st, b, width, nl);
            &&& all_high_clear(r.ins, nl)
            &&& all_high_clear(r.outs, nl)
            &&& (r.changed && !st.changed ==> sum_counts(st.ins) + sum_counts(st.outs) < sum_counts(r.ins)
                + sum_counts(r.outs))
        }),
    decreases b,
{
    if b > 0 {
        let k = (b - 1) as int;
        let out = succ_union(g[k].succs, st.ins, width);
        let inn = transfer(out, defs[k], uses[k], nl);
        let ch = st.changed || count_true(out) != count_true(st.outs[k]) || count_true(inn) != count_true(st.ins[k]);
        let st2 = LiveState { ins: st.ins.update(k, inn), outs: st.outs.update(k, out), changed: ch };
        lemma_round(g, uses, defs, st, b, width, nl);
        lemma_succ_union_len(g[k].succs, st.ins, width);
        assert forall|t: int| 0 <= t < g[k].succs.len() implies (#[trigger] g[k].succs[t]) < g.len() by {}
        lemma_succ_union_clear(g[k].succs, st.ins, width, nl, g.len());
        assert(high_clear(uses[k], nl));
        assert(all_high_clear(st2.ins, nl)) by {
            assert forall|j: int| 0 <= j < st2.ins.len() implies high_clear(#[trigger] st2.ins[j], nl) by {
                if j != k {
                    assert(st2.ins[j] == st.ins[j]);
                }
            }
        }
        assert(all_high_clear(st2.outs, nl)) by {
            assert forall|j: int| 0 <= j < st2.outs.len() implies high_clear(#[trigger] st2.outs[j], nl) by {
                if j != k {
                    assert(st2.outs[j] == st.outs[j]);
                }
            }
        }
        // what the first step of the round establishes
        assert(bits_le(st.outs[k], out));
        lemma_transfer_mono(st.outs[k], out, defs[k], uses[k], nl);
        assert(sets_le(st.ins, st2.ins));
        assert(sets_le(st.outs, st2.outs));
        assert(shapes_ok(g, uses, defs, st2, width));
        assert forall|j: int| 0 <= j < g.len() implies bits_le(#[trigger] st2.outs[j], succ_union(g[j].succs, st2.ins, width))
            && bits_le(st2.ins[j], transfer(st2.outs[j], defs[j], uses[j], nl)) by {
            assert forall|t: int| 0 <= t < g[j].succs.len() implies (#[trigger] g[j].succs[t]) < g.len() by {}
            lemma_succ_union_mono(g[j].succs, st.ins, st2.ins, width, g.len());
            if j != k {
                assert(bits_le(st.outs[j], succ_union(g[j].succs, st.ins, width)));
            } else {
                lemma_succ_union_len(g[j].succs, st2.ins, width);
            }
        }
        lemma_round_grows(g, uses, defs, st2, (b - 1) as nat, width, nl);
        lemma_round(g, uses, defs, st2, (b - 1) as nat, width, nl);
        let r = round_down(g, uses, defs, st2, (b - 1) as nat, width, nl);
        assert(r == round_down(g, uses, defs, st, b, width, nl));
        if r.changed && !st.changed {
            lemma_sum_mono(st.ins, st2.ins, k);
            lemma_sum_mono(st.outs, st2.outs, k);
            lemma_sum_mono(st2.ins, r.ins, k);
            lemma_sum_mono(st2.outs, r.outs, k);
            lemma_count_le(st.outs[k], out);
            lemma_count_le(st.ins[k], inn);
        }
    }
}

proof fn lemma_succ_union_clear(succs: Seq<usize>, ins: Seq<Seq<bool>>, width: nat, nl: nat, n: nat)
    requires
        all_high_clear(ins, nl),
        ins.len() == n,
        forall|k: int| 0 <= k < succs.len() ==> (#[trigger] succs[k]) < n,
    ensures
        high_clear(succ_union(succs, ins, width), nl),
    decreases succs.len(),
{
    if succs.len() > 0 {
        lemma_succ_union_clear(succs.drop_last(), ins, width, nl, n);
        assert(succs[succs.len() - 1] < n);
        assert(high_clear(ins[succs.last() as int], nl));
    }
}

/// With enough rounds left the iteration stops because a round changed nothing.
proof fn lemma_settle_stops(
    g: Seq<BlockModel>,
    uses: Seq<Seq<bool>>,
    defs: Seq<Seq<bool>>,
    st: LiveState,
    fuel: nat,
    width: nat,
    nl: nat,
)
    requires
        shapes_ok(g, uses, defs, st, width),
        below_equations(g, uses, defs, st.ins, st.outs, width, nl),
        all_high_clear(st.ins, nl),
        all_high_clear(st.outs, nl),
        all_high_clear(uses, nl),
        fuel + sum_counts(st.ins) + sum_counts(st.outs) > 2 * g.len() * nl,
    ensures
        !settle(g, uses, defs, st, fuel, width, nl).changed,
    decreases fuel,
{
    lemma_sum_bound(st.ins, nl);
    lemma_sum_bound(st.outs, nl);
    if fuel > 0 {
        let st0 = LiveState { changed: false, ..st };
        lemma_round(g, uses, defs, st0, g.len(), width, nl);
        lemma_round_grows(g, uses, defs, st0, g.len(), width, nl);
        let r = round_down(g, uses, defs, st0, g.len(), width, nl);
        if r.changed {
            lemma_settle_stops(g, uses, defs, r, (fuel - 1) as nat, width, nl);
        }
    } else {
        assert(st.ins.len() * nl + st.outs.len() * nl == 2 * g.len() * nl) by (nonlinear_arith)
            requires
                st.ins.len() == g.len(),
                st.outs.len() == g.len(),
        ;
    }
}

/// Each round keeps the sets below any solution of the equations.
proof fn lemma_round_below(
    g: Seq<BlockModel>,
    uses: Seq<Seq<bool>>,
    defs: Seq<Seq<bool>>,
    st: LiveState,
    b: nat,
    width: nat,
    nl: nat,
    xins: Seq<Seq<bool>>,
    xouts: Seq<Seq<bool>>,
)
    requires
        shapes_ok(g, uses, defs, st, width),
        solves(g, uses, defs, xins, xouts, width, nl),
        sets_le(st.ins, xins),
        sets_le(st.outs, xouts),
        b <= g.len(),
    ensures
        ({
            let r = round_down(g, uses, defs, st, b, width, nl);
            sets_le(r.ins, xins) && sets_le(r.outs, xouts)
        }),
    decreases b,
{
    if b > 0 {
        let k = (b - 1) as int;
        let out = succ_union(g[k].succs, st.ins, width);
        let inn = transfer(out, defs[k], uses[k], nl);
        let ch = st.changed || count_true(out) != count_true(st.outs[k]) || count_true(inn) != count_true(st.ins[k]);
        let st2 = LiveState { ins: st.ins.update(k, inn), outs: st.outs.update(k, out), changed: ch };
        assert forall|t: int| 0 <= t < g[k].succs.len() implies (#[trigger] g[k].succs[t]) < g.len() by {}
        lemma_succ_union_mono(g[k].succs, st.ins, xins, width, g.len());
        lemma_succ_union_len(g[k].succs, st.ins, width);
        assert(xouts[k] == succ_union(g[k].succs, xins, width));
        lemma_transfer_mono(out, xouts[k], defs[k], uses[k], nl);
        assert(sets_le(st2.ins, xins)) by {
            assert forall|j: int| 0 <= j < st2.ins.len() implies bits_le(#[trigger] st2.ins[j], xins[j]) by {
                if j != k {
                    assert(st2.ins[j] == st.ins[j]);
                }
            }
        }
        assert(sets_le(st2.outs, xouts)) by {
            assert forall|j: int| 0 <= j < st2.outs.len() implies bits_le(#[trigger] st2.outs[j], xouts[j]) by {
                if j != k {
                    assert(st2.outs[j] == st.outs[j]);
                }
            }
        }
        lemma_round_below(g, uses, defs, st2, (b - 1) as nat, width, nl, xins, xouts);
    }
}

proof fn lemma_settle_below(
    g: Seq<BlockModel>,
    uses: Seq<Seq<bool>>,
    defs: Seq<Seq<bool>>,
    st: LiveState,
    fuel: nat,
    width: nat,
    nl: nat,
    xins: Seq<Seq<bool>>,
    xouts: Seq<Seq<bool>>,
)
    requires
        shapes_ok(g, uses, defs, st, width),
        below_equations(g, uses, defs, st.ins, st.outs, width, nl),
        solves(g, uses, defs, xins, xouts, width, nl),
        sets_le(st.ins, xins),
        sets_le(st.outs, xouts),
    ensures
        ({
            let r = settle(g, uses, defs, st, fuel, width, nl);
            sets_le(r.ins, xins) && sets_le(r.outs, xouts)
        }),
    decreases fuel,
{
    if fuel > 0 {
        let st0 = LiveState { changed: false, ..st };
        lemma_round(g, uses, defs, st0, g.len(), width, nl);
        lemma_round_below(g, uses, defs, st0, g.len(), width, nl, xins, xouts);
        let r = round_down(g, uses, defs, st0, g.len(), width, nl);
        if r.changed {
            lemma_settle_below(g, uses, defs, r, (fuel - 1) as nat, width, nl, xins, xouts);
        }
    }
}

/// The facts every function's iteration starts from.
proof fn lemma_start(f: FnModel)
    ensures
        ({
            let g = spec_blocks(f.code);
            let w = set_width(f.max_locals as nat);
            let nl = f.max_locals as nat;
            let init = LiveState {
                ins: Seq::new(g.len(), |k: int| zeros(w)),
                outs: Seq::new(g.len(), |k: int| zeros(w)),
                changed: true,
            };
            &&& shapes_ok(g, all_uses(f), all_defs(f), init, w)
            &&& below_equations(g, all_uses(f), all_defs(f), init.ins, init.outs, w, nl)
            &&& all_high_clear(init.ins, nl)
            &&& all_high_clear(init.outs, nl)
            &&& all_high_clear(all_uses(f), nl)
            &&& sum_counts(init.ins) == 0
            &&& sum_counts(init.outs) == 0
        }),
{
    let g = spec_blocks(f.code);
    let w = set_width(f.max_locals as nat);
    let nl = f.max_locals as nat;
    let z = Seq::new(g.len(), |k: int| zeros(w));
    cfg::lemma_blocks_wf(f.code);
    assert forall|b: int| 0 <= b < g.len() implies bits_le(#[trigger] z[b], succ_union(g[b].succs, z, w)) && bits_le(
        z[b],
        transfer(z[b], all_defs(f)[b], all_uses(f)[b], nl),
    ) by {
        lemma_succ_union_len(g[b].succs, z, w);
    }
    lemma_sum_zero(z, w);
}

proof fn lemma_sum_zero(z: Seq<Seq<bool>>, w: nat)
    requires
        forall|k: int| 0 <= k < z.len() ==> #[trigger] z[k] == zeros(w),
    ensures
        sum_counts(z) == 0,
    decreases z.len(),
{
    if z.len() > 0 {
        lemma_sum_zero(z.drop_last(), w);
        lemma_zeros_count(w);
    }
}

proof fn lemma_zeros_count(w: nat)
    ensures
        count_true(zeros(w)) == 0,
    decreases w,
{
    if w > 0 {
        lemma_zeros_count((w - 1) as nat);
        assert(zeros(w).drop_last() =~= zeros((w - 1) as nat));
    }
}

/// The live sets solve the liveness equations: each block's live-out is the union of its
/// successors' live-in, and its live-in is its live-out without the slots the block
/// defines, plus the slots it uses before defining them.
pub proof fn law_liveness_solves(f: FnModel)
    ensures
        solves(
            spec_blocks(f.code),
            all_uses(f),
            all_defs(f),
            liveness_of(f).ins,
            liveness_of(f).outs,
            set_width(f.max_locals as nat),
            f.max_locals as nat,
        ),
{
    let g = spec_blocks(f.code);
    let w = set_width(f.max_locals as nat);
    let nl = f.max_locals as nat;
    let init = LiveState {
        ins: Seq::new(g.len(), |k: int| zeros(w)),
        outs: Seq::new(g.len(), |k: int| zeros(w)),
        changed: true,
    };
    lemma_start(f);
    assert(fuel_of(f) >= 0) by (nonlinear_arith)
        requires
            fuel_of(f) == g.len() * (f.max_locals as int) * 4 + 8,
    ;
    assert(fuel_of(f) as nat > 2 * g.len() * nl) by (nonlinear_arith)
        requires
            fuel_of(f) == g.len() * (f.max_locals as int) * 4 + 8,
            nl == f.max_locals,
    ;
    lemma_settle_stops(g, all_uses(f), all_defs(f), init, fuel_of(f) as nat, w, nl);
    lemma_settle(g, all_uses(f), all_defs(f), init, fuel_of(f) as nat, w, nl);
}

/// The live sets are the least solution: within the sets of any solution of the equations.
pub proof fn law_liveness_least(f: FnModel, ins: Seq<Seq<bool>>, outs: Seq<Seq<bool>>)
    requires
        widths(ins, spec_blocks(f.code).len(), set_width(f.max_locals as nat)),
        widths(outs, spec_blocks(f.code).len(), set_width(f.max_locals as nat)),
        solves(spec_blocks(f.code), all_uses(f), all_defs(f), ins, outs, set_width(f.max_locals as nat), f.max_locals as nat),
    ensures
        sets_le(liveness_of(f).ins, ins),
        sets_le(liveness_of(f).outs, outs),
{
    let g = spec_blocks(f.code);
    let w = set_width(f.max_locals as nat);
    let nl = f.max_locals as nat;
    let init = LiveState {
        ins: Seq::new(g.len(), |k: int| zeros(w)),
        outs: Seq::new(g.len(), |k: int| zeros(w)),
        changed: true,
    };
    lemma_start(f);
    assert(sets_le(init.ins, ins));
    assert(sets_le(init.outs, outs));
    lemma_settle_below(g, all_uses(f), all_defs(f), init, fuel_of(f) as nat, w, nl, ins, outs);
}

proof fn lemma_succ_union_bit(succs: Seq<usize>, ins: Seq<Seq<bool>>, width: nat, x: int)
    requires
        0 <= x < width,
    ensures
        succ_union(succs, ins, width)[x] <==> exists|k: int| 0 <= k < succs.len()
            && x < ins[succs[k] as int].len() && #[trigger] ins[succs[k] as int][x],
    decreases succs.len(),
{
    if succs.len() > 0 {
        let p = succs.drop_last();
        lemma_succ_union_bit(p, ins, width, x);
        lemma_succ_union_len(p, ins, width);
        if exists|k: int| 0 <= k < succs.len() && x < ins[succs[k] as int].len() && #[trigger] ins[succs[k] as int][x] {
            let k = choose|k: int| 0 <= k < succs.len() && x < ins[succs[k] as int].len() && #[trigger] ins[succs[k] as int][x];
            if k < p.len() {
                assert(p[k] == succs[k]);
            }
        }
        if exists|k: int| 0 <= k < p.len() && x < ins[p[k] as int].len() && #[trigger] ins[p[k] as int][x] {
            let k = choose|k: int| 0 <= k < p.len() && x < ins[p[k] as int].len() && #[trigger] ins[p[k] as int][x];
            assert(succs[k] == p[k]);
        }
    }
}

/// What the live sets mean, slot by slot (for slots below the function's local count): a
/// slot is live into a block exactly when the block reads it before writing it, or it is
/// live out of the block and the block never writes it; it is live out of a block exactly
/// when it is live into one of the block's successors. In particular a block that starts by
/// loading a slot has it live in, and a block that starts by storing to it does not.
pub proof fn law_liveness_meaning(f: FnModel)
    ensures
        forall|b: int, x: int| 0 <= b < spec_blocks(f.code).len() && 0 <= x < f.max_locals ==> {
            &&& (#[trigger] liveness_of(f).ins[b][x] <==> used_first(f.code, instrs_of(f.code, b), x)
                || (liveness_of(f).outs[b][x] && !defined(f.code, instrs_of(f.code, b), x)))
            &&& (liveness_of(f).outs[b][x] <==> exists|k: int| 0 <= k < spec_blocks(f.code)[b].succs.len()
                && x < liveness_of(f).ins[spec_blocks(f.code)[b].succs[k] as int].len()
                && #[trigger] liveness_of(f).ins[spec_blocks(f.code)[b].succs[k] as int][x])
            &&& (instrs_of(f.code, b).len() > 0 && instrs_of(f.code, b)[0].1 == bytecode::LOADLOCAL
                && instrs_of(f.code, b)[0].0 + 2 < f.code.len() && f.code[instrs_of(f.code, b)[0].0 + 1] == x)
                ==> liveness_of(f).ins[b][x]
            &&& (instrs_of(f.code, b).len() > 0 && instrs_of(f.code, b)[0].1 == bytecode::STORELOCAL
                && instrs_of(f.code, b)[0].0 + 2 < f.code.len() && f.code[instrs_of(f.code, b)[0].0 + 1] == x)
                ==> !liveness_of(f).ins[b][x]
        },
{
    law_liveness_solves(f);
    let g = spec_blocks(f.code);
    let nl = f.max_locals as nat;
    let wd = set_width(nl);
    let ins = liveness_of(f).ins;
    let outs = liveness_of(f).outs;
    assert(nl <= wd) by (nonlinear_arith)
        requires
            wd == ((nl + 63) / 64) as nat * 64,
    ;
    assert forall|b: int, x: int| 0 <= b < g.len() && 0 <= x < nl implies {
        let w = instrs_of(f.code, b);
        &&& (#[trigger] ins[b][x] <==> used_first(f.code, w, x) || (outs[b][x] && !defined(f.code, w, x)))
        &&& (outs[b][x] <==> exists|k: int| 0 <= k < g[b].succs.len()
            && x < ins[g[b].succs[k] as int].len() && #[trigger] ins[g[b].succs[k] as int][x])
        &&& (w.len() > 0 && w[0].1 == bytecode::LOADLOCAL && w[0].0 + 2 < f.code.len()
            && f.code[w[0].0 + 1] == x) ==> ins[b][x]
        &&& (w.len() > 0 && w[0].1 == bytecode::STORELOCAL && w[0].0 + 2 < f.code.len()
            && f.code[w[0].0 + 1] == x) ==> !ins[b][x]
    } by {
        let w = instrs_of(f.code, b);
        assert(outs[b] == succ_union(g[b].succs, ins, wd));
        lemma_succ_union_len(g[b].succs, ins, wd);
        lemma_succ_union_bit(g[b].succs, ins, wd, x);
        let uses = all_uses(f)[b];
        let defs = all_defs(f)[b];
        assert(uses == use_bits(f.code, w, nl, wd));
        assert(defs == def_bits(f.code, w, nl, wd));
        assert(ins[b] == transfer(outs[b], defs, uses, nl));
        if w.len() > 0 && w[0].1 == bytecode::LOADLOCAL && w[0].0 + 2 < f.code.len() && f.code[w[0].0 + 1] == x {
            assert(loads(f.code, w[0], x));
        }
        if w.len() > 0 && w[0].1 == bytecode::STORELOCAL && w[0].0 + 2 < f.code.len() && f.code[w[0].0 + 1] == x {
            assert(stores(f.code, w[0], x));
            if used_first(f.code, w, x) {
                let i = choose|i: int| 0 <= i < w.len() && #[trigger] loads(f.code, w[i], x)
                    && forall|j: int| 0 <= j < i ==> !stores(f.code, #[trigger] w[j], x);
                assert(i != 0);
                assert(!stores(f.code, w[0], x));
            }
        }
    }
}

/// Live-in and live-out slot sets of every block, by iterating the dataflow equations
/// (live-out is the union of the successors' live-in; live-in is live-out without the
/// block's definitions, plus its uses) from empty sets, in rounds over the blocks in
/// reverse order, until a round changes no set's size or the round budget runs out.
pub fn analyze(f: &Function) -> (r: Liveness)
    requires
        fuel_of(f@) <= usize::MAX,
    ensures
        r.live_in@.len() == spec_blocks(f.code@).len(),
        r.live_out@.len() == spec_blocks(f.code@).len(),
        sets_ok(r.live_in@, f.max_locals as nat),
        sets_ok(r.live_out@, f.max_locals as nat),
        sets_bits(r.live_in@) == liveness_of(f@).ins,
        sets_bits(r.live_out@) == liveness_of(f@).outs,
{
    let g = cfg::build(f);
    let ghost gm = spec_blocks(f.code@);
    let n = g.blocks.len();
    let nlocals = f.max_locals as usize;
    let ghost w = set_width(nlocals as nat);
    let ghost nl = nlocals as nat;
    let ghost uu = all_uses(f@);
    let ghost dd = all_defs(f@);
    let code = f.code.as_slice();
    let _ = code.len();
    proof {
        cfg::lemma_block_ends(f.code@);
    }
    let mut uses: Vec<BitSet> = Vec::new();
    let mut defs: Vec<BitSet> = Vec::new();
    let mut k: usize = 0;
    while k < n
        invariant
            blocks_view(g.blocks@) == gm,
            gm == spec_blocks(f.code@),
            code@ == f.code@,
            n == gm.len(),
            nlocals == f.max_locals,
            w == set_width(nl),
            nl == nlocals,
            uu == all_uses(f@),
            dd == all_defs(f@),
            forall|b: int| 0 <= b < gm.len() ==> (#[trigger] gm[b]).end <= code@.len(),
            k <= n,
            uses@.len() == k,
            defs@.len() == k,
            sets_ok(uses@, nl),
            sets_ok(defs@, nl),
            forall|j: int| 0 <= j < k ==> (#[trigger] uses@[j])@.bits == uu[j],
            forall|j: int| 0 <= j < k ==> (#[trigger] defs@[j])@.bits == dd[j],
        decreases n - k,
    {
        let b = &g.blocks[k];
        assert(gm[k as int] == b@);
        let (u, d) = uses_defs(code, b.start, b.end, nlocals);
        proof {
            u.lemma_bits_len();
            d.lemma_bits_len();
        }
        uses.push(u);
        defs.push(d);
        k += 1;
    }
    let mut live_in: Vec<BitSet> = Vec::new();
    let mut live_out: Vec<BitSet> = Vec::new();
    let mut z: usize = 0;
    while z < n
        invariant
            z <= n,
            nl == nlocals,
            w == set_width(nl),
            nlocals <= 0xffff,
            live_in@.len() == z,
            live_out@.len() == z,
            sets_ok(live_in@, nl),
            sets_ok(live_out@, nl),
            forall|j: int| 0 <= j < z ==> (#[trigger] live_in@[j])@.bits == zeros(w),
            forall|j: int| 0 <= j < z ==> (#[trigger] live_out@[j])@.bits == zeros(w),
        decreases n - z,
    {
        let a = BitSet::with_len(nlocals);
        let c = BitSet::with_len(nlocals);
        assert(a@.bits =~= zeros(w));
        assert(c@.bits =~= zeros(w));
        live_in.push(a);
        live_out.push(c);
        z += 1;
    }
    let mut changed = true;
    let mut fuel: usize = n * nlocals * 4 + 8;
    proof {
        assert(sets_bits(uses@) =~= uu);
        assert(sets_bits(defs@) =~= dd);
        assert(sets_bits(live_in@) =~= Seq::new(gm.len(), |k: int| zeros(w)));
        assert(sets_bits(live_out@) =~= Seq::new(gm.len(), |k: int| zeros(w)));
        assert(fuel == fuel_of(f@));
    }
    while changed && fuel > 0
        invariant
            blocks_view(g.blocks@) == gm,
            gm == spec_blocks(f.code@),
            graph_wf(gm),
            n == gm.len(),
            nl == nlocals,
            nlocals <= 0xffff,
            w == set_width(nl),
            uses@.len() == n,
            defs@.len() == n,
            live_in@.len() == n,
            live_out@.len() == n,
            sets_ok(uses@, nl),
            sets_ok(defs@, nl),
            sets_ok(live_in@, nl),
            sets_ok(live_out@, nl),
            sets_bits(uses@) == uu,
            sets_bits(defs@) == dd,
            liveness_of(f@) == (if changed {
                settle(gm, uu, dd, LiveState { ins: sets_bits(live_in@), outs: sets_bits(live_out@), changed }, fuel as nat, w, nl)
            } else {
                LiveState { ins: sets_bits(live_in@), outs: sets_bits(live_out@), changed }
            }),
        decreases fuel,
    {
        let ghost st0 = LiveState { ins: sets_bits(live_in@), outs: sets_bits(live_out@), changed: false };
        changed = false;
        fuel -= 1;
        let mut b = n;
        while b > 0
            invariant
                blocks_view(g.blocks@) == gm,
                graph_wf(gm),
                n == gm.len(),
                nl == nlocals,
                nlocals <= 0xffff,
                w == set_width(nl),
                b <= n,
                uses@.len() == n,
                defs@.len() == n,
                live_in@.len() == n,
                live_out@.len() == n,
                sets_ok(uses@, nl),
                sets_ok(defs@, nl),
                sets_ok(live_in@, nl),
                sets_ok(live_out@, nl),
                sets_bits(uses@) == uu,
                sets_bits(defs@) == dd,
                round_down(gm, uu, dd, LiveState { ins: sets_bits(live_in@), outs: sets_bits(live_out@), changed }, b as nat, w, nl)
                    == round_down(gm, uu, dd, st0, n as nat, w, nl),
            decreases b,
        {
            b -= 1;
            let blk = &g.blocks[b];
            let ghost ins0 = sets_bits(live_in@);
            let ghost outs0 = sets_bits(live_out@);
            assert(gm[b as int] == blk@);
            let mut out = BitSet::with_len(nlocals);
            assert(out@.bits =~= zeros(w));
            let mut t: usize = 0;
            assert(blk.succs@.subrange(0, 0) =~= Seq::<usize>::empty());
            while t < blk.succs.len()
                invariant
                    gm[b as int] == blk@,
                    graph_wf(gm),
                    b < n,
                    n == gm.len(),
                    nl == nlocals,
                    w == set_width(nl),
                    live_in@.len() == n,
                    sets_ok(live_in@, nl),
                    ins0 == sets_bits(live_in@),
                    t <= blk.succs@.len(),
                    out.wf(),
                    out@.len == nl,
                    out@.bits == succ_union(blk.succs@.subrange(0, t as int), ins0, w),
                decreases blk.succs@.len() - t,
            {
                assert(blk.succs@.subrange(0, t + 1).drop_last() =~= blk.succs@.subrange(0, t as int));
                let s = blk.succs[t];
                assert(gm[b as int].succs[t as int] < gm.len());
                assert(live_in@[s as int]@.bits == ins0[s as int]);
                let _ = out.union_with(&live_in[s]);
                t += 1;
            }
            assert(blk.succs@.subrange(0, t as int) =~= blk.succs@);
            let ghost out_bits = out@.bits;
            proof {
                out.lemma_bits_len();
                lemma_count_le_len(out@.bits);
                lemma_count_le_len(live_out@[b as int]@.bits);
                lemma_count_le_len(live_in@[b as int]@.bits);
                assert(live_out@[b as int]@.bits == outs0[b as int]);
                assert(live_in@[b as int]@.bits == ins0[b as int]);
            }
            let c1 = out.count_ones() != live_out[b].count_ones();
            let out_copy = out.copy();
            live_out.set(b, out_copy);
            let mut inn = out;
            let mut i: usize = 0;
            while i < nlocals
                invariant
                    i <= nlocals,
                    nl == nlocals,
                    b < n,
                    defs@.len() == n,
                    sets_ok(defs@, nl),
                    sets_bits(defs@) == dd,
                    inn.wf(),
                    inn@.len == nl,
                    out_bits.len() == w,
                    w == set_width(nl),
                    inn@.bits == Seq::new(w, |x: int| out_bits[x] && !(x < i && dd[b as int][x])),
                decreases nlocals - i,
            {
                proof {
                    inn.lemma_bits_len();
                    defs@[b as int].lemma_bits_len();
                    assert(defs@[b as int]@.bits == dd[b as int]);
                }
                if defs[b].get(i) {
                    inn.clear(i);
                }
                proof {
                    assert(i < w) by (nonlinear_arith)
                        requires
                            i < nl,
                            w == ((nl + 63) / 64) as nat * 64,
                    ;
                }
                i += 1;
                assert(inn@.bits =~= Seq::new(w, |x: int| out_bits[x] && !(x < i && dd[b as int][x])));
            }
            proof {
                uses@[b as int].lemma_bits_len();
                assert(uses@[b as int]@.bits == uu[b as int]);
            }
            let _ = inn.union_with(&uses[b]);
            proof {
                assert(inn@.bits =~= transfer(out_bits, dd[b as int], uu[b as int], nl));
                inn.lemma_bits_len();
                lemma_count_le_len(inn@.bits);
            }
            let c2 = inn.count_ones() != live_in[b].count_ones();
            live_in.set(b, inn);
            if c1 || c2 {
                changed = true;
            }
            proof {
                assert(sets_bits(live_out@) =~= outs0.update(b as int, out_bits));
                assert(sets_bits(live_in@) =~= ins0.update(b as int, transfer(out_bits, dd[b as int], uu[b as int], nl)));
                assert forall|j: int| 0 <= j < n implies (#[trigger] live_in@[j]).wf() && live_in@[j]@.len == nl
                    && live_in@[j]@.bits.len() == w by {}
            }
        }
    }
    Liveness { live_in, live_out }
}

/// The largest live-in set size over the blocks (zero without blocks).
pub open spec fn max_count(sets: Seq<Seq<bool>>) -> nat
    decreases sets.len(),
{
    if sets.len() == 0 {
        0
    } else {
        let rest = max_count(sets.drop_last());
        let c = count_true(sets.last());
        if c > rest { c } else { rest }
    }
}

/// The largest number of slots live into any block.
pub fn max_live(f: &Function) -> (r: u32)
    requires
        fuel_of(f@) <= usize::MAX,
    ensures
        r == max_count(liveness_of(f@).ins),
{
    let l = analyze(f);
    let ghost ins = sets_bits(l.live_in@);
    let mut best: u32 = 0;
    let mut i: usize = 0;
    assert(ins.subrange(0, 0) =~= Seq::<Seq<bool>>::empty());
    while i < l.live_in.len()
        invariant
            ins == sets_bits(l.live_in@),
            sets_ok(l.live_in@, f.max_locals as nat),
            i <= ins.len(),
            best == max_count(ins.subrange(0, i as int)),
        decreases ins.len() - i,
    {
        assert(ins.subrange(0, i + 1).drop_last() =~= ins.subrange(0, i as int));
        proof {
            l.live_in@[i as int].lemma_bits_len();
            lemma_count_le_len(l.live_in@[i as int]@.bits);
        }
        let c = l.live_in[i].count_ones();
        if c > best {
            best = c;
        }
        i += 1;
    }
    assert(ins.subrange(0, i as int) =~= ins);
    best
}

} // verus!
