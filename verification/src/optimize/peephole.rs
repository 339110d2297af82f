//! Local peephole rewrites on bytecode buffers.
use vstd::prelude::*;
use crate::bytecode;
use crate::bytecode::{count_op, lenient_len, lenient_instr_len, lenient_walk, spec_instr_len, spec_lenient_walk, walk_entry_in};
use crate::bytes::append_range;
use crate::decode::{Decoded, decoded_of, is_encodable, ops_of, spec_decode_all, spec_decode_from, spec_encode, spec_encode_all};

verus! {

#[derive(Clone, Debug, Default)]
pub struct Stats {
    pub nops_removed: usize,
    pub push_pop_pairs: usize,
}

/// End of the instruction at `pc`, clamped to the end of the code.
pub open spec fn clamped_end(code: Seq<u8>, pc: int, op: u8) -> int {
    if pc + lenient_len(op) <= code.len() { pc + lenient_len(op) } else { code.len() as int }
}

/// The bytes of every walked instruction except `nop`, in order (a final instruction
/// running past the end keeps only the bytes present).
pub open spec fn without_nops(code: Seq<u8>, walk: Seq<(usize, u8)>) -> Seq<u8>
    decreases walk.len(),
{
    if walk.len() == 0 {
        Seq::empty()
    } else {
        let e = walk.last();
        let rest = without_nops(code, walk.drop_last());
        if e.1 == bytecode::NOP {
            rest
        } else {
            rest + code.subrange(e.0 as int, clamped_end(code, e.0 as int, e.1))
        }
    }
}

/// `code` with its `nop` instructions removed.
pub open spec fn stripped(code: Seq<u8>) -> Seq<u8> {
    without_nops(code, spec_lenient_walk(code, 0))
}

/// Walked instructions that are a `window` directly after another `window`.
pub open spec fn repeated_windows(walk: Seq<(usize, u8)>) -> nat
    decreases walk.len(),
{
    if walk.len() < 2 {
        0
    } else {
        repeated_windows(walk.drop_last()) + if walk.last().1 == bytecode::WINDOW && walk[walk.len() - 2].1
            == bytecode::WINDOW { 1nat } else { 0nat }
    }
}

/// Hotness weight of one opcode.
pub open spec fn op_heat(op: u8) -> nat {
    if op == bytecode::CALL || op == bytecode::GETFIELD {
        4
    } else if op == bytecode::SJMP {
        2
    } else if op == bytecode::LOADLOCAL || op == bytecode::STORELOCAL {
        1
    } else {
        0
    }
}

/// Sum of the hotness weights of the walked instructions.
pub open spec fn heat(walk: Seq<(usize, u8)>) -> nat
    decreases walk.len(),
{
    if walk.len() == 0 {
        0
    } else {
        heat(walk.drop_last()) + op_heat(walk.last().1)
    }
}

/// Hotness of the code.
pub open spec fn code_heat(code: Seq<u8>) -> nat {
    heat(spec_lenient_walk(code, 0))
}

/// Removes `nop` instructions; counts them.
pub fn strip_nops(code: &[u8]) -> (r: (Vec<u8>, Stats))
    ensures
        r.0@ == stripped(code@),
        r.1.nops_removed == count_op(spec_lenient_walk(code@, 0), bytecode::NOP),
        r.1.push_pop_pairs == 0,
{
    let walk = lenient_walk(code);
    let ghost w = walk@;
    let _ = code.len();
    proof {
        crate::bytecode::lemma_lenient_walk_entries(code@, 0);
    }
    let mut out: Vec<u8> = Vec::new();
    let mut nops: usize = 0;
    let mut i: usize = 0;
    assert(w.subrange(0, 0) =~= Seq::<(usize, u8)>::empty());
    while i < walk.len()
        invariant
            w == walk@,
            w == spec_lenient_walk(code@, 0),
            forall|k: int| 0 <= k < w.len() ==> walk_entry_in(code@, 0, #[trigger] w[k]),
            i <= w.len(),
            nops <= i,
            out@ == without_nops(code@, w.subrange(0, i as int)),
            nops == count_op(w.subrange(0, i as int), bytecode::NOP),
        decreases w.len() - i,
    {
        assert(w.subrange(0, i + 1).drop_last() =~= w.subrange(0, i as int));
        let (pc, op) = walk[i];
        assert(walk_entry_in(code@, 0, w[i as int]));
        if op == bytecode::NOP {
            nops += 1;
        } else {
            let len = lenient_instr_len(op);
            let avail = code.len() - pc;
            let take = if len < avail { len } else { avail };
            append_range(&mut out, code, pc, take);
        }
        i += 1;
    }
    assert(w.subrange(0, i as int) =~= w);
    (out, Stats { nops_removed: nops, push_pop_pairs: 0 })
}

/// Number of `window` instructions that directly follow another `window`.
pub fn count_redundant_windows(code: &[u8]) -> (r: usize)
    ensures
        r == repeated_windows(spec_lenient_walk(code@, 0)),
{
    let walk = lenient_walk(code);
    let ghost w = walk@;
    let mut n: usize = 0;
    let mut last_was_window = false;
    let mut i: usize = 0;
    assert(w.subrange(0, 0) =~= Seq::<(usize, u8)>::empty());
    while i < walk.len()
        invariant
            w == walk@,
            i <= w.len(),
            n <= i,
            n == repeated_windows(w.subrange(0, i as int)),
            last_was_window == (i > 0 && w[i - 1].1 == bytecode::WINDOW),
        decreases w.len() - i,
    {
        assert(w.subrange(0, i + 1).drop_last() =~= w.subrange(0, i as int));
        let op = walk[i].1;
        if op == bytecode::WINDOW {
            if last_was_window {
                n += 1;
            }
            last_was_window = true;
        } else {
            last_was_window = false;
        }
        i += 1;
    }
    assert(w.subrange(0, i as int) =~= w);
    n
}

/// Sum of per-instruction hotness weights: 4 for `call` and `getfield`, 2 for `sjmp`,
/// 1 for local loads and stores.
pub fn estimate_hotness(code: &[u8]) -> (r: u32)
    requires
        code_heat(code@) <= u32::MAX,
    ensures
        r == code_heat(code@),
{
    let walk = lenient_walk(code);
    let ghost w = walk@;
    let mut score: u32 = 0;
    let mut i: usize = 0;
    assert(w.subrange(0, 0) =~= Seq::<(usize, u8)>::empty());
    while i < walk.len()
        invariant
            w == walk@,
            w == spec_lenient_walk(code@, 0),
            heat(w) <= u32::MAX,
            i <= w.len(),
            score == heat(w.subrange(0, i as int)),
        decreases w.len() - i,
    {
        assert(w.subrange(0, i + 1).drop_last() =~= w.subrange(0, i as int));
        proof {
            lemma_heat_prefix(w, i + 1);
        }
        let op = walk[i].1;
        let add: u32 = if op == bytecode::CALL || op == bytecode::GETFIELD {
            4
        } else if op == bytecode::SJMP {
            2
        } else if op == bytecode::LOADLOCAL || op == bytecode::STORELOCAL {
            1
        } else {
            0
        };
        score = score + add;
        i += 1;
    }
    assert(w.subrange(0, i as int) =~= w);
    score
}

proof fn lemma_heat_prefix(w: Seq<(usize, u8)>, k: int)
    requires
        0 <= k <= w.len(),
    ensures
        heat(w.subrange(0, k)) <= heat(w),
    decreases w.len() - k,
{
    if k < w.len() {
        lemma_heat_prefix(w, k + 1);
        assert(w.subrange(0, k + 1).drop_last() =~= w.subrange(0, k));
    } else {
        assert(w.subrange(0, k) =~= w);
    }
}


/// The instructions of a listing other than `nop`, in order.
pub open spec fn non_nops(ds: Seq<Decoded>) -> Seq<Decoded>
    decreases ds.len(),
{
    if ds.len() == 0 {
        Seq::empty()
    } else {
        (if ds[0] is Nop { Seq::empty() } else { seq![ds[0]] }) + non_nops(ds.subrange(1, ds.len() as int))
    }
}

/// Number of `nop` instructions in a listing.
pub open spec fn nop_count(ds: Seq<Decoded>) -> nat
    decreases ds.len(),
{
    if ds.len() == 0 {
        0
    } else {
        (if ds[0] is Nop { 1nat } else { 0nat }) + nop_count(ds.subrange(1, ds.len() as int))
    }
}

proof fn lemma_without_nops_concat(code: Seq<u8>, w1: Seq<(usize, u8)>, w2: Seq<(usize, u8)>)
    ensures
        without_nops(code, w1 + w2) == without_nops(code, w1) + without_nops(code, w2),
    decreases w2.len(),
{
    if w2.len() == 0 {
        assert(w1 + w2 =~= w1);
        assert(without_nops(code, w1) + without_nops(code, w2) =~= without_nops(code, w1));
    } else {
        lemma_without_nops_concat(code, w1, w2.drop_last());
        assert((w1 + w2).drop_last() =~= w1 + w2.drop_last());
        assert((w1 + w2).last() == w2.last());
        let e = w2.last();
        if e.1 != bytecode::NOP {
            let piece = code.subrange(e.0 as int, clamped_end(code, e.0 as int, e.1));
            assert(without_nops(code, w1) + without_nops(code, w2.drop_last()) + piece
                =~= without_nops(code, w1) + (without_nops(code, w2.drop_last()) + piece));
        }
    }
}

proof fn lemma_count_op_concat(w1: Seq<(usize, u8)>, w2: Seq<(usize, u8)>, op: u8)
    ensures
        count_op(w1 + w2, op) == count_op(w1, op) + count_op(w2, op),
    decreases w2.len(),
{
    if w2.len() == 0 {
        assert(w1 + w2 =~= w1);
    } else {
        lemma_count_op_concat(w1, w2.drop_last(), op);
        assert((w1 + w2).drop_last() =~= w1 + w2.drop_last());
        assert((w1 + w2).last() == w2.last());
    }
}

/// For code that decodes from `pc`, stripping the walk from `pc` is encoding the
/// non-`nop` instructions, and the walk counts the `nop` instructions.
proof fn lemma_strip_from(code: Seq<u8>, pc: nat)
    requires
        spec_decode_from(code, pc) is Ok,
        code.len() <= usize::MAX,
    ensures
        without_nops(code, spec_lenient_walk(code, pc))
            == spec_encode_all(non_nops(ops_of(spec_decode_from(code, pc)->Ok_0))),
        count_op(spec_lenient_walk(code, pc), bytecode::NOP) == nop_count(ops_of(spec_decode_from(code, pc)->Ok_0)),
        forall|i: int| 0 <= i < ops_of(spec_decode_from(code, pc)->Ok_0).len()
            ==> is_encodable(#[trigger] ops_of(spec_decode_from(code, pc)->Ok_0)[i]),
    decreases code.len() - pc,
{
    let ops = ops_of(spec_decode_from(code, pc)->Ok_0);
    if pc >= code.len() {
        assert(ops =~= Seq::<Decoded>::empty());
        assert(spec_lenient_walk(code, pc) =~= Seq::<(usize, u8)>::empty());
    } else {
        let op = code[pc as int];
        let len = spec_instr_len(op).unwrap();
        let d = decoded_of(code, pc as int);
        lemma_strip_from(code, pc + len);
        let rest = spec_decode_from(code, pc + len)->Ok_0;
        let ops_r = ops_of(rest);
        assert(ops =~= seq![d] + ops_r) by {
            assert(ops_of(seq![(pc as usize, d)] + rest) =~= seq![d] + ops_of(rest));
        }
        assert((seq![d] + ops_r).subrange(1, (seq![d] + ops_r).len() as int) =~= ops_r);
        let w = spec_lenient_walk(code, pc);
        let wr = spec_lenient_walk(code, pc + len);
        assert(w =~= seq![(pc as usize, op)] + wr);
        lemma_without_nops_concat(code, seq![(pc as usize, op)], wr);
        lemma_count_op_concat(seq![(pc as usize, op)], wr, bytecode::NOP);
        assert(seq![(pc as usize, op)].drop_last() =~= Seq::<(usize, u8)>::empty());
        assert(seq![(pc as usize, op)].last() == (pc as usize, op));
        assert(without_nops(code, Seq::<(usize, u8)>::empty()) == Seq::<u8>::empty());
        assert(count_op(Seq::<(usize, u8)>::empty(), bytecode::NOP) == 0);
        assert(count_op(seq![(pc as usize, op)], bytecode::NOP) == if op == bytecode::NOP { 1nat } else { 0nat });
        assert(nop_count(ops) == (if d is Nop { 1nat } else { 0nat }) + nop_count(ops_r));
        crate::decode::lemma_encode_decoded(code, pc as int, len);
        assert(clamped_end(code, pc as int, op) == pc + len);
        if op == bytecode::NOP {
            assert(d is Nop);
            assert(without_nops(code, seq![(pc as usize, op)]) =~= Seq::<u8>::empty());
            assert(non_nops(ops) == Seq::<Decoded>::empty() + non_nops(ops_r));
            assert(Seq::<Decoded>::empty() + non_nops(ops_r) =~= non_nops(ops_r));
            assert(Seq::<u8>::empty() + without_nops(code, wr) =~= without_nops(code, wr));
        } else {
            assert(!(d is Nop));
            assert(without_nops(code, seq![(pc as usize, op)]) =~= Seq::<u8>::empty() + spec_encode(d));
            assert(Seq::<u8>::empty() + spec_encode(d) =~= spec_encode(d));
            crate::decode::lemma_encode_all_cons(d, non_nops(ops_r));
        }
        assert(is_encodable(d)) by {
            if op == bytecode::NEWARR || op == bytecode::GETFIELD {
                let w24 = code[pc + 1int] as int + 256 * (code[pc + 2int] as int) + 65536 * (code[pc + 3int] as int);
                assert(w24 < 0x100_0000);
            }
        }
        assert forall|i: int| 0 <= i < ops.len() implies is_encodable(#[trigger] ops[i]) by {
            if i > 0 {
                assert(ops[i] == ops_r[i - 1]);
            }
        }
    }
}

proof fn lemma_non_nops_props(ds: Seq<Decoded>)
    requires
        forall|i: int| 0 <= i < ds.len() ==> is_encodable(#[trigger] ds[i]),
    ensures
        forall|i: int| 0 <= i < non_nops(ds).len() ==> is_encodable(#[trigger] non_nops(ds)[i]) && !(non_nops(ds)[i] is Nop),
        spec_encode_all(ds).len() == spec_encode_all(non_nops(ds)).len() + nop_count(ds),
        non_nops(non_nops(ds)) == non_nops(ds),
    decreases ds.len(),
{
    if ds.len() > 0 {
        let d = ds[0];
        let t = ds.subrange(1, ds.len() as int);
        assert(ds =~= seq![d] + t);
        assert forall|i: int| 0 <= i < t.len() implies is_encodable(#[trigger] t[i]) by {
            assert(t[i] == ds[i + 1]);
        }
        lemma_non_nops_props(t);
        crate::decode::lemma_encode_all_cons(d, t);
        let s = non_nops(t);
        if d is Nop {
            assert(non_nops(ds) =~= s);
        } else {
            assert(non_nops(ds) =~= seq![d] + s);
            crate::decode::lemma_encode_all_cons(d, s);
            assert((seq![d] + s).subrange(1, (seq![d] + s).len() as int) =~= s);
            assert(non_nops(seq![d] + s) =~= seq![d] + non_nops(s));
        }
    }
}

/// Stripping `nop` instructions from code that decodes removes exactly the `nop`
/// instructions: the result decodes to the other instructions in order, it is shorter by
/// the number of `nop` instructions, which is the count reported, and stripping again
/// changes nothing.
pub proof fn law_strip_nops(code: Seq<u8>)
    requires
        spec_decode_all(code) is Ok,
        code.len() <= usize::MAX,
    ensures
        spec_decode_all(stripped(code)) is Ok,
        ops_of(spec_decode_all(stripped(code))->Ok_0) == non_nops(ops_of(spec_decode_all(code)->Ok_0)),
        count_op(spec_lenient_walk(code, 0), bytecode::NOP) == nop_count(ops_of(spec_decode_all(code)->Ok_0)),
        stripped(code).len() + count_op(spec_lenient_walk(code, 0), bytecode::NOP) == code.len(),
        stripped(stripped(code)) == stripped(code),
{
    let ops = ops_of(spec_decode_all(code)->Ok_0);
    lemma_strip_from(code, 0);
    let st = non_nops(ops);
    lemma_non_nops_props(ops);
    crate::decode::law_decode_then_encode(code);
    crate::decode::law_encode_then_decode(st);
    let code2 = stripped(code);
    assert(code2 == spec_encode_all(st));
    lemma_strip_from(code2, 0);
}

} // verus!
