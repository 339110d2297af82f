//! Constant folding helpers for `push8` / `loadk` patterns.
use vstd::prelude::*;
use crate::bytecode;
use crate::bytecode::{lenient_walk, spec_lenient_walk, walk_entry_in};
use crate::module::Function;

verus! {

#[derive(Clone, Debug)]
pub enum Folded {
    Imm(i64),
    Unknown,
}

/// What is known of the value pushed by the instruction `op` at `pc`: the immediate of a
/// complete `push8`, the constant named by a complete `loadk` when it exists.
pub open spec fn fold_at(code: Seq<u8>, consts: Seq<i64>, pc: int, op: u8) -> Folded {
    if op == bytecode::PUSH8 && code.len() - pc > 1 {
        Folded::Imm(code[pc + 1] as i8 as i64)
    } else if op == bytecode::LOADK && code.len() - pc > 2 {
        let idx = code[pc + 1] as int + 256 * (code[pc + 2] as int);
        if idx < consts.len() {
            Folded::Imm(consts[idx])
        } else {
            Folded::Unknown
        }
    } else {
        Folded::Unknown
    }
}

/// Folding agrees with evaluation: where a complete instruction folds to a known value,
/// evaluating it on any frame pushes exactly that value; and every complete `push8`, and
/// every complete `loadk` of an existing constant, folds to a known value.
pub proof fn law_fold_matches_eval(code: Seq<u8>, consts: Seq<i64>, pc: int, fr: crate::interp::EvalModel)
    requires
        0 <= pc < code.len(),
        bytecode::spec_instr_len(code[pc]) matches Some(n) && pc + n <= code.len(),
    ensures
        fold_at(code, consts, pc, code[pc]) matches Folded::Imm(v) ==> crate::interp::eval_op(
            crate::decode::decoded_of(code, pc), consts, fr) == Ok::<crate::interp::EvalModel, crate::error::Error>(
            crate::interp::EvalModel { stack: fr.stack.push(v), locals: fr.locals }),
        code[pc] == bytecode::PUSH8 ==> fold_at(code, consts, pc, code[pc]) is Imm,
        code[pc] == bytecode::LOADK && code[pc + 1] as int + 256 * (code[pc + 2] as int) < consts.len()
            ==> fold_at(code, consts, pc, code[pc]) is Imm,
{
    if code[pc] == bytecode::LOADK {
        let idx = code[pc + 1] as int + 256 * (code[pc + 2] as int);
        assert(crate::decode::operand_u16(code, pc) as int == idx);
    }
}

/// (offset, folded value) for every walked instruction, in order.
pub open spec fn folded_list(code: Seq<u8>, consts: Seq<i64>) -> Seq<(usize, Folded)> {
    let w = spec_lenient_walk(code, 0);
    Seq::new(w.len(), |i: int| (w[i].0, fold_at(code, consts, w[i].0 as int, w[i].1)))
}

/// Number of known immediates in a folded list.
pub open spec fn count_known(s: Seq<(usize, Folded)>) -> nat
    decreases s.len(),
{
    if s.len() == 0 {
        0
    } else {
        count_known(s.drop_last()) + if s.last().1 is Imm { 1nat } else { 0nat }
    }
}

/// One FNV-1a style step: xor in `v`, multiply by the 64-bit FNV prime.
pub open spec fn fnv_step(h: u64, v: u64) -> u64 {
    (h ^ v).wrapping_mul(0x100000001b3)
}

/// The digest state after every constant.
pub open spec fn digest_consts(h: u64, consts: Seq<i64>) -> u64
    decreases consts.len(),
{
    if consts.len() == 0 {
        h
    } else {
        fnv_step(digest_consts(h, consts.drop_last()), consts.last() as u64)
    }
}

/// The digest state after every known immediate, each mixed with its offset.
pub open spec fn digest_imms(h: u64, s: Seq<(usize, Folded)>) -> u64
    decreases s.len(),
{
    if s.len() == 0 {
        h
    } else {
        let prev = digest_imms(h, s.drop_last());
        match s.last().1 {
            Folded::Imm(x) => fnv_step(prev, ((s.last().0 as u64) << 32u64) ^ (x as u64)),
            Folded::Unknown => prev,
        }
    }
}

/// The digest of a function's constants and known immediates.
pub open spec fn spec_const_digest(f: crate::module::FnModel) -> u64 {
    digest_imms(digest_consts(0xcbf29ce484222325, f.consts), folded_list(f.code, f.consts))
}

fn fold_one(code: &[u8], consts: &[i64], pc: usize, op: u8) -> (r: Folded)
    requires
        pc < code@.len(),
    ensures
        r == fold_at(code@, consts@, pc as int, op),
{
    if op == bytecode::PUSH8 && code.len() - pc > 1 {
        Folded::Imm(code[pc + 1] as i8 as i64)
    } else if op == bytecode::LOADK && code.len() - pc > 2 {
        let idx = code[pc + 1] as usize | ((code[pc + 2] as usize) << 8);
        let lo = code[pc + 1];
        let hi = code[pc + 2];
        assert(lo as usize | ((hi as usize) << 8) == lo as usize + 256 * (hi as usize)) by (bit_vector);
        if idx < consts.len() {
            Folded::Imm(consts[idx])
        } else {
            Folded::Unknown
        }
    } else {
        Folded::Unknown
    }
}

/// Walks the code and records, for each instruction, the immediate it pushes when known.
pub fn eval_straight_line(f: &Function) -> (r: Vec<(usize, Folded)>)
    ensures
        r@ == folded_list(f.code@, f.consts@),
{
    let code = f.code.as_slice();
    let walk = lenient_walk(code);
    let ghost w = walk@;
    let _ = code.len();
    proof {
        crate::bytecode::lemma_lenient_walk_entries(code@, 0);
    }
    let mut out: Vec<(usize, Folded)> = Vec::new();
    let mut i: usize = 0;
    while i < walk.len()
        invariant
            w == walk@,
            w == spec_lenient_walk(code@, 0),
            code@ == f.code@,
            forall|k: int| 0 <= k < w.len() ==> walk_entry_in(code@, 0, #[trigger] w[k]),
            i <= w.len(),
            out@.len() == i,
            forall|k: int| 0 <= k < i ==> #[trigger] out@[k] == (w[k].0, fold_at(code@, f.consts@, w[k].0 as int, w[k].1)),
        decreases w.len() - i,
    {
        let (pc, op) = walk[i];
        assert(walk_entry_in(code@, 0, w[i as int]));
        out.push((pc, fold_one(code, f.consts.as_slice(), pc, op)));
        i += 1;
    }
    assert(out@ =~= folded_list(f.code@, f.consts@));
    out
}

/// Number of instructions whose pushed value is known.
pub fn known_imm_count(f: &Function) -> (r: usize)
    ensures
        r == count_known(folded_list(f.code@, f.consts@)),
{
    let list = eval_straight_line(f);
    let ghost s = list@;
    let mut n: usize = 0;
    let mut i: usize = 0;
    assert(s.subrange(0, 0) =~= Seq::<(usize, Folded)>::empty());
    while i < list.len()
        invariant
            s == list@,
            i <= s.len(),
            n <= i,
            n == count_known(s.subrange(0, i as int)),
        decreases s.len() - i,
    {
        assert(s.subrange(0, i + 1).drop_last() =~= s.subrange(0, i as int));
        if let Folded::Imm(_) = list[i].1 {
            n += 1;
        }
        i += 1;
    }
    assert(s.subrange(0, i as int) =~= s);
    n
}

/// FNV-style digest over the constants, then over each known immediate mixed with its offset.
pub fn const_digest(f: &Function) -> (r: u64)
    ensures
        r == spec_const_digest(f@),
{
    let mut h: u64 = 0xcbf29ce484222325;
    let mut i: usize = 0;
    assert(f.consts@.subrange(0, 0) =~= Seq::<i64>::empty());
    while i < f.consts.len()
        invariant
            i <= f.consts@.len(),
            h == digest_consts(0xcbf29ce484222325, f.consts@.subrange(0, i as int)),
        decreases f.consts@.len() - i,
    {
        assert(f.consts@.subrange(0, i + 1).drop_last() =~= f.consts@.subrange(0, i as int));
        h = h ^ (f.consts[i] as u64);
        h = h.wrapping_mul(0x100000001b3);
        i += 1;
    }
    assert(f.consts@.subrange(0, i as int) =~= f.consts@);
    let ghost h0 = h;
    let list = eval_straight_line(f);
    let ghost s = list@;
    let mut k: usize = 0;
    assert(s.subrange(0, 0) =~= Seq::<(usize, Folded)>::empty());
    while k < list.len()
        invariant
            s == list@,
            k <= s.len(),
            h == digest_imms(h0, s.subrange(0, k as int)),
        decreases s.len() - k,
    {
        assert(s.subrange(0, k + 1).drop_last() =~= s.subrange(0, k as int));
        let pc = list[k].0;
        if let Folded::Imm(x) = list[k].1 {
            h = h ^ (((pc as u64) << 32u64) ^ (x as u64));
            h = h.wrapping_mul(0x100000001b3);
        }
        k += 1;
    }
    assert(s.subrange(0, k as int) =~= s);
    h
}

} // verus!
