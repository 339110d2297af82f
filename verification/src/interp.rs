//! Evaluation over decoded instruction streams: a stack-only interpreter for straight-line
//! code, stack-height traces and per-function summaries.
use vstd::prelude::*;
use crate::decode::{self, Decoded, spec_decode_at, spec_decode_all, spec_stack_delta_of};
use crate::error::{Error, Result};
use crate::module::Function;
use crate::text::{dec_nat, dec_int, push_dec, push_int};

verus! {

#[derive(Clone, Debug, Default)]
pub struct EvalFrame {
    pub stack: Vec<i64>,
    pub locals: Vec<i64>,
}

/// Operand stack and locals of an evaluation.
pub struct EvalModel {
    pub stack: Seq<i64>,
    pub locals: Seq<i64>,
}

impl View for EvalFrame {
    type V = EvalModel;

    open spec fn view(&self) -> EvalModel {
        EvalModel { stack: self.stack@, locals: self.locals@ }
    }
}

impl EvalFrame {
    pub fn new(nlocals: usize) -> (r: Self)
        ensures
            r@ == (EvalModel { stack: Seq::empty(), locals: Seq::new(nlocals as nat, |i: int| 0i64) }),
    {
        let mut locals: Vec<i64> = Vec::new();
        let mut i: usize = 0;
        while i < nlocals
            invariant
                i <= nlocals,
                locals@ == Seq::new(i as nat, |k: int| 0i64),
            decreases nlocals - i,
        {
            locals.push(0);
            i += 1;
            assert(locals@ =~= Seq::new(i as nat, |k: int| 0i64));
        }
        let r = EvalFrame { stack: Vec::new(), locals };
        assert(r@.stack =~= Seq::<i64>::empty());
        r
    }

    pub fn push(&mut self, v: i64)
        ensures
            final(self)@ == (EvalModel { stack: old(self)@.stack.push(v), ..old(self)@ }),
    {
        self.stack.push(v);
    }

    /// Pops the top value; fails on an empty stack.
    pub fn pop(&mut self) -> (r: Result<i64>)
        ensures
            old(self)@.stack.len() == 0 ==> r == Err::<i64, Error>(Error::VerifyFailed("stack underflow"))
                && final(self)@ == old(self)@,
            old(self)@.stack.len() > 0 ==> r == Ok::<i64, Error>(old(self)@.stack.last())
                && final(self)@ == (EvalModel { stack: old(self)@.stack.drop_last(), ..old(self)@ }),
    {
        match self.stack.pop() {
            Some(v) => Ok(v),
            None => Err(Error::VerifyFailed("stack underflow")),
        }
    }

    pub fn peek(&self) -> (r: Option<i64>)
        ensures
            self@.stack.len() == 0 ==> r is None,
            self@.stack.len() > 0 ==> r == Some(self@.stack.last()),
    {
        if self.stack.len() == 0 {
            None
        } else {
            Some(self.stack[self.stack.len() - 1])
        }
    }
}

/// The frame with `v` pushed.
pub open spec fn pushed(fr: EvalModel, v: i64) -> EvalModel {
    EvalModel { stack: fr.stack.push(v), ..fr }
}

/// One decoded instruction other than a jump or a return: the next frame, or an error.
pub open spec fn eval_op(d: Decoded, consts: Seq<i64>, fr: EvalModel) -> Result<EvalModel> {
    match d {
        Decoded::Push8(v) => Ok(pushed(fr, v as i64)),
        Decoded::LoadK(i) => if (i as int) < consts.len() {
            Ok(pushed(fr, consts[i as int]))
        } else {
            Err(Error::VerifyFailed("const"))
        },
        Decoded::LoadLocal(i) => Ok(pushed(fr, if (i as int) < fr.locals.len() { fr.locals[i as int] } else { 0 })),
        Decoded::StoreLocal(i) => if fr.stack.len() == 0 {
            Err(Error::VerifyFailed("stack underflow"))
        } else {
            let v = fr.stack.last();
            let locals = if (i as int) < fr.locals.len() { fr.locals.update(i as int, v) } else { fr.locals };
            Ok(EvalModel { stack: fr.stack.drop_last(), locals })
        },
        Decoded::StrCmp | Decoded::GetField(_) => if fr.stack.len() == 0 {
            Err(Error::VerifyFailed("stack underflow"))
        } else {
            Ok(EvalModel { stack: fr.stack.drop_last().push(0), ..fr })
        },
        Decoded::NewArr(_) => Ok(pushed(fr, 0xA1)),
        Decoded::Intern(_) => Ok(pushed(fr, 0)),
        Decoded::Unknown(_) => Err(Error::VerifyFailed("unknown op")),
        _ => Ok(fr),
    }
}

/// Storing into a local that exists pops the top value into it and leaves the other locals
/// alone; loading that local afterwards pushes the stored value back.
pub proof fn law_store_then_load(i: u16, consts: Seq<i64>, fr: EvalModel)
    requires
        (i as int) < fr.locals.len(),
        fr.stack.len() > 0,
    ensures
        eval_op(Decoded::StoreLocal(i), consts, fr) is Ok,
        ({
            let fr2 = eval_op(Decoded::StoreLocal(i), consts, fr)->Ok_0;
            &&& fr2.stack == fr.stack.drop_last()
            &&& fr2.locals.len() == fr.locals.len()
            &&& fr2.locals[i as int] == fr.stack.last()
            &&& forall|j: int| 0 <= j < fr.locals.len() && j != i ==> #[trigger] fr2.locals[j] == fr.locals[j]
            &&& eval_op(Decoded::LoadLocal(i), consts, fr2) == Ok::<EvalModel, Error>(
                EvalModel { stack: fr.stack.drop_last().push(fr.stack.last()), locals: fr2.locals })
        }),
{
}


/// What the other evaluated instructions do to the frame: `push8 v` pushes `v`, `loadk i`
/// pushes constant `i` (an error when there is none), `loadlocal i` pushes local `i` (zero
/// when there is none), `newarr` pushes the array kind, `intern` pushes zero, `strcmp` and
/// `getfield` replace the top value by zero (an error on an empty stack), an unknown opcode
/// is an error, and the remaining instructions leave the frame as it is.
pub proof fn law_eval_op_effects(d: Decoded, consts: Seq<i64>, fr: EvalModel)
    ensures
        d matches Decoded::Push8(v) ==> eval_op(d, consts, fr) == Ok::<EvalModel, Error>(
            EvalModel { stack: fr.stack.push(v as i64), locals: fr.locals }),
        d matches Decoded::LoadK(i) ==> (if (i as int) < consts.len() {
            eval_op(d, consts, fr) == Ok::<EvalModel, Error>(EvalModel { stack: fr.stack.push(consts[i as int]), locals: fr.locals })
        } else {
            eval_op(d, consts, fr) is Err
        }),
        d matches Decoded::LoadLocal(i) ==> eval_op(d, consts, fr) == Ok::<EvalModel, Error>(EvalModel {
            stack: fr.stack.push(if (i as int) < fr.locals.len() { fr.locals[i as int] } else { 0 }),
            locals: fr.locals,
        }),
        d is NewArr ==> eval_op(d, consts, fr) == Ok::<EvalModel, Error>(EvalModel { stack: fr.stack.push(0xA1), locals: fr.locals }),
        d is Intern ==> eval_op(d, consts, fr) == Ok::<EvalModel, Error>(EvalModel { stack: fr.stack.push(0), locals: fr.locals }),
        (d is StrCmp || d is GetField) ==> (if fr.stack.len() == 0 {
            eval_op(d, consts, fr) is Err
        } else {
            eval_op(d, consts, fr) == Ok::<EvalModel, Error>(
                EvalModel { stack: fr.stack.drop_last().push(0), locals: fr.locals })
        }),
        d is StoreLocal && fr.stack.len() == 0 ==> eval_op(d, consts, fr) is Err,
        d is Unknown ==> eval_op(d, consts, fr) is Err,
        (d is Nop || d is Window || d is Call || d is Tail || d is Close || d is GetUp || d is SetUp || d is OpenUp)
            ==> eval_op(d, consts, fr) == Ok::<EvalModel, Error>(fr),
{
}

/// Straight-line evaluation from `pc` with at most `steps` more instructions: it stops at
/// the end of the code, at `RET` or `THROW`, after a jump out of the code, or when the steps
/// run out. Calls, upvalues and windows leave the frame as it is.
pub open spec fn eval_from(code: Seq<u8>, consts: Seq<i64>, fr: EvalModel, pc: nat, steps: nat) -> Result<EvalModel>
    decreases steps,
{
    if pc >= code.len() || steps == 0 {
        Ok(fr)
    } else {
        match spec_decode_at(code, pc as usize) {
            Err(e) => Err(e),
            Ok((d, len)) => match d {
                Decoded::Ret | Decoded::Throw => Ok(fr),
                Decoded::Sjmp(off) => {
                    let t = pc + len + off;
                    if t < 0 { Ok(fr) } else { eval_from(code, consts, fr, t as nat, (steps - 1) as nat) }
                },
                _ => match eval_op(d, consts, fr) {
                    Err(e) => Err(e),
                    Ok(fr2) => eval_from(code, consts, fr2, (pc + len) as nat, (steps - 1) as nat),
                },
            },
        }
    }
}

/// Runs the one-instruction evaluation of `d`.
fn exec_op(d: Decoded, consts: &Vec<i64>, frame: &mut EvalFrame) -> (r: Result<()>)
    requires
        !(d is Ret || d is Throw || d is Sjmp),
    ensures
        match eval_op(d, consts@, old(frame)@) {
            Ok(m) => r is Ok && final(frame)@ == m,
            Err(e) => r == Err::<(), Error>(e),
        },
{
    match d {
        Decoded::Push8(v) => frame.push(v as i64),
        Decoded::LoadK(i) => {
            if (i as usize) < consts.len() {
                frame.push(consts[i as usize]);
            } else {
                return Err(Error::VerifyFailed("const"));
            }
        },
        Decoded::LoadLocal(i) => {
            let v = if (i as usize) < frame.locals.len() { frame.locals[i as usize] } else { 0 };
            frame.push(v);
        },
        Decoded::StoreLocal(i) => {
            let v = match frame.pop() {
                Ok(v) => v,
                Err(e) => return Err(e),
            };
            if (i as usize) < frame.locals.len() {
                frame.locals.set(i as usize, v);
            }
        },
        Decoded::StrCmp | Decoded::GetField(_) => {
            match frame.pop() {
                Ok(_) => {},
                Err(e) => return Err(e),
            }
            frame.push(0);
        },
        Decoded::NewArr(_) => frame.push(0xA1),
        Decoded::Intern(_) => frame.push(0),
        Decoded::Unknown(_) => return Err(Error::VerifyFailed("unknown op")),
        _ => {},
    }
    Ok(())
}

/// How straight-line evaluation moves: it stops with the current frame at the end of the
/// code, when the step budget is spent, and at `ret` or `throw`; `sjmp` continues at
/// `pc + 2` plus its signed operand (stopping when that is negative); every other
/// instruction that decodes is applied with `eval_op` and evaluation continues after it,
/// one step fewer; an instruction that does not decode stops with the decoder's error.
pub proof fn law_eval_moves(code: Seq<u8>, consts: Seq<i64>, fr: EvalModel, pc: nat, steps: nat)
    requires
        pc <= usize::MAX,
        code.len() <= usize::MAX,
    ensures
        pc >= code.len() || steps == 0 ==> eval_from(code, consts, fr, pc, steps) == Ok::<EvalModel, Error>(fr),
        pc < code.len() && steps > 0 ==> ({
            let op = code[pc as int];
            &&& spec_decode_at(code, pc as usize) is Err ==> eval_from(code, consts, fr, pc, steps)
                == Err::<EvalModel, Error>(spec_decode_at(code, pc as usize)->Err_0)
            &&& spec_decode_at(code, pc as usize) is Ok && (op == crate::bytecode::RET || op == crate::bytecode::THROW)
                ==> eval_from(code, consts, fr, pc, steps) == Ok::<EvalModel, Error>(fr)
            &&& spec_decode_at(code, pc as usize) is Ok && op == crate::bytecode::SJMP ==> ({
                let b = code[pc + 1int];
                let t = pc + 2 + (if b < 128 { b as int } else { b as int - 256 });
                eval_from(code, consts, fr, pc, steps) == (if t < 0 { Ok::<EvalModel, Error>(fr) } else {
                    eval_from(code, consts, fr, t as nat, (steps - 1) as nat) })
            })
            &&& spec_decode_at(code, pc as usize) is Ok && op != crate::bytecode::RET && op != crate::bytecode::THROW
                && op != crate::bytecode::SJMP ==> {
                let d = decode::decoded_of(code, pc as int);
                let len = crate::bytecode::spec_instr_len(op)->Some_0;
                eval_from(code, consts, fr, pc, steps) == match eval_op(d, consts, fr) {
                    Err(e) => Err(e),
                    Ok(fr2) => eval_from(code, consts, fr2, pc + len, (steps - 1) as nat),
                }
            }
        }),
{
    if pc < code.len() && steps > 0 && code[pc as int] == crate::bytecode::SJMP && spec_decode_at(code, pc as usize) is Ok {
        let b = code[pc + 1int];
        assert((b as i8) as int == (if b < 128 { b as int } else { b as int - 256 })) by (bit_vector);
    }
}

/// Evaluates a function's code on a fresh frame (with `max_locals` zeroed locals) for at
/// most `max_steps` instructions.
pub fn eval_straight(f: &Function, max_steps: usize) -> (r: Result<EvalFrame>)
    ensures
        match eval_from(f.code@, f.consts@,
            EvalModel { stack: Seq::empty(), locals: Seq::new(f.max_locals as nat, |i: int| 0i64) }, 0, max_steps as nat) {
            Ok(m) => r matches Ok(fr) && fr@ == m,
            Err(e) => r matches Err(x) && x == e,
        },
{
    let mut frame = EvalFrame::new(f.max_locals as usize);
    let ghost start = frame@;
    assert(start.locals =~= Seq::new(f.max_locals as nat, |i: int| 0i64));
    assert(start == (EvalModel { stack: Seq::empty(), locals: Seq::new(f.max_locals as nat, |i: int| 0i64) }));
    let n = crate::bytes::byte_len(f.code.as_slice());
    let mut pc: usize = 0;
    let mut steps: usize = 0;
    while pc < n && steps < max_steps
        invariant
            n == f.code@.len(),
            n <= isize::MAX,
            steps <= max_steps,
            start == (EvalModel { stack: Seq::empty(), locals: Seq::new(f.max_locals as nat, |i: int| 0i64) }),
            eval_from(f.code@, f.consts@, frame@, pc as nat, (max_steps - steps) as nat)
                == eval_from(f.code@, f.consts@, start, 0, max_steps as nat),
        decreases max_steps - steps,
    {
        let (d, len) = match decode::decode_at(f.code.as_slice(), pc) {
            Ok(x) => x,
            Err(e) => return Err(e),
        };
        match d {
            Decoded::Ret | Decoded::Throw => {
                return Ok(frame);
            },
            Decoded::Sjmp(off) => {
                if off >= 0 {
                    pc = pc + len + off as usize;
                } else {
                    let back = (0 - (off as i16)) as usize;
                    if pc + len >= back {
                        pc = pc + len - back;
                    } else {
                        return Ok(frame);
                    }
                }
                steps += 1;
            },
            _ => {
                match exec_op(d, &f.consts, &mut frame) {
                    Ok(()) => {},
                    Err(e) => return Err(e),
                }
                pc += len;
                steps += 1;
            },
        }
    }
    Ok(frame)
}

/// Operand-stack depth before each instruction from `pc`, starting at `depth`; fails when the
/// code does not decode or the depth would go negative.
pub open spec fn trace_from(code: Seq<u8>, pc: nat, depth: int) -> Result<Seq<(usize, i32)>>
    decreases code.len() - pc,
{
    if pc >= code.len() {
        Ok(Seq::empty())
    } else {
        match spec_decode_at(code, pc as usize) {
            Err(e) => Err(e),
            Ok((d, len)) => {
                let nd = depth + spec_stack_delta_of(d);
                if nd < 0 {
                    Err(Error::VerifyFailed("neg depth"))
                } else if pc + len >= code.len() {
                    Ok(seq![(pc as usize, depth as i32)])
                } else {
                    match trace_from(code, (pc + len) as nat, nd) {
                        Err(e) => Err(e),
                        Ok(rest) => Ok(seq![(pc as usize, depth as i32)] + rest),
                    }
                }
            },
        }
    }
}

proof fn lemma_decode_len(code: Seq<u8>, pc: usize)
    ensures
        spec_decode_at(code, pc) matches Ok((d, len)) ==> 1 <= len <= 4 && pc + len <= code.len(),
{
}

/// Depth before each instruction.
pub fn stack_height_trace(f: &Function) -> (r: Result<Vec<(usize, i32)>>)
    requires
        f.code@.len() < 0x7fff_ffff,
    ensures
        match trace_from(f.code@, 0, 0) {
            Ok(t) => r matches Ok(v) && v@ == t,
            Err(e) => r matches Err(x) && x == e,
        },
{
    let mut depth: i32 = 0;
    let mut out: Vec<(usize, i32)> = Vec::new();
    let mut pc: usize = 0;
    let n = f.code.len();
    while pc < n
        invariant
            n == f.code@.len(),
            n < 0x7fff_ffff,
            pc <= n,
            0 <= depth <= pc,
            match trace_from(f.code@, 0, 0) {
                Ok(t) => trace_from(f.code@, pc as nat, depth as int) matches Ok(rest) && t == out@ + rest,
                Err(e) => trace_from(f.code@, pc as nat, depth as int) == Err::<Seq<(usize, i32)>, Error>(e),
            },
        decreases n - pc,
    {
        let (d, len) = match decode::decode_at(f.code.as_slice(), pc) {
            Ok(x) => x,
            Err(e) => return Err(e),
        };
        proof {
            lemma_decode_len(f.code@, pc);
        }
        let ghost before = out@;
        out.push((pc, depth));
        let nd = depth + decode::stack_delta_of(&d) as i32;
        if nd < 0 {
            return Err(Error::VerifyFailed("neg depth"));
        }
        proof {
            if let Ok(t) = trace_from(f.code@, 0, 0) {
                let rest = trace_from(f.code@, (pc + len) as nat, nd as int)->Ok_0;
                assert(t == before + (seq![(pc, depth)] + rest));
                assert(t =~= out@ + rest);
            }
        }
        depth = nd;
        pc += len;
    }
    proof {
        if let Ok(t) = trace_from(f.code@, 0, 0) {
            assert(t =~= out@);
        }
    }
    Ok(out)
}

/// Largest depth of a trace, zero for an empty one.
pub open spec fn max_depth(t: Seq<(usize, i32)>) -> i32
    decreases t.len(),
{
    if t.len() == 0 {
        0
    } else {
        let m = max_depth(t.drop_last());
        if t.len() == 1 || t.last().1 > m { t.last().1 } else { m }
    }
}

/// Largest operand-stack depth before any instruction.
pub fn max_stack_height(f: &Function) -> (r: Result<i32>)
    requires
        f.code@.len() < 0x7fff_ffff,
    ensures
        match trace_from(f.code@, 0, 0) {
            Ok(t) => r == Ok::<i32, Error>(max_depth(t)),
            Err(e) => r == Err::<i32, Error>(e),
        },
{
    let t = match stack_height_trace(f) {
        Ok(t) => t,
        Err(e) => return Err(e),
    };
    let mut m: i32 = 0;
    let mut i: usize = 0;
    assert(t@.subrange(0, 0) =~= Seq::<(usize, i32)>::empty());
    while i < t.len()
        invariant
            i <= t@.len(),
            m == max_depth(t@.subrange(0, i as int)),
        decreases t@.len() - i,
    {
        assert(t@.subrange(0, i + 1).drop_last() =~= t@.subrange(0, i as int));
        let d = t[i].1;
        if i == 0 || d > m {
            m = d;
        }
        i += 1;
    }
    assert(t@.subrange(0, i as int) =~= t@);
    Ok(m)
}

/// Whether an instruction ends the function.
pub open spec fn is_exit(d: Decoded) -> bool {
    d is Ret || d is Throw || d is Tail
}

/// Number of exits in a listing.
pub open spec fn count_exits(list: Seq<(usize, Decoded)>) -> nat
    decreases list.len(),
{
    if list.len() == 0 { 0 } else { count_exits(list.drop_last()) + if is_exit(list.last().1) { 1nat } else { 0nat } }
}

/// Number of `RET`, `THROW` and `TAIL` instructions.
pub fn count_returns(f: &Function) -> (r: Result<usize>)
    ensures
        match spec_decode_all(f.code@) {
            Ok(list) => r matches Ok(n) && n == count_exits(list),
            Err(e) => r == Err::<usize, Error>(e),
        },
{
    let list = match decode::decode_all(f.code.as_slice()) {
        Ok(v) => v,
        Err(e) => return Err(e),
    };
    let mut n: usize = 0;
    let mut i: usize = 0;
    assert(list@.subrange(0, 0) =~= Seq::<(usize, Decoded)>::empty());
    while i < list.len()
        invariant
            i <= list@.len(),
            n == count_exits(list@.subrange(0, i as int)),
            n <= i,
        decreases list@.len() - i,
    {
        assert(list@.subrange(0, i + 1).drop_last() =~= list@.subrange(0, i as int));
        match list[i].1 {
            Decoded::Ret | Decoded::Throw | Decoded::Tail(_) => n += 1,
            _ => {},
        }
        i += 1;
    }
    assert(list@.subrange(0, i as int) =~= list@);
    Ok(n)
}

/// Whether an instruction is a short jump backwards.
pub open spec fn is_back_jump(d: Decoded) -> bool {
    match d {
        Decoded::Sjmp(off) => off < -2,
        _ => false,
    }
}

/// Whether a listing has a backward short jump.
pub open spec fn has_backward_jump(list: Seq<(usize, Decoded)>) -> bool {
    exists|i: int| 0 <= i < list.len() && is_back_jump(#[trigger] list[i].1)
}

/// Whether the code has a backward short jump.
pub fn has_loops(f: &Function) -> (r: Result<bool>)
    ensures
        match spec_decode_all(f.code@) {
            Ok(list) => r == Ok::<bool, Error>(has_backward_jump(list)),
            Err(e) => r == Err::<bool, Error>(e),
        },
{
    let list = match decode::decode_all(f.code.as_slice()) {
        Ok(v) => v,
        Err(e) => return Err(e),
    };
    let mut i: usize = 0;
    while i < list.len()
        invariant
            i <= list@.len(),
            forall|j: int| 0 <= j < i ==> !is_back_jump(#[trigger] list@[j].1),
            spec_decode_all(f.code@) == Ok::<Seq<(usize, Decoded)>, Error>(list@),
        decreases list@.len() - i,
    {
        match list[i].1 {
            Decoded::Sjmp(off) => {
                if off < -2 {
                    assert(is_back_jump(list@[i as int].1));
                    assert(has_backward_jump(list@));
                    return Ok(true);
                }
            },
            _ => {},
        }
        i += 1;
    }
    Ok(false)
}

/// `NAME code=N max_stack=S returns=R loops=L`.
pub open spec fn function_summary(name: Seq<char>, len: nat, max_stack: i32, exits: nat, loops: bool) -> Seq<char> {
    name + " code="@ + dec_nat(len) + " max_stack="@ + dec_int(max_stack as int) + " returns="@ + dec_nat(exits)
        + " loops="@ + if loops { "true"@ } else { "false"@ }
}

/// One-line summary of a function.
pub fn summarize_function(f: &Function) -> (r: Result<String>)
    requires
        f.code@.len() < 0x7fff_ffff,
    ensures
        match (trace_from(f.code@, 0, 0), spec_decode_all(f.code@)) {
            (Err(e), _) => r == Err::<String, Error>(e),
            (Ok(t), Err(e)) => r == Err::<String, Error>(e),
            (Ok(t), Ok(list)) => r matches Ok(s) && s@ == function_summary(f.name@, f.code@.len(),
                max_depth(t), count_exits(list), has_backward_jump(list)),
        },
{
    let ms = match max_stack_height(f) {
        Ok(v) => v,
        Err(e) => return Err(e),
    };
    let rets = match count_returns(f) {
        Ok(v) => v,
        Err(e) => return Err(e),
    };
    let loops = match has_loops(f) {
        Ok(v) => v,
        Err(e) => return Err(e),
    };
    let mut out = String::new();
    out.append(f.name.as_str());
    out.append(" code=");
    push_dec(&mut out, f.code.len() as u64);
    out.append(" max_stack=");
    push_int(&mut out, ms as i64);
    out.append(" returns=");
    push_dec(&mut out, rets as u64);
    out.append(" loops=");
    out.append(if loops { "true" } else { "false" });
    Ok(out)
}

} // verus!
