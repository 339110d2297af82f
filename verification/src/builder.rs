//! Building functions instruction by instruction, with labelled short jumps.
use vstd::prelude::*;
use crate::bytecode;
use crate::module::{Function, Module, FnModel};
use crate::text::str_eq;

verus! {

broadcast use vstd::string::group_string_axioms;

#[derive(Clone, Debug, Default)]
pub struct ProgramBuilder {
    code: Vec<u8>,
    consts: Vec<i64>,
    strings: Vec<String>,
    max_locals: u16,
    frame_size: u32,
    name: String,
    labels: Vec<(String, usize)>,
    fixups: Vec<(usize, String)>,
}

/// Builder state.
pub struct BuilderModel {
    pub code: Seq<u8>,
    pub consts: Seq<i64>,
    pub strings: Seq<Seq<char>>,
    pub max_locals: u16,
    pub frame_size: u32,
    pub name: Seq<char>,
    pub labels: Seq<(Seq<char>, usize)>,
    pub fixups: Seq<(usize, Seq<char>)>,
}

impl View for ProgramBuilder {
    type V = BuilderModel;

    closed spec fn view(&self) -> BuilderModel {
        BuilderModel {
            code: self.code@,
            consts: self.consts@,
            strings: self.strings@.map_values(|s: String| s@),
            max_locals: self.max_locals,
            frame_size: self.frame_size,
            name: self.name@,
            labels: self.labels@.map_values(|p: (String, usize)| (p.0@, p.1)),
            fixups: self.fixups@.map_values(|p: (usize, String)| (p.0, p.1@)),
        }
    }
}

/// The state with `bytes` appended to the code.
pub open spec fn emitted(m: BuilderModel, bytes: Seq<u8>) -> BuilderModel {
    BuilderModel { code: m.code + bytes, ..m }
}

/// Little-endian bytes of a 16-bit operand.
pub open spec fn u16_le(v: u16) -> Seq<u8> {
    seq![(v % 256) as u8, (v / 256) as u8]
}

/// First index at or after `i` where `s` holds `v`.
pub open spec fn first_index<T>(s: Seq<T>, v: T, i: nat) -> Option<nat>
    decreases s.len() - i,
{
    if i >= s.len() {
        None
    } else if s[i as int] == v {
        Some(i)
    } else {
        first_index(s, v, i + 1)
    }
}

/// Offset of the first definition of a label at or after `i`.
pub open spec fn first_label(labels: Seq<(Seq<char>, usize)>, name: Seq<char>, i: nat) -> Option<usize>
    decreases labels.len() - i,
{
    if i >= labels.len() {
        None
    } else if labels[i as int].0 == name {
        Some(labels[i as int].1)
    } else {
        first_label(labels, name, i + 1)
    }
}

/// Code after patching the first `fixups` with their labels' distances.
pub open spec fn patched(code: Seq<u8>, labels: Seq<(Seq<char>, usize)>, fixups: Seq<(usize, Seq<char>)>) -> Result<Seq<u8>, &'static str>
    decreases fixups.len(),
{
    if fixups.len() == 0 {
        Ok(code)
    } else {
        match patched(code, labels, fixups.drop_last()) {
            Err(e) => Err(e),
            Ok(c) => {
                let (at, lab) = fixups.last();
                match first_label(labels, lab, 0) {
                    None => Err("missing label"),
                    Some(t) => {
                        let rel = t - (at + 1);
                        if rel < -128 || rel > 127 { Err("jump too far") } else { Ok(c.update(at as int, (rel as i8) as u8)) }
                    },
                }
            },
        }
    }
}

/// The function a builder state finishes into.
pub open spec fn finished(m: BuilderModel) -> Result<FnModel, &'static str> {
    match patched(m.code, m.labels, m.fixups) {
        Err(e) => Err(e),
        Ok(code) => Ok(FnModel {
            code,
            max_locals: m.max_locals,
            frame_size: m.frame_size,
            consts: m.consts,
            strings: m.strings,
            upvalues: Seq::empty(),
            name: m.name,
        }),
    }
}

impl ProgramBuilder {
    /// Every recorded jump operand lies within the code.
    pub closed spec fn wf(&self) -> bool {
        forall|i: int| 0 <= i < self.fixups@.len() ==> (#[trigger] self.fixups@[i]).0 < self.code@.len()
    }

    /// A builder for a function named `name` with 8 locals and a 16-slot frame.
    pub fn new(name: &str) -> (r: Self)
        ensures
            r.wf(),
            r@ == (BuilderModel {
                code: Seq::empty(),
                consts: Seq::empty(),
                strings: Seq::empty(),
                max_locals: 8,
                frame_size: 16,
                name: name@,
                labels: Seq::empty(),
                fixups: Seq::empty(),
            }),
    {
        let r = ProgramBuilder {
            code: Vec::new(),
            consts: Vec::new(),
            strings: Vec::new(),
            max_locals: 8,
            frame_size: 16,
            name: String::from_str(name),
            labels: Vec::new(),
            fixups: Vec::new(),
        };
        assert(r@.strings =~= Seq::<Seq<char>>::empty());
        assert(r@.labels =~= Seq::<(Seq<char>, usize)>::empty());
        assert(r@.fixups =~= Seq::<(usize, Seq<char>)>::empty());
        r
    }

    pub fn locals(self, n: u16) -> (r: Self)
        requires
            self.wf(),
        ensures
            r.wf(),
            r@ == (BuilderModel { max_locals: n, ..self@ }),
    {
        let mut b = self;
        b.max_locals = n;
        b
    }

    pub fn frame(self, n: u32) -> (r: Self)
        requires
            self.wf(),
        ensures
            r.wf(),
            r@ == (BuilderModel { frame_size: n, ..self@ }),
    {
        let mut b = self;
        b.frame_size = n;
        b
    }

    /// Defines `name` at the current code offset.
    pub fn label(&mut self, name: &str)
        requires
            old(self).wf(),
        ensures
            final(self).wf(),
            final(self)@ == (BuilderModel { labels: old(self)@.labels.push((name@, old(self)@.code.len() as usize)), ..old(self)@ }),
    {
        let at = self.code.len();
        self.labels.push((String::from_str(name), at));
        assert(self@.labels =~= old(self)@.labels.push((name@, at)));
    }

    /// Appends one byte.
    fn emit_op(&mut self, op: u8)
        requires
            old(self).wf(),
        ensures
            final(self).wf(),
            final(self)@ == emitted(old(self)@, seq![op]),
    {
        self.code.push(op);
        assert(self.code@ =~= old(self).code@ + seq![op]);
        assert(self@ =~= emitted(old(self)@, seq![op]));
    }

    /// Appends raw bytes.
    fn emit(&mut self, bytes: Vec<u8>)
        requires
            old(self).wf(),
        ensures
            final(self).wf(),
            final(self)@ == emitted(old(self)@, bytes@),
    {
        let ghost c0 = self.code@;
        let mut i: usize = 0;
        while i < bytes.len()
            invariant
                i <= bytes@.len(),
                self.code@ == c0 + bytes@.subrange(0, i as int),
                c0 == old(self).code@,
                self.consts == old(self).consts,
                self.strings == old(self).strings,
                self.max_locals == old(self).max_locals,
                self.frame_size == old(self).frame_size,
                self.name == old(self).name,
                self.labels == old(self).labels,
                self.fixups == old(self).fixups,
                old(self).wf(),
            decreases bytes@.len() - i,
        {
            self.code.push(bytes[i]);
            i += 1;
            assert(self.code@ =~= c0 + bytes@.subrange(0, i as int));
        }
        assert(bytes@.subrange(0, bytes@.len() as int) =~= bytes@);
        assert(self@ =~= emitted(old(self)@, bytes@));
    }

    pub fn nop(&mut self)
        requires old(self).wf(),
        ensures final(self).wf(), final(self)@ == emitted(old(self)@, seq![bytecode::NOP]),
    {
        self.emit_op(bytecode::NOP);
    }

    pub fn ret(&mut self)
        requires old(self).wf(),
        ensures final(self).wf(), final(self)@ == emitted(old(self)@, seq![bytecode::RET]),
    {
        self.emit_op(bytecode::RET);
    }

    pub fn throw(&mut self)
        requires old(self).wf(),
        ensures final(self).wf(), final(self)@ == emitted(old(self)@, seq![bytecode::THROW]),
    {
        self.emit_op(bytecode::THROW);
    }

    pub fn push8(&mut self, v: i8)
        requires old(self).wf(),
        ensures final(self).wf(), final(self)@ == emitted(old(self)@, seq![bytecode::PUSH8, v as u8]),
    {
        self.emit(vec![bytecode::PUSH8, v as u8]);
    }

    pub fn window(&mut self, delta: i8)
        requires old(self).wf(),
        ensures final(self).wf(), final(self)@ == emitted(old(self)@, seq![bytecode::WINDOW, delta as u8]),
    {
        self.emit(vec![bytecode::WINDOW, delta as u8]);
    }

    /// A short jump to `label`, patched by `finish`.
    pub fn sjmp_label(&mut self, label: &str)
        requires
            old(self).wf(),
        ensures
            final(self).wf(),
            final(self)@ == (BuilderModel {
                code: old(self)@.code + seq![bytecode::SJMP, 0u8],
                fixups: old(self)@.fixups.push(((old(self)@.code.len() + 1) as usize, label@)),
                ..old(self)@
            }),
    {
        let n = crate::bytes::byte_len(self.code.as_slice());
        self.emit(vec![bytecode::SJMP, 0u8]);
        let ghost f0 = self@.fixups;
        self.fixups.push((n + 1, String::from_str(label)));
        assert(self@.fixups =~= f0.push(((n + 1) as usize, label@)));
    }

    pub fn loadk(&mut self, v: i64)
        requires
            old(self).wf(),
        ensures
            final(self).wf(),
            ({
                let (m, idx) = with_const(old(self)@, v);
                final(self)@ == emitted(m, seq![bytecode::LOADK] + u16_le(idx))
            }),
    {
        let idx = self.intern_const(v);
        let bytes = vec![bytecode::LOADK, (idx % 256) as u8, (idx / 256) as u8];
        assert(bytes@ =~= seq![bytecode::LOADK] + u16_le(idx));
        self.emit(bytes);
    }

    pub fn loadlocal(&mut self, slot: u16)
        requires old(self).wf(),
        ensures final(self).wf(), final(self)@ == emitted(old(self)@, seq![bytecode::LOADLOCAL] + u16_le(slot)),
    {
        let bytes = vec![bytecode::LOADLOCAL, (slot % 256) as u8, (slot / 256) as u8];
        assert(bytes@ =~= seq![bytecode::LOADLOCAL] + u16_le(slot));
        self.emit(bytes);
    }

    pub fn storelocal(&mut self, slot: u16)
        requires old(self).wf(),
        ensures final(self).wf(), final(self)@ == emitted(old(self)@, seq![bytecode::STORELOCAL] + u16_le(slot)),
    {
        let bytes = vec![bytecode::STORELOCAL, (slot % 256) as u8, (slot / 256) as u8];
        assert(bytes@ =~= seq![bytecode::STORELOCAL] + u16_le(slot));
        self.emit(bytes);
    }

    pub fn intern_str(&mut self, s: &str)
        requires
            old(self).wf(),
        ensures
            final(self).wf(),
            ({
                let (m, idx) = with_string(old(self)@, s@);
                final(self)@ == emitted(m, seq![bytecode::INTERN] + u16_le(idx))
            }),
    {
        let idx = self.intern_string(s);
        let bytes = vec![bytecode::INTERN, (idx % 256) as u8, (idx / 256) as u8];
        assert(bytes@ =~= seq![bytecode::INTERN] + u16_le(idx));
        self.emit(bytes);
    }

    pub fn strcmp(&mut self)
        requires old(self).wf(),
        ensures final(self).wf(), final(self)@ == emitted(old(self)@, seq![bytecode::STRCMP]),
    {
        self.emit_op(bytecode::STRCMP);
    }

    pub fn call(&mut self, idx: u16)
        requires old(self).wf(),
        ensures final(self).wf(), final(self)@ == emitted(old(self)@, seq![bytecode::CALL] + u16_le(idx)),
    {
        let bytes = vec![bytecode::CALL, (idx % 256) as u8, (idx / 256) as u8];
        assert(bytes@ =~= seq![bytecode::CALL] + u16_le(idx));
        self.emit(bytes);
    }

    pub fn tail(&mut self, idx: u16)
        requires old(self).wf(),
        ensures final(self).wf(), final(self)@ == emitted(old(self)@, seq![bytecode::TAIL] + u16_le(idx)),
    {
        let bytes = vec![bytecode::TAIL, (idx % 256) as u8, (idx / 256) as u8];
        assert(bytes@ =~= seq![bytecode::TAIL] + u16_le(idx));
        self.emit(bytes);
    }

    pub fn close(&mut self, start: u8)
        requires old(self).wf(),
        ensures final(self).wf(), final(self)@ == emitted(old(self)@, seq![bytecode::CLOSE, start]),
    {
        self.emit(vec![bytecode::CLOSE, start]);
    }

    pub fn openupval(&mut self, slot: u8)
        requires old(self).wf(),
        ensures final(self).wf(), final(self)@ == emitted(old(self)@, seq![bytecode::OPENUPVAL, slot]),
    {
        self.emit(vec![bytecode::OPENUPVAL, slot]);
    }

    pub fn getupval(&mut self, idx: u8)
        requires old(self).wf(),
        ensures final(self).wf(), final(self)@ == emitted(old(self)@, seq![bytecode::GETUPVAL, idx]),
    {
        self.emit(vec![bytecode::GETUPVAL, idx]);
    }

    pub fn setupval(&mut self, idx: u8)
        requires old(self).wf(),
        ensures final(self).wf(), final(self)@ == emitted(old(self)@, seq![bytecode::SETUPVAL, idx]),
    {
        self.emit(vec![bytecode::SETUPVAL, idx]);
    }

    pub fn newarr(&mut self)
        requires old(self).wf(),
        ensures final(self).wf(), final(self)@ == emitted(old(self)@, seq![bytecode::NEWARR, 0u8, 0u8, 0u8]),
    {
        self.emit(vec![bytecode::NEWARR, 0u8, 0u8, 0u8]);
    }

    /// A field load whose 24-bit operand is the low bytes of `bits`.
    pub fn getfield(&mut self, bits: u32)
        requires
            old(self).wf(),
        ensures
            final(self).wf(),
            final(self)@ == emitted(old(self)@, seq![bytecode::GETFIELD, (bits & 0xff) as u8,
                ((bits >> 8u32) & 0xff) as u8, ((bits >> 16u32) & 0xff) as u8]),
    {
        self.emit(vec![bytecode::GETFIELD, (bits & 0xff) as u8, ((bits >> 8u32) & 0xff) as u8,
            ((bits >> 16u32) & 0xff) as u8]);
    }

    fn intern_const(&mut self, v: i64) -> (r: u16)
        requires
            old(self).wf(),
        ensures
            final(self).wf(),
            (final(self)@, r) == with_const(old(self)@, v),
    {
        let mut i: usize = 0;
        while i < self.consts.len()
            invariant
                i <= self.consts@.len(),
                *self == *old(self),
                self.wf(),
                first_index(self.consts@, v, i as nat) == first_index(self.consts@, v, 0),
            decreases self.consts@.len() - i,
        {
            if self.consts[i] == v {
                return i as u16;
            }
            i += 1;
        }
        let n = self.consts.len();
        self.consts.push(v);
        n as u16
    }

    fn intern_string(&mut self, s: &str) -> (r: u16)
        requires
            old(self).wf(),
        ensures
            final(self).wf(),
            (final(self)@, r) == with_string(old(self)@, s@),
    {
        let ghost strs = self@.strings;
        let mut i: usize = 0;
        while i < self.strings.len()
            invariant
                i <= self.strings@.len(),
                *self == *old(self),
                self.wf(),
                strs == self@.strings,
                first_index(strs, s@, i as nat) == first_index(strs, s@, 0),
            decreases self.strings@.len() - i,
        {
            if str_eq(self.strings[i].as_str(), s) {
                return i as u16;
            }
            i += 1;
        }
        let n = self.strings.len();
        self.strings.push(String::from_str(s));
        assert(self@.strings =~= strs.push(s@));
        n as u16
    }

    /// Patches the jumps and returns the function; fails on a missing label or a jump out of
    /// `i8` range.
    pub fn finish(self) -> (r: Result<Function, &'static str>)
        requires
            self.wf(),
        ensures
            match finished(self@) {
                Ok(f) => r matches Ok(func) && func@ == f,
                Err(e) => r == Err::<Function, &'static str>(e),
            },
    {
        let ghost m0 = self@;
        let ProgramBuilder { code, consts, strings, max_locals, frame_size, name, labels, fixups } = self;
        let mut code = code;
        match patch_code(&mut code, &labels, &fixups, Ghost(m0.labels), Ghost(m0.fixups)) {
            Ok(()) => {},
            Err(e) => return Err(e),
        }
        let f = Function { code, max_locals, frame_size, consts, string_pool: strings, upvalues: Vec::new(), name };
        assert(f@.upvalues =~= Seq::<(bool, u16)>::empty());
        Ok(f)
    }

    pub fn finish_module(self) -> (r: Result<Module, &'static str>)
        requires
            self.wf(),
        ensures
            match finished(self@) {
                Ok(f) => r matches Ok(m) && m@ == seq![f],
                Err(e) => r == Err::<Module, &'static str>(e),
            },
    {
        match self.finish() {
            Ok(f) => {
                let functions = vec![f];
                let m = Module { functions };
                assert(m@ =~= seq![f@]);
                Ok(m)
            },
            Err(e) => Err(e),
        }
    }

    pub fn code_len(&self) -> (r: usize)
        ensures
            r == self@.code.len(),
    {
        self.code.len()
    }

    pub fn peek_code(&self) -> (r: &[u8])
        ensures
            r@ == self@.code,
    {
        self.code.as_slice()
    }
}

/// Patches each jump operand with the distance to its label.
fn patch_code(code: &mut Vec<u8>, labels: &Vec<(String, usize)>, fixups: &Vec<(usize, String)>,
    Ghost(lv): Ghost<Seq<(Seq<char>, usize)>>, Ghost(fv): Ghost<Seq<(usize, Seq<char>)>>) -> (r: Result<(), &'static str>)
    requires
        lv == labels@.map_values(|p: (String, usize)| (p.0@, p.1)),
        fv == fixups@.map_values(|p: (usize, String)| (p.0, p.1@)),
        forall|i: int| 0 <= i < fixups@.len() ==> (#[trigger] fixups@[i]).0 < old(code)@.len(),
    ensures
        match patched(old(code)@, lv, fv) {
            Ok(c) => r is Ok && final(code)@ == c,
            Err(e) => r == Err::<(), &'static str>(e),
        },
{
    let ghost c0 = code@;
    let mut k: usize = 0;
    assert(fv.subrange(0, 0) =~= Seq::<(usize, Seq<char>)>::empty());
    while k < fixups.len()
        invariant
            k <= fixups@.len(),
            fv == fixups@.map_values(|p: (usize, String)| (p.0, p.1@)),
            lv == labels@.map_values(|p: (String, usize)| (p.0@, p.1)),
            c0 == old(code)@,
            code@.len() == c0.len(),
            forall|i: int| 0 <= i < fixups@.len() ==> (#[trigger] fixups@[i]).0 < c0.len(),
            patched(c0, lv, fv.subrange(0, k as int)) == Ok::<Seq<u8>, &'static str>(code@),
        decreases fixups@.len() - k,
    {
        assert(fv.subrange(0, k + 1).drop_last() =~= fv.subrange(0, k as int));
        assert(fv.subrange(0, k + 1).last() == fv[k as int]);
        let at = fixups[k].0;
        let target = match find_label(labels, fixups[k].1.as_str(), Ghost(lv)) {
            Some(t) => t,
            None => {
                proof { lemma_patched_stop(c0, lv, fv, k + 1); }
                return Err("missing label");
            },
        };
        let rel: i128 = target as i128 - (at as i128 + 1);
        if rel < -128 || rel > 127 {
            proof { lemma_patched_stop(c0, lv, fv, k + 1); }
            return Err("jump too far");
        }
        code.set(at, (rel as i8) as u8);
        k += 1;
    }
    assert(fv.subrange(0, k as int) =~= fv);
    Ok(())
}

/// Offset of the first label named `name`.
fn find_label(labels: &Vec<(String, usize)>, name: &str, Ghost(lv): Ghost<Seq<(Seq<char>, usize)>>) -> (r: Option<usize>)
    requires
        lv == labels@.map_values(|p: (String, usize)| (p.0@, p.1)),
    ensures
        r == first_label(lv, name@, 0),
{
    let mut i: usize = 0;
    while i < labels.len()
        invariant
            i <= labels@.len(),
            lv == labels@.map_values(|p: (String, usize)| (p.0@, p.1)),
            first_label(lv, name@, i as nat) == first_label(lv, name@, 0),
        decreases labels@.len() - i,
    {
        if str_eq(labels[i].0.as_str(), name) {
            return Some(labels[i].1);
        }
        i += 1;
    }
    None
}

proof fn lemma_patched_stop(code: Seq<u8>, labels: Seq<(Seq<char>, usize)>, fx: Seq<(usize, Seq<char>)>, k: int)
    requires
        0 <= k <= fx.len(),
        patched(code, labels, fx.subrange(0, k)) is Err,
    ensures
        patched(code, labels, fx) == patched(code, labels, fx.subrange(0, k)),
    decreases fx.len(),
{
    if k < fx.len() {
        assert(fx.drop_last().subrange(0, k) =~= fx.subrange(0, k));
        lemma_patched_stop(code, labels, fx.drop_last(), k);
    } else {
        assert(fx.subrange(0, k) =~= fx);
    }
}

/// Index of a constant, adding it when new.
pub open spec fn with_const(m: BuilderModel, v: i64) -> (BuilderModel, u16) {
    match first_index(m.consts, v, 0) {
        Some(i) => (m, i as u16),
        None => (BuilderModel { consts: m.consts.push(v), ..m }, m.consts.len() as u16),
    }
}

/// Index of a string, adding it when new.
pub open spec fn with_string(m: BuilderModel, s: Seq<char>) -> (BuilderModel, u16) {
    match first_index(m.strings, s, 0) {
        Some(i) => (m, i as u16),
        None => (BuilderModel { strings: m.strings.push(s), ..m }, m.strings.len() as u16),
    }
}

/// The function `push8 1; ret`, named `main`, with 4 locals and a 16-slot frame.
pub open spec fn hello_fn() -> FnModel {
    FnModel {
        code: seq![bytecode::PUSH8, 1u8, bytecode::RET],
        max_locals: 4,
        frame_size: 16,
        consts: Seq::empty(),
        strings: Seq::empty(),
        upvalues: Seq::empty(),
        name: "main"@,
    }
}

/// A module holding `hello_fn`.
pub fn hello_module() -> (r: Module)
    ensures
        r@ == seq![hello_fn()],
{
    let mut b = ProgramBuilder::new("main").locals(4).frame(16);
    b.push8(1);
    b.ret();
    proof {
        assert(b@.code =~= seq![bytecode::PUSH8, 1u8, bytecode::RET]);
        assert(b@.fixups.len() == 0);
    }
    match b.finish_module() {
        Ok(m) => m,
        Err(_) => Module { functions: Vec::new() },
    }
}

/// Code of the countdown skeleton for a start value `n`.
pub open spec fn countdown_code(n: i8) -> Seq<u8> {
    seq![
        bytecode::PUSH8, n as u8,
        bytecode::STORELOCAL, 0u8, 0u8,
        bytecode::LOADLOCAL, 0u8, 0u8,
        bytecode::PUSH8, 0u8,
        bytecode::WINDOW, 0u8,
        bytecode::LOADLOCAL, 0u8, 0u8,
        bytecode::PUSH8, 1u8,
        bytecode::STORELOCAL, 0u8, 0u8,
        bytecode::SJMP, 2u8,
        bytecode::SJMP, 237u8,
        bytecode::RET
    ]
}

/// A loop skeleton counting a local down from `n`: its jumps go to the end and back to
/// the loop head.
pub fn countdown_module(n: i8) -> (r: Module)
    ensures
        r@ == seq![FnModel { code: countdown_code(n), ..hello_fn() }],
{
    let mut b = ProgramBuilder::new("main").locals(4).frame(16);
    b.push8(n);
    b.storelocal(0);
    b.label("loop");
    b.loadlocal(0);
    b.push8(0);
    b.window(0);
    b.loadlocal(0);
    b.push8(1);
    b.storelocal(0);
    b.sjmp_label("done");
    b.sjmp_label("loop");
    b.label("done");
    b.ret();
    proof {
        reveal_strlit("loop");
        reveal_strlit("done");
        let m = b@;
        assert(m.labels =~= seq![("loop"@, 5usize), ("done"@, 24usize)]);
        assert(m.fixups =~= seq![(21usize, "done"@), (23usize, "loop"@)]);
        assert("done"@[0] != "loop"@[0]);
        assert("done"@ != "loop"@);
        assert(first_label(m.labels, "done"@, 2) == None::<usize>);
        assert(first_label(m.labels, "done"@, 1) == Some(24usize));
        assert(first_label(m.labels, "done"@, 0) == Some(24usize));
        assert(first_label(m.labels, "loop"@, 0) == Some(5usize));
        assert(m.fixups.drop_last() =~= seq![(21usize, "done"@)]);
        assert(m.fixups.drop_last().drop_last() =~= Seq::<(usize, Seq<char>)>::empty());
        assert(((-19i8) as u8) == 237u8) by (bit_vector);
        assert(((2i8) as u8) == 2u8) by (bit_vector);
        assert(patched(m.code, m.labels, Seq::<(usize, Seq<char>)>::empty()) == Ok::<Seq<u8>, &'static str>(m.code));
        let c1 = m.code.update(21, 2u8);
        assert(patched(m.code, m.labels, m.fixups.drop_last()) == Ok::<Seq<u8>, &'static str>(c1));
        assert(c1.update(23, 237u8) =~= countdown_code(n));
        assert(patched(m.code, m.labels, m.fixups) == Ok::<Seq<u8>, &'static str>(countdown_code(n)));
    }
    match b.finish_module() {
        Ok(m) => m,
        Err(_) => hello_module(),
    }
}

} // verus!
