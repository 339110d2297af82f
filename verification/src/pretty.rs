//! Human-readable rendering of functions, modules and heap objects.
use vstd::prelude::*;
use crate::disasm;
use crate::disasm::{bytes_hex, push_bytes_hex, render_text};
use crate::module::{FnModel, Function, Module};
use crate::text::{dec_nat, push_dec};
use crate::value::Obj;

verus! {

/// A header with the function's shape, then its listing.
pub open spec fn function_text(f: FnModel) -> Seq<char> {
    "fn "@ + f.name + " // max_locals="@ + dec_nat(f.max_locals as nat) + " frame_size="@ + dec_nat(
        f.frame_size as nat,
    ) + " consts="@ + dec_nat(f.consts.len()) + " strings="@ + dec_nat(f.strings.len()) + " upvalues="@
        + dec_nat(f.upvalues.len()) + "\n"@ + render_text(f)
}

/// The renderings of `fs`, separated by newlines.
pub open spec fn module_text(fs: Seq<FnModel>) -> Seq<char>
    decreases fs.len(),
{
    if fs.len() == 0 {
        Seq::empty()
    } else if fs.len() == 1 {
        function_text(fs[0])
    } else {
        module_text(fs.drop_last()) + "\n"@ + function_text(fs.last())
    }
}

/// `Obj{kind=<k>, mark=<m>}`.
pub open spec fn obj_text(o: Obj) -> Seq<char> {
    "Obj{kind="@ + dec_nat(o.kind as nat) + ", mark="@ + dec_nat(o.mark as nat) + "}"@
}

/// The first `max` bytes in hex, with ` ...` when some were left out.
pub open spec fn preview_text(bytes: Seq<u8>, max: nat) -> Seq<char> {
    let n = if bytes.len() < max { bytes.len() } else { max };
    bytes_hex(bytes.subrange(0, n as int)) + if bytes.len() > max { " ..."@ } else { Seq::empty() }
}

/// The function's shape (locals, frame, constant, string and upvalue counts), then its listing.
pub fn function(f: &Function) -> (r: String)
    ensures
        r@ == function_text(f@),
{
    let mut s = String::new();
    s.append("fn ");
    s.append(f.name.as_str());
    s.append(" // max_locals=");
    push_dec(&mut s, f.max_locals as u64);
    s.append(" frame_size=");
    push_dec(&mut s, f.frame_size as u64);
    s.append(" consts=");
    push_dec(&mut s, f.consts.len() as u64);
    s.append(" strings=");
    push_dec(&mut s, f.string_pool.len() as u64);
    s.append(" upvalues=");
    push_dec(&mut s, f.upvalues.len() as u64);
    s.append("\n");
    let body = disasm::render(f);
    s.append(body.as_str());
    s
}

/// Every function rendered, separated by newlines.
pub fn module(m: &Module) -> (r: String)
    ensures
        r@ == module_text(m@),
{
    proof {
        reveal_strlit("\n");
    }
    let mut s = String::new();
    let mut i: usize = 0;
    assert(m@.subrange(0, 0) =~= Seq::<FnModel>::empty());
    while i < m.functions.len()
        invariant
            i <= m@.len(),
            m@.len() == m.functions@.len(),
            s@ == module_text(m@.subrange(0, i as int)),
        decreases m@.len() - i,
    {
        assert(m@.subrange(0, i + 1).drop_last() =~= m@.subrange(0, i as int));
        assert(m@[i as int] == m.functions@[i as int]@);
        if i > 0 {
            s.append("\n");
        }
        let part = function(&m.functions[i]);
        s.append(part.as_str());
        proof {
            if i == 0 {
                assert(m@.subrange(0, 1) =~= seq![m@[0]]);
            }
        }
        i += 1;
        assert(s@ =~= module_text(m@.subrange(0, i as int)));
    }
    assert(m@.subrange(0, i as int) =~= m@);
    s
}

/// `Obj{kind=<k>, mark=<m>}`.
pub fn obj(o: &Obj) -> (r: String)
    ensures
        r@ == obj_text(*o),
{
    let mut s = String::new();
    s.append("Obj{kind=");
    push_dec(&mut s, o.kind as u64);
    s.append(", mark=");
    push_dec(&mut s, o.mark as u64);
    s.append("}");
    s
}

/// The first `max` bytes as space-separated hex, with ` ...` when the input is longer.
pub fn hex_preview(bytes: &[u8], max: usize) -> (r: String)
    ensures
        r@ == preview_text(bytes@, max as nat),
{
    let n = if bytes.len() < max { bytes.len() } else { max };
    let mut s = String::new();
    push_bytes_hex(&mut s, &bytes[0..n]);
    if bytes.len() > max {
        s.append(" ...");
    }
    assert(s@ =~= preview_text(bytes@, max as nat));
    s
}

} // verus!
