//! Normalized code (without `nop`s) and a module hash over it.
use vstd::prelude::*;
use crate::module::{FnModel, Module};
use crate::optimize::peephole;
use crate::optimize::peephole::stripped;
use crate::text::{hex, push_hex};

verus! {

/// `h` rotated left by `r` bits (`0 < r < 64`).
pub open spec fn rotl64(h: u64, r: u64) -> u64 {
    (h << r) | (h >> ((64 - r) as u64))
}

/// One hash step over a byte: xor it in, multiply by the mixing constant.
pub open spec fn byte_step(h: u64, b: u8) -> u64 {
    (h ^ (b as u64)).wrapping_mul(0xbf58476d1ce4e5b9)
}

/// The hash state after every byte of `bytes`.
pub open spec fn hash_bytes(h: u64, bytes: Seq<u8>) -> u64
    decreases bytes.len(),
{
    if bytes.len() == 0 {
        h
    } else {
        byte_step(hash_bytes(h, bytes.drop_last()), bytes.last())
    }
}

/// The hash state after one function: its normalized code, then its frame size, then a rotation.
pub open spec fn function_step(h: u64, f: FnModel) -> u64 {
    rotl64(hash_bytes(h, stripped(f.code)) ^ (f.frame_size as u64), 7)
}

/// The hash state after every function of `fs`.
pub open spec fn module_hash(fs: Seq<FnModel>) -> u64
    decreases fs.len(),
{
    if fs.len() == 0 {
        0x9e3779b97f4a7c15
    } else {
        function_step(module_hash(fs.drop_last()), fs.last())
    }
}

/// The module hash sees only each function's code without its `nop` instructions and its
/// frame size: modules that agree on those, function by function, hash alike (so adding or
/// removing `nop`s never changes the hash).
pub proof fn law_hash_ignores_nops(a: Seq<FnModel>, b: Seq<FnModel>)
    requires
        a.len() == b.len(),
        forall|i: int| 0 <= i < a.len() ==> stripped((#[trigger] a[i]).code) == stripped(b[i].code)
            && a[i].frame_size == b[i].frame_size,
    ensures
        module_hash(a) == module_hash(b),
    decreases a.len(),
{
    if a.len() > 0 {
        law_hash_ignores_nops(a.drop_last(), b.drop_last());
        assert(a.last() == a[a.len() - 1] && b.last() == b[b.len() - 1]);
    }
}

/// The code with its `nop` instructions removed.
pub fn normalized_code(code: &[u8]) -> (r: Vec<u8>)
    ensures
        r@ == stripped(code@),
{
    peephole::strip_nops(code).0
}

/// A hash of every function's normalized code and frame size.
pub fn normalized_hash(m: &Module) -> (r: u64)
    ensures
        r == module_hash(m@),
{
    let mut h: u64 = 0x9e3779b97f4a7c15;
    let mut fi: usize = 0;
    assert(m@.subrange(0, 0) =~= Seq::<FnModel>::empty());
    while fi < m.functions.len()
        invariant
            fi <= m@.len(),
            m@.len() == m.functions@.len(),
            h == module_hash(m@.subrange(0, fi as int)),
        decreases m@.len() - fi,
    {
        let f = &m.functions[fi];
        assert(m@[fi as int] == f@);
        assert(m@.subrange(0, fi + 1).drop_last() =~= m@.subrange(0, fi as int));
        let code = normalized_code(f.code.as_slice());
        let ghost h0 = h;
        let mut k: usize = 0;
        assert(code@.subrange(0, 0) =~= Seq::<u8>::empty());
        while k < code.len()
            invariant
                k <= code@.len(),
                h == hash_bytes(h0, code@.subrange(0, k as int)),
            decreases code@.len() - k,
        {
            assert(code@.subrange(0, k + 1).drop_last() =~= code@.subrange(0, k as int));
            h = h ^ (code[k] as u64);
            h = h.wrapping_mul(0xbf58476d1ce4e5b9);
            k += 1;
        }
        assert(code@.subrange(0, k as int) =~= code@);
        h = h ^ (f.frame_size as u64);
        h = (h << 7u64) | (h >> 57u64);
        fi += 1;
    }
    assert(m@.subrange(0, fi as int) =~= m@);
    h
}

/// The module hash as sixteen lower-case hex digits.
pub fn fingerprint(m: &Module) -> (r: String)
    ensures
        r@ == hex(module_hash(m@) as nat, 16, false),
{
    let mut s = String::new();
    push_hex(&mut s, normalized_hash(m), 16, false);
    s
}

} // verus!
