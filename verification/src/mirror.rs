//! Module mirroring and structural equality helpers.
use vstd::prelude::*;
use crate::bytes::bytes_eq;
use crate::module::{FnModel, Function, Module, strings_view};
use crate::passes::normalize::rotl64;
use crate::text::{hex, push_hex, str_eq};

verus! {

/// One FNV-1 style step over a byte: xor it in, multiply by the 32-bit FNV prime.
pub open spec fn fnv32_step(h: u64, v: u64) -> u64 {
    (h ^ v).wrapping_mul(0x01000193)
}

/// The state after every byte.
pub open spec fn fold_bytes(h: u64, bytes: Seq<u8>) -> u64
    decreases bytes.len(),
{
    if bytes.len() == 0 {
        h
    } else {
        fnv32_step(fold_bytes(h, bytes.drop_last()), bytes.last() as u64)
    }
}

/// The state after every constant: xor it in, rotate left by five.
pub open spec fn fold_consts(h: u64, consts: Seq<i64>) -> u64
    decreases consts.len(),
{
    if consts.len() == 0 {
        h
    } else {
        rotl64(fold_consts(h, consts.drop_last()) ^ (consts.last() as u64), 5)
    }
}

/// The state after the UTF-8 bytes of every string.
pub open spec fn fold_strings(h: u64, ss: Seq<Seq<char>>) -> u64
    decreases ss.len(),
{
    if ss.len() == 0 {
        h
    } else {
        fold_bytes(fold_strings(h, ss.drop_last()), vstd::utf8::encode_utf8(ss.last()))
    }
}

/// Fingerprint of a function: its code bytes, frame size, local count, constants and the
/// bytes of its string pool, in that order.
pub open spec fn spec_function_fingerprint(f: FnModel) -> u64 {
    let h1 = fold_bytes(0x811c9dc5, f.code);
    let h2 = fnv32_step(h1, f.frame_size as u64);
    let h3 = h2 ^ (f.max_locals as u64);
    fold_strings(fold_consts(h3, f.consts), f.strings)
}

/// Fingerprint of a module: each function's fingerprint xored in, then a rotation by eleven.
pub open spec fn spec_module_fingerprint(fs: Seq<FnModel>) -> u64
    decreases fs.len(),
{
    if fs.len() == 0 {
        0
    } else {
        rotl64(spec_module_fingerprint(fs.drop_last()) ^ spec_function_fingerprint(fs.last()), 11)
    }
}

/// The fields compared by `functions_equal`.
pub open spec fn same_function(a: FnModel, b: FnModel) -> bool {
    &&& a.code == b.code
    &&& a.max_locals == b.max_locals
    &&& a.frame_size == b.frame_size
    &&& a.consts == b.consts
    &&& a.strings == b.strings
}

/// Functions that `functions_equal` finds equal have the same fingerprint: the fingerprint
/// reads only the fields it compares.
pub proof fn law_equal_functions_same_fingerprint(a: FnModel, b: FnModel)
    requires
        same_function(a, b),
    ensures
        spec_function_fingerprint(a) == spec_function_fingerprint(b),
{
}

/// `code` with trailing zero bytes removed, keeping at least one byte.
pub open spec fn trim_zeros(code: Seq<u8>) -> Seq<u8>
    decreases code.len(),
{
    if code.len() > 1 && code.last() == 0 {
        trim_zeros(code.drop_last())
    } else {
        code
    }
}

/// One line comparing two functions field by field, with both fingerprints in hex.
pub open spec fn diff_text(a: FnModel, b: FnModel) -> Seq<char> {
    "code_eq="@ + bool_text(a.code == b.code) + " locals_eq="@ + bool_text(a.max_locals == b.max_locals)
        + " frame_eq="@ + bool_text(a.frame_size == b.frame_size) + " consts_eq="@ + bool_text(a.consts == b.consts)
        + " fp_a="@ + hex(spec_function_fingerprint(a) as nat, 16, false) + " fp_b="@ + hex(
        spec_function_fingerprint(b) as nat,
        16,
        false,
    )
}

/// `true` or `false`.
pub open spec fn bool_text(b: bool) -> Seq<char> {
    if b { "true"@ } else { "false"@ }
}

fn hash_bytes_into(h: u64, bytes: &[u8]) -> (r: u64)
    ensures
        r == fold_bytes(h, bytes@),
{
    let mut x = h;
    let mut i: usize = 0;
    assert(bytes@.subrange(0, 0) =~= Seq::<u8>::empty());
    while i < bytes.len()
        invariant
            i <= bytes@.len(),
            x == fold_bytes(h, bytes@.subrange(0, i as int)),
        decreases bytes@.len() - i,
    {
        assert(bytes@.subrange(0, i + 1).drop_last() =~= bytes@.subrange(0, i as int));
        x = (x ^ (bytes[i] as u64)).wrapping_mul(0x01000193);
        i += 1;
    }
    assert(bytes@.subrange(0, i as int) =~= bytes@);
    x
}

/// FNV-style fingerprint of a function's code, frame size, local count, constants and strings.
pub fn function_fingerprint(f: &Function) -> (r: u64)
    ensures
        r == spec_function_fingerprint(f@),
{
    let mut h = hash_bytes_into(0x811c9dc5, f.code.as_slice());
    h = (h ^ (f.frame_size as u64)).wrapping_mul(0x01000193);
    h = h ^ (f.max_locals as u64);
    let ghost h3 = h;
    let mut i: usize = 0;
    assert(f.consts@.subrange(0, 0) =~= Seq::<i64>::empty());
    while i < f.consts.len()
        invariant
            i <= f.consts@.len(),
            h == fold_consts(h3, f.consts@.subrange(0, i as int)),
        decreases f.consts@.len() - i,
    {
        assert(f.consts@.subrange(0, i + 1).drop_last() =~= f.consts@.subrange(0, i as int));
        h = h ^ (f.consts[i] as u64);
        h = (h << 5u64) | (h >> 59u64);
        i += 1;
    }
    assert(f.consts@.subrange(0, i as int) =~= f.consts@);
    let ghost h4 = h;
    let ghost ss = f@.strings;
    let mut k: usize = 0;
    assert(ss.subrange(0, 0) =~= Seq::<Seq<char>>::empty());
    while k < f.string_pool.len()
        invariant
            ss == f@.strings,
            ss.len() == f.string_pool@.len(),
            k <= ss.len(),
            h == fold_strings(h4, ss.subrange(0, k as int)),
        decreases ss.len() - k,
    {
        assert(ss.subrange(0, k + 1).drop_last() =~= ss.subrange(0, k as int));
        assert(ss[k as int] == f.string_pool@[k as int]@);
        let bytes = f.string_pool[k].as_str().as_bytes();
        h = hash_bytes_into(h, bytes);
        k += 1;
    }
    assert(ss.subrange(0, k as int) =~= ss);
    h
}

/// Each function's fingerprint xored in, then a rotation left by eleven.
pub fn module_fingerprint(m: &Module) -> (r: u64)
    ensures
        r == spec_module_fingerprint(m@),
{
    let mut h: u64 = 0;
    let mut i: usize = 0;
    assert(m@.subrange(0, 0) =~= Seq::<FnModel>::empty());
    while i < m.functions.len()
        invariant
            i <= m@.len(),
            m@.len() == m.functions@.len(),
            h == spec_module_fingerprint(m@.subrange(0, i as int)),
        decreases m@.len() - i,
    {
        assert(m@.subrange(0, i + 1).drop_last() =~= m@.subrange(0, i as int));
        assert(m@[i as int] == m.functions@[i as int]@);
        h = h ^ function_fingerprint(&m.functions[i]);
        h = (h << 11u64) | (h >> 53u64);
        i += 1;
    }
    assert(m@.subrange(0, i as int) =~= m@);
    h
}

fn consts_eq(a: &Vec<i64>, b: &Vec<i64>) -> (r: bool)
    ensures
        r == (a@ == b@),
{
    if a.len() != b.len() {
        return false;
    }
    let mut i: usize = 0;
    while i < a.len()
        invariant
            a@.len() == b@.len(),
            i <= a@.len(),
            forall|j: int| 0 <= j < i ==> a@[j] == b@[j],
        decreases a@.len() - i,
    {
        if a[i] != b[i] {
            return false;
        }
        i += 1;
    }
    assert(a@ =~= b@);
    true
}

fn pools_eq(a: &Vec<String>, b: &Vec<String>) -> (r: bool)
    ensures
        r == (strings_view(a@) == strings_view(b@)),
{
    if a.len() != b.len() {
        assert(strings_view(a@).len() != strings_view(b@).len());
        return false;
    }
    let mut i: usize = 0;
    while i < a.len()
        invariant
            a@.len() == b@.len(),
            i <= a@.len(),
            forall|j: int| 0 <= j < i ==> a@[j]@ == b@[j]@,
        decreases a@.len() - i,
    {
        if !str_eq(a[i].as_str(), b[i].as_str()) {
            assert(strings_view(a@)[i as int] != strings_view(b@)[i as int]);
            return false;
        }
        i += 1;
    }
    assert(strings_view(a@) =~= strings_view(b@));
    true
}

/// Whether code, local count, frame size, constants and string pool agree.
pub fn functions_equal(a: &Function, b: &Function) -> (r: bool)
    ensures
        r == same_function(a@, b@),
{
    bytes_eq(a.code.as_slice(), b.code.as_slice()) && a.max_locals == b.max_locals && a.frame_size
        == b.frame_size && consts_eq(&a.consts, &b.consts) && pools_eq(&a.string_pool, &b.string_pool)
}

fn copy_pool(v: &Vec<String>) -> (r: Vec<String>)
    ensures
        strings_view(r@) == strings_view(v@),
{
    let mut out: Vec<String> = Vec::new();
    let mut i: usize = 0;
    while i < v.len()
        invariant
            i <= v@.len(),
            out@.len() == i,
            forall|j: int| 0 <= j < i ==> out@[j]@ == v@[j]@,
        decreases v@.len() - i,
    {
        out.push(v[i].clone());
        i += 1;
    }
    assert(strings_view(out@) =~= strings_view(v@));
    out
}

fn copy_vec<T: Copy>(v: &Vec<T>) -> (r: Vec<T>)
    ensures
        r@ == v@,
{
    let mut out: Vec<T> = Vec::new();
    let mut i: usize = 0;
    while i < v.len()
        invariant
            i <= v@.len(),
            out@ == v@.subrange(0, i as int),
        decreases v@.len() - i,
    {
        out.push(v[i]);
        i += 1;
        assert(out@ =~= v@.subrange(0, i as int));
    }
    assert(v@.subrange(0, i as int) =~= v@);
    out
}

/// A copy of the function with every field.
pub fn clone_trimmed(f: &Function) -> (r: Function)
    ensures
        r@ == f@,
{
    let mut name = String::new();
    name.append(f.name.as_str());
    Function {
        code: copy_vec(&f.code),
        max_locals: f.max_locals,
        frame_size: f.frame_size,
        consts: copy_vec(&f.consts),
        string_pool: copy_pool(&f.string_pool),
        upvalues: copy_vec(&f.upvalues),
        name,
    }
}

/// A copy of the function whose code loses its trailing zero (`nop`) bytes, keeping one.
pub fn strip_trailing_nops(f: &Function) -> (r: Function)
    ensures
        r@ == (FnModel { code: trim_zeros(f.code@), ..f@ }),
{
    let mut code = copy_vec(&f.code);
    while code.len() > 1 && code[code.len() - 1] == 0
        invariant
            trim_zeros(code@) == trim_zeros(f.code@),
        decreases code@.len(),
    {
        assert(code@.drop_last() == code@.subrange(0, code@.len() - 1));
        code.pop();
    }
    let mut out = clone_trimmed(f);
    out.code = code;
    out
}

fn push_bool(out: &mut String, b: bool)
    ensures
        final(out)@ == old(out)@ + bool_text(b),
{
    out.append(if b { "true" } else { "false" });
}

/// `code_eq=.. locals_eq=.. frame_eq=.. consts_eq=.. fp_a=<hex> fp_b=<hex>`.
pub fn summarize_diff(a: &Function, b: &Function) -> (r: String)
    ensures
        r@ == diff_text(a@, b@),
{
    let mut s = String::new();
    s.append("code_eq=");
    push_bool(&mut s, bytes_eq(a.code.as_slice(), b.code.as_slice()));
    s.append(" locals_eq=");
    push_bool(&mut s, a.max_locals == b.max_locals);
    s.append(" frame_eq=");
    push_bool(&mut s, a.frame_size == b.frame_size);
    s.append(" consts_eq=");
    push_bool(&mut s, consts_eq(&a.consts, &b.consts));
    s.append(" fp_a=");
    push_hex(&mut s, function_fingerprint(a), 16, false);
    s.append(" fp_b=");
    push_hex(&mut s, function_fingerprint(b), 16, false);
    s
}

} // verus!
