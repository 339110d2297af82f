//! Loading: container bytes to a module. Never panics; every failure is an `Error`.
use vstd::prelude::*;
use std::collections::HashSet;
use crate::bytecode;
use crate::bytecode::{spec_instr_len, spec_walk, pcs_of_op, SJMP};
use crate::bytes::{byte_len, i64_at, read_i64, read_u32, u32_at};
use crate::decode::spec_decode_all;
use crate::error::{Error, Result};
use crate::module::{FnModel, Function, Module, strings_view};
use crate::text::{dec_nat, push_dec};

verus! {

broadcast use vstd::std_specs::hash::group_hash_axioms;

/// The characters that `String::from_utf8_lossy` makes of a byte string.
pub uninterp spec fn utf8_lossy(bytes: Seq<u8>) -> Seq<char>;

/// Text of a byte string: its characters when it is valid UTF-8, the lossy conversion otherwise.
pub open spec fn text_of(bytes: Seq<u8>) -> Seq<char> {
    if vstd::utf8::valid_utf8(bytes) {
        vstd::utf8::decode_utf8(bytes)
    } else {
        utf8_lossy(bytes)
    }
}

/// Text of a byte string, invalid sequences replaced. Wraps `String::from_utf8_lossy`:
/// valid UTF-8 decodes to its characters (as its documentation states); for other input the
/// result is only named.
#[verifier::external_body]
fn lossy_string(bytes: &[u8]) -> (r: String)
    ensures
        vstd::utf8::valid_utf8(bytes@) ==> r@ == vstd::utf8::decode_utf8(bytes@),
        !vstd::utf8::valid_utf8(bytes@) ==> r@ == utf8_lossy(bytes@),
{
    String::from_utf8_lossy(bytes).into_owned()
}

/// Offsets of the instruction starts of a decodable listing.
pub open spec fn offsets(list: Seq<(usize, crate::decode::Decoded)>) -> Set<usize> {
    Set::new(|p: usize| exists|i: int| 0 <= i < list.len() && #[trigger] list[i].0 == p)
}

/// Instruction boundaries of `code`, or the decoding error that stops the walk.
pub open spec fn spec_boundaries(code: Seq<u8>) -> Result<Set<usize>> {
    match spec_decode_all(code) {
        Ok(list) => Ok(offsets(list)),
        Err(e) => Err(e),
    }
}

pub fn build_boundaries(code: &[u8]) -> (r: Result<HashSet<usize>>)
    ensures
        r matches Ok(set) ==> spec_boundaries(code@) == Ok::<Set<usize>, Error>(set@),
        r matches Err(e) ==> spec_boundaries(code@) == Err::<Set<usize>, Error>(e),
{
    let n = byte_len(code);
    let mut set: HashSet<usize> = HashSet::new();
    let mut pc: usize = 0;
    let ghost mut seen: Seq<(usize, crate::decode::Decoded)> = Seq::empty();
    while pc < n
        invariant
            n == code@.len(),
            n <= isize::MAX,
            pc <= n,
            set@ == offsets(seen),
            crate::decode::spec_decode_from(code@, 0) matches Ok(all) ==>
                crate::decode::spec_decode_from(code@, pc as nat) matches Ok(rest) && all == seen + rest,
            crate::decode::spec_decode_from(code@, 0) is Err ==>
                crate::decode::spec_decode_from(code@, pc as nat) == crate::decode::spec_decode_from(code@, 0),
            crate::decode::spec_decode_from(code@, 0) is Ok <==> crate::decode::spec_decode_from(code@, pc as nat) is Ok,
        decreases n - pc,
    {
        let ghost before = seen;
        set.insert(pc);
        let op = code[pc];
        let len = match bytecode::instr_len(op) {
            Some(l) => l,
            None => return Err(Error::UnknownOpcode { pc, op }),
        };
        let end = match pc.checked_add(len) {
            Some(e) => e,
            None => return Err(Error::TruncatedInstr { pc }),
        };
        if end > n {
            return Err(Error::TruncatedInstr { pc });
        }
        proof {
            let d = crate::decode::decoded_of(code@, pc as int);
            if let Ok(all) = crate::decode::spec_decode_from(code@, 0) {
                let rest2 = crate::decode::spec_decode_from(code@, end as nat)->Ok_0;
                assert(all == seen.push((pc, d)) + rest2);
            }
            seen = seen.push((pc, d));
            assert(offsets(seen) =~= offsets(before).insert(pc)) by {
                assert forall|p: usize| offsets(seen).contains(p) <==> offsets(before).insert(pc).contains(p) by {
                    if offsets(before).contains(p) {
                        let i = choose|i: int| 0 <= i < before.len() && #[trigger] before[i].0 == p;
                        assert(seen[i].0 == p);
                    }
                    if p == pc {
                        assert(seen[before.len() as int].0 == p);
                    }
                    if offsets(seen).contains(p) {
                        let i = choose|i: int| 0 <= i < seen.len() && #[trigger] seen[i].0 == p;
                        if i < before.len() {
                            assert(before[i].0 == p);
                        }
                    }
                }
            }
        }
        pc = end;
    }
    proof {
        if let Ok(all) = crate::decode::spec_decode_from(code@, 0) {
            assert(all =~= seen);
        }
    }
    Ok(set)
}

/// Effect of lowering an absolute jump to a short relative `sjmp` at `at`: the result and
/// the code afterwards.
pub open spec fn spec_lower_jump(code: Seq<u8>, at: usize, target: u32, boundaries: Set<usize>)
    -> (Result<()>, Seq<u8>)
{
    let rel = target as int - ((at as i64) as int + 2);
    if target >= code.len() as u32 {
        (Err(Error::TargetOutOfRange { target }), code)
    } else if !boundaries.contains(target as usize) {
        (Err(Error::TargetNotBoundary { target }), code)
    } else if at >= code.len() {
        (Err(Error::TruncatedInstr { pc: at }), code)
    } else if at + 1 >= code.len() {
        (Err(Error::TruncatedInstr { pc: at }), code.update(at as int, SJMP))
    } else {
        (Ok(()), code.update(at as int, SJMP).update(at + 1, (rel as i8) as u8))
    }
}

/// Lowers an absolute jump target into a short relative `sjmp` at `at`.
///
/// The target must be in range and on an instruction boundary; the displacement is
/// stored truncated to a signed byte.
pub fn lower_jump(code: &mut [u8], at: usize, target: u32, boundaries: &HashSet<usize>) -> (r: Result<()>)
    requires
        target < (old(code)@.len() as u32) && boundaries@.contains(target as usize) ==> (at as i64) as int
            + 2 <= i64::MAX && i64::MIN <= target as int - ((at as i64) as int + 2) <= i64::MAX,
    ensures
        (r, final(code)@) == spec_lower_jump(old(code)@, at, target, boundaries@),
{
    let n = code.len();
    let code_len = n as u32;
    if target >= code_len {
        return Err(Error::TargetOutOfRange { target });
    }
    if !boundaries.contains(&(target as usize)) {
        return Err(Error::TargetNotBoundary { target });
    }
    let next_pc = at as i64 + 2;
    let rel = target as i64 - next_pc;
    let stored = rel as i8;
    if at >= n {
        return Err(Error::TruncatedInstr { pc: at });
    }
    code[at] = SJMP;
    if at >= n - 1 {
        return Err(Error::TruncatedInstr { pc: at });
    }
    code[at + 1] = stored as u8;
    Ok(())
}

/// Offset a lowered `sjmp` at `at` with displacement `stored` lands on.
pub fn sjmp_runtime_target(at: usize, stored: i8) -> (r: usize)
    requires
        i64::MIN <= (at as i64) as int + 2 + stored as int <= i64::MAX,
        (at as i64) as int + 2 <= i64::MAX,
    ensures
        r == (((at as i64) as int + 2 + stored as int) as i64) as usize,
{
    let base: i64 = at as i64 + 2;
    (base + stored as i64) as usize
}

/// Lowers a jump only when its displacement fits a signed byte.
pub fn try_lower_short_jump(code: &mut [u8], at: usize, target: u32, boundaries: &HashSet<usize>) -> (r: Result<()>)
    requires
        (at as i64) as int + 2 <= i64::MAX,
        i64::MIN <= target as int - ((at as i64) as int + 2) <= i64::MAX,
    ensures
        ({
            let rel = target as int - ((at as i64) as int + 2);
            if rel < -128 || rel > 127 {
                r == Err::<(), Error>(Error::OffsetTruncation { rel: rel as i64 }) && final(code)@ == old(code)@
            } else {
                (r, final(code)@) == spec_lower_jump(old(code)@, at, target, boundaries@)
            }
        }),
{
    let next_pc = at as i64 + 2;
    let rel = target as i64 - next_pc;
    if rel != rel as i8 as i64 {
        return Err(Error::OffsetTruncation { rel });
    }
    lower_jump(code, at, target, boundaries)
}

/// A lowered short jump lands on its target: when the target is an instruction boundary
/// inside the code, the jump's two bytes fit, and the displacement fits a signed byte,
/// lowering succeeds, writes `sjmp` at `at`, and `at + 2` plus the stored displacement is
/// the target; every other byte is unchanged.
pub proof fn law_lowered_jump_lands(code: Seq<u8>, at: usize, target: u32, boundaries: Set<usize>)
    requires
        (at as int) + 2 <= i64::MAX,
        (target as int) < code.len(),
        code.len() <= u32::MAX,
        boundaries.contains(target as usize),
        (at as int) + 1 < code.len(),
        -128 <= target as int - (at as int + 2) <= 127,
    ensures
        spec_lower_jump(code, at, target, boundaries).0 is Ok,
        spec_lower_jump(code, at, target, boundaries).1.len() == code.len(),
        spec_lower_jump(code, at, target, boundaries).1[at as int] == SJMP,
        (at as int) + 2 + (spec_lower_jump(code, at, target, boundaries).1[at as int + 1] as i8) as int == target as int,
        forall|i: int| 0 <= i < code.len() && i != at && i != at + 1
            ==> #[trigger] spec_lower_jump(code, at, target, boundaries).1[i] == code[i],
{
    let rel = target as int - ((at as i64) as int + 2);
    assert((at as i64) as int == at as int);
    let r8 = rel as i8;
    assert(-128 <= rel <= 127);
    assert(r8 as int == rel);
    let b = r8 as u8;
    assert((b as i8) == r8) by (bit_vector)
        requires b == r8 as u8;
}

/// Container magic, "CLVM".
pub open spec fn has_magic(input: Seq<u8>) -> bool {
    input.len() >= 4 && input[0] == 0x43u8 && input[1] == 0x4Cu8 && input[2] == 0x56u8 && input[3] == 0x4Du8
}

/// Trailer parsing state: the main function's code, its string pool, extra functions.
pub struct TrailerState {
    pub code: Seq<u8>,
    pub strings: Seq<Seq<char>>,
    pub funcs: Seq<FnModel>,
}

/// The `i`-th extra function of a container, holding `code`.
pub open spec fn extra_fn(code: Seq<u8>, i: nat) -> FnModel {
    FnModel {
        code,
        max_locals: 8,
        frame_size: 64,
        consts: Seq::empty(),
        strings: Seq::empty(),
        upvalues: Seq::empty(),
        name: "f"@ + dec_nat(i),
    }
}

/// The entry function of a loaded container.
pub open spec fn main_fn(code: Seq<u8>, consts: Seq<i64>, strings: Seq<Seq<char>>) -> FnModel {
    FnModel {
        code,
        max_locals: 8,
        frame_size: 16,
        consts,
        strings,
        upvalues: Seq::empty(),
        name: "main"@,
    }
}

/// Reads `k` more length-prefixed strings from `off`, appending to `acc`.
pub open spec fn spec_strings(input: Seq<u8>, off: nat, k: nat, acc: Seq<Seq<char>>) -> Result<(nat, Seq<Seq<char>>)>
    decreases k,
{
    if k == 0 {
        Ok((off, acc))
    } else if off + 4 > input.len() {
        Err(Error::Truncated { at: "string len" })
    } else {
        let len = u32_at(input, off as int) as nat;
        let o = off + 4;
        if o + len > input.len() {
            Err(Error::Truncated { at: "string body" })
        } else {
            spec_strings(input, o + len, (k - 1) as nat, acc.push(text_of(input.subrange(o as int, (o + len) as int))))
        }
    }
}

pub proof fn lemma_strings_advance(input: Seq<u8>, off: nat, k: nat, acc: Seq<Seq<char>>)
    ensures
        spec_strings(input, off, k, acc) matches Ok((o, _)) ==> o >= off && (off <= input.len() ==> o <= input.len()),
    decreases k,
{
    if k > 0 && off + 4 <= input.len() {
        let len = u32_at(input, off as int) as nat;
        let o = off + 4;
        lemma_strings_advance(input, o + len, (k - 1) as nat, acc.push(text_of(input.subrange(o as int, (o + len) as int))));
    }
}

/// Reads extra functions `i..n` from `off`, appending to `acc`; stops quietly at a record
/// cut short by the end of the container.
pub open spec fn spec_funcs(input: Seq<u8>, off: nat, i: nat, n: nat, acc: Seq<FnModel>) -> (nat, Seq<FnModel>)
    decreases n - i,
{
    if i >= n {
        (off, acc)
    } else if off + 4 > input.len() {
        (off, acc)
    } else {
        let clen = u32_at(input, off as int) as nat;
        let o = off + 4;
        if o + clen > input.len() {
            (o, acc)
        } else {
            spec_funcs(input, o + clen, i + 1, n, acc.push(extra_fn(input.subrange(o as int, (o + clen) as int), i)))
        }
    }
}

pub proof fn lemma_funcs_advance(input: Seq<u8>, off: nat, i: nat, n: nat, acc: Seq<FnModel>)
    ensures
        spec_funcs(input, off, i, n, acc).0 >= off,
        off <= input.len() ==> spec_funcs(input, off, i, n, acc).0 <= input.len(),
    decreases n - i,
{
    if i < n && off + 4 <= input.len() {
        let clen = u32_at(input, off as int) as nat;
        let o = off + 4;
        if o + clen <= input.len() {
            lemma_funcs_advance(input, o + clen, i + 1, n, acc.push(extra_fn(input.subrange(o as int, (o + clen) as int), i)));
        }
    }
}

/// Processes the tagged trailer records from `off` to the end of the container. Reading
/// stops quietly where fewer than 8 bytes (a tag and its count or target) remain; a string
/// cut short is an error.
pub open spec fn spec_trailers(input: Seq<u8>, off: nat, st: TrailerState) -> Result<TrailerState>
    decreases input.len() - off,
{
    if off + 4 > input.len() {
        Ok(st)
    } else {
        let tag = u32_at(input, off as int);
        let o = off + 4;
        if o + 4 > input.len() {
            Ok(st)
        } else {
            let n = u32_at(input, o as int);
            let o2 = o + 4;
            if tag == 0xFFFF_FFFFu32 {
                if n > 4096 {
                    Ok(st)
                } else {
                    match spec_strings(input, o2, n as nat, st.strings) {
                        Err(e) => Err(e),
                        Ok((o3, strs)) => {
                            proof {
                                lemma_strings_advance(input, o2, n as nat, st.strings);
                                assert(o2 <= o3 <= input.len());
                            }
                            spec_trailers(input, o3, TrailerState { strings: strs, ..st })
                        },
                    }
                }
            } else if tag == 0xFFFF_FFFEu32 {
                let k: nat = if n > 64 { 64 } else { n as nat };
                let (o3, fs) = spec_funcs(input, o2, 0, k, st.funcs);
                proof {
                    lemma_funcs_advance(input, o2, 0, k, st.funcs);
                    assert(o2 <= o3 <= input.len());
                }
                spec_trailers(input, o3, TrailerState { funcs: fs, ..st })
            } else if (tag as nat) < st.code.len() {
                match spec_boundaries(st.code) {
                    Err(e) => Err(e),
                    Ok(b) => match spec_lower_jump(st.code, tag as usize, n, b) {
                        (Err(e), _) => Err(e),
                        (Ok(_), c2) => spec_trailers(input, o2, TrailerState { code: c2, ..st }),
                    },
                }
            } else {
                spec_trailers(input, o2, st)
            }
        }
    }
}

/// The module made of the entry function's constants and the trailer outcome.
pub open spec fn finish(tr: Result<TrailerState>, consts: Seq<i64>) -> Result<Seq<FnModel>> {
    match tr {
        Err(e) => Err(e),
        Ok(st) => Ok(seq![main_fn(st.code, consts, st.strings)] + st.funcs),
    }
}

/// The constants read from `off`.
pub open spec fn spec_consts(input: Seq<u8>, off: nat, nconst: nat) -> Seq<i64> {
    Seq::new(nconst, |i: int| i64_at(input, off + 8 * i))
}

/// Loading past the code section: constants from `off`; then the entry code is walked once,
/// instruction by instruction (an unknown opcode or an instruction running past the end of
/// the code is an error); then the trailers.
pub open spec fn spec_body(input: Seq<u8>, code: Seq<u8>, off: nat, nconst: nat) -> Result<Seq<FnModel>> {
    if off + 8 * nconst > input.len() {
        Err(Error::Truncated { at: "const" })
    } else if spec_boundaries(code) is Err {
        Err(spec_boundaries(code)->Err_0)
    } else {
        finish(
            spec_trailers(input, off + 8 * nconst, TrailerState { code, strings: Seq::empty(), funcs: Seq::empty() }),
            spec_consts(input, off, nconst),
        )
    }
}

/// Module a container holds (entry function first), or why loading fails.
pub open spec fn spec_load(input: Seq<u8>) -> Result<Seq<FnModel>> {
    if input.len() < 8 {
        Err(Error::Truncated { at: "header" })
    } else if !has_magic(input) {
        Err(Error::BadMagic)
    } else {
        let code_len = u32_at(input, 4) as nat;
        if input.len() < 8 + code_len {
            Err(Error::Truncated { at: "code" })
        } else {
            let code = input.subrange(8, (8 + code_len) as int);
            if 8 + code_len + 4 > input.len() {
                Err(Error::Truncated { at: "nconst" })
            } else {
                let nconst = u32_at(input, (8 + code_len) as int) as nat;
                spec_body(input, code, 8 + code_len + 4, nconst)
            }
        }
    }
}

/// The order in which loading reports a malformed container: a header shorter than 8
/// bytes, then a wrong magic, then a code section cut short, then a missing constant count,
/// then constants cut short; only a container that gets past all of these has its entry
/// code walked, an undecodable instruction being reported as the decoder reports it.
pub proof fn law_load_error_order(input: Seq<u8>)
    ensures
        input.len() < 8 ==> spec_load(input) == Err::<Seq<FnModel>, Error>(Error::Truncated { at: "header" }),
        input.len() >= 8 && !has_magic(input) ==> spec_load(input) == Err::<Seq<FnModel>, Error>(Error::BadMagic),
        ({
            let n = u32_at(input, 4) as nat;
            let k = u32_at(input, (8 + n) as int) as nat;
            &&& input.len() >= 8 && has_magic(input) && input.len() < 8 + n
                ==> spec_load(input) == Err::<Seq<FnModel>, Error>(Error::Truncated { at: "code" })
            &&& input.len() >= 8 && has_magic(input) && 8 + n <= input.len() < 12 + n
                ==> spec_load(input) == Err::<Seq<FnModel>, Error>(Error::Truncated { at: "nconst" })
            &&& input.len() >= 12 + n && has_magic(input) && input.len() < 12 + n + 8 * k
                ==> spec_load(input) == Err::<Seq<FnModel>, Error>(Error::Truncated { at: "const" })
            &&& input.len() >= 12 + n + 8 * k && has_magic(input)
                && spec_decode_all(input.subrange(8, (8 + n) as int)) is Err
                ==> spec_load(input) == Err::<Seq<FnModel>, Error>(spec_decode_all(input.subrange(8, (8 + n) as int))->Err_0)
        }),
{
}

/// What a successful load guarantees of the container: it is at least 12 bytes long and
/// starts with the magic; its entry code section, as stored, decodes instruction by
/// instruction; and the entry function comes first, holding the stored constants.
pub proof fn law_loaded_container_is_sound(input: Seq<u8>)
    requires
        spec_load(input) is Ok,
    ensures
        input.len() >= 12,
        has_magic(input),
        ({
            let n = u32_at(input, 4) as nat;
            &&& 12 + n <= input.len()
            &&& spec_decode_all(input.subrange(8, (8 + n) as int)) is Ok
            &&& (spec_load(input)->Ok_0).len() >= 1
            &&& (spec_load(input)->Ok_0)[0].consts
                == spec_consts(input, 12 + n, u32_at(input, (8 + n) as int) as nat)
            &&& (spec_load(input)->Ok_0)[0].name == "main"@
        }),
{
    let n = u32_at(input, 4) as nat;
    let code = input.subrange(8, (8 + n) as int);
    let nconst = u32_at(input, (8 + n) as int) as nat;
    let off = 12 + n;
    assert(spec_load(input) == spec_body(input, code, off, nconst));
    assert(spec_boundaries(code) is Ok);
}

fn copy_range(input: &[u8], start: usize, end: usize) -> (r: Vec<u8>)
    requires
        start <= end <= input@.len(),
    ensures
        r@ == input@.subrange(start as int, end as int),
{
    let mut out: Vec<u8> = Vec::new();
    let mut i = start;
    while i < end
        invariant
            start <= i <= end <= input@.len(),
            out@ == input@.subrange(start as int, i as int),
        decreases end - i,
    {
        out.push(input[i]);
        i += 1;
        assert(out@ =~= input@.subrange(start as int, i as int));
    }
    out
}

/// Name of the `i`-th extra function.
fn extra_name(i: usize) -> (r: String)
    ensures
        r@ == "f"@ + dec_nat(i as nat),
{
    let mut s = String::new();
    s.append("f");
    push_dec(&mut s, i as u64);
    s
}

/// Reads `k` length-prefixed strings from `off` into `pool`; the offset after them.
fn parse_strings(input: &[u8], start: usize, k: usize, pool: &mut Vec<String>) -> (r: Result<usize>)
    requires
        start <= input@.len(),
    ensures
        match spec_strings(input@, start as nat, k as nat, strings_view(old(pool)@)) {
            Err(e) => r == Err::<usize, Error>(e),
            Ok((o, strs)) => r matches Ok(x) && x as nat == o && strings_view(final(pool)@) == strs,
        },
        r matches Ok(o) ==> start <= o <= input@.len(),
{
    proof {
        lemma_strings_advance(input@, start as nat, k as nat, strings_view(old(pool)@));
    }
    let n = byte_len(input);
    let mut off = start;
    let mut j: usize = 0;
    while j < k
        invariant
            n == input@.len(),
            n <= isize::MAX,
            off <= n,
            j <= k,
            spec_strings(input@, start as nat, k as nat, strings_view(old(pool)@))
                == spec_strings(input@, off as nat, (k - j) as nat, strings_view(pool@)),
        decreases k - j,
    {
        if n - off < 4 {
            return Err(Error::Truncated { at: "string len" });
        }
        let len = read_u32(input, off) as usize;
        off += 4;
        if n - off < len {
            return Err(Error::Truncated { at: "string body" });
        }
        let body = copy_range(input, off, off + len);
        let s = lossy_string(body.as_slice());
        let ghost old_view = strings_view(pool@);
        pool.push(s);
        proof {
            assert(strings_view(pool@) =~= old_view.push(s@));
        }
        off += len;
        j += 1;
    }
    Ok(off)
}

/// Reads at most `k` extra functions from `off` into `funcs`; the offset where reading stopped.
fn parse_funcs(input: &[u8], start: usize, k: usize, funcs: &mut Vec<Function>) -> (r: usize)
    requires
        start <= input@.len(),
        k <= 64,
    ensures
        spec_funcs(input@, start as nat, 0, k as nat, old(funcs)@.map_values(|f: Function| f@))
            == (r as nat, final(funcs)@.map_values(|f: Function| f@)),
        start <= r <= input@.len(),
{
    proof {
        lemma_funcs_advance(input@, start as nat, 0, k as nat, old(funcs)@.map_values(|f: Function| f@));
    }
    let n = byte_len(input);
    let mut off = start;
    let mut i: usize = 0;
    while i < k
        invariant_except_break
            spec_funcs(input@, off as nat, i as nat, k as nat, funcs@.map_values(|f: Function| f@))
                == spec_funcs(input@, start as nat, 0, k as nat, old(funcs)@.map_values(|f: Function| f@)),
        invariant
            n == input@.len(),
            n <= isize::MAX,
            off <= n,
            i <= k <= 64,
        ensures
            spec_funcs(input@, start as nat, 0, k as nat, old(funcs)@.map_values(|f: Function| f@))
                == (off as nat, funcs@.map_values(|f: Function| f@)),
        decreases k - i,
    {
        if n - off < 4 {
            break;
        }
        let clen = read_u32(input, off) as usize;
        off += 4;
        if n - off < clen {
            break;
        }
        let fcode = copy_range(input, off, off + clen);
        off += clen;
        let f = Function {
            code: fcode,
            max_locals: 8,
            frame_size: 64,
            consts: Vec::new(),
            string_pool: Vec::new(),
            upvalues: Vec::new(),
            name: extra_name(i),
        };
        proof {
            assert(strings_view(f.string_pool@) =~= Seq::<Seq<char>>::empty());
            assert(f@ =~= extra_fn(input@.subrange((off - clen) as int, off as int), i as nat));
        }
        let ghost old_view = funcs@.map_values(|f: Function| f@);
        funcs.push(f);
        proof {
            assert(funcs@.map_values(|f: Function| f@) =~= old_view.push(f@));
        }
        i += 1;
    }
    off
}

pub fn load_module(input: &[u8]) -> (r: Result<Module>)
    ensures
        r matches Ok(m) ==> spec_load(input@) == Ok::<Seq<FnModel>, Error>(m@),
        r matches Err(e) ==> spec_load(input@) == Err::<Seq<FnModel>, Error>(e),
{
    let n = byte_len(input);
    if n < 8 {
        return Err(Error::Truncated { at: "header" });
    }
    if !(input[0] == 0x43 && input[1] == 0x4C && input[2] == 0x56 && input[3] == 0x4D) {
        return Err(Error::BadMagic);
    }
    let code_len = read_u32(input, 4) as usize;
    if n - 8 < code_len {
        return Err(Error::Truncated { at: "code" });
    }
    let mut code = copy_range(input, 8, 8 + code_len);
    if n - 8 - code_len < 4 {
        return Err(Error::Truncated { at: "nconst" });
    }
    let nconst = read_u32(input, 8 + code_len) as usize;
    let mut off: usize = 8 + code_len + 4;
    let ghost off0 = off;
    let ghost goal = spec_load(input@);
    assert(goal == spec_body(input@, code@, off0 as nat, nconst as nat));
    let mut consts: Vec<i64> = Vec::new();
    let mut k: usize = 0;
    while k < nconst
        invariant
            n == input@.len(),
            n <= isize::MAX,
            off0 <= n,
            k <= nconst,
            off == off0 + 8 * k,
            off <= n,
            consts@ == Seq::new(k as nat, |i: int| i64_at(input@, off0 + 8 * i)),
            goal == spec_body(input@, code@, off0 as nat, nconst as nat),
            goal == spec_load(input@),
        decreases nconst - k,
    {
        if n - off < 8 {
            return Err(Error::Truncated { at: "const" });
        }
        consts.push(read_i64(input, off));
        off += 8;
        k += 1;
        assert(consts@ =~= Seq::new(k as nat, |i: int| i64_at(input@, off0 + 8 * i)));
    }
    assert(consts@ =~= spec_consts(input@, off0 as nat, nconst as nat));
    let _walked = build_boundaries(&code)?;
    let mut string_pool: Vec<String> = Vec::new();
    let mut functions: Vec<Function> = Vec::new();
    proof {
        assert(strings_view(string_pool@) =~= Seq::<Seq<char>>::empty());
        assert(functions@.map_values(|f: Function| f@) =~= Seq::<FnModel>::empty());
    }
    while n - off >= 4
        invariant_except_break
            goal == finish(spec_trailers(input@, off as nat,
                TrailerState { code: code@, strings: strings_view(string_pool@), funcs: functions@.map_values(|f: Function| f@) }), consts@),
        invariant
            n == input@.len(),
            n <= isize::MAX,
            off <= n,
            goal == spec_load(input@),
        ensures
            goal == finish(Ok(TrailerState { code: code@, strings: strings_view(string_pool@), funcs: functions@.map_values(|f: Function| f@) }), consts@),
        decreases n - off,
    {
        let ghost tag_off = off;
        let ghost st_before = TrailerState { code: code@, strings: strings_view(string_pool@), funcs: functions@.map_values(|f: Function| f@) };
        let tag = read_u32(input, off);
        off += 4;
        if n - off < 4 {
            break;
        }
        let count = read_u32(input, off);
        off += 4;
        if tag == 0xFFFF_FFFF {
            if count > 4096 {
                break;
            }
            let ghost o2 = off;
            off = parse_strings(input, off, count as usize, &mut string_pool)?;
            proof {
                let ns = TrailerState { code: code@, strings: strings_view(string_pool@), funcs: functions@.map_values(|f: Function| f@) };
                assert(spec_strings(input@, o2 as nat, count as nat, st_before.strings) == Ok::<(nat, Seq<Seq<char>>), Error>((off as nat, ns.strings)));
                assert(spec_trailers(input@, tag_off as nat, st_before) == spec_trailers(input@, off as nat, ns));
            }
        } else if tag == 0xFFFF_FFFE {
            let nfuncs: usize = if count > 64 { 64 } else { count as usize };
            let ghost o2 = off;
            off = parse_funcs(input, off, nfuncs, &mut functions);
            proof {
                let ns = TrailerState { code: code@, strings: strings_view(string_pool@), funcs: functions@.map_values(|f: Function| f@) };
                assert(spec_funcs(input@, o2 as nat, 0, nfuncs as nat, st_before.funcs) == (off as nat, ns.funcs));
                assert(spec_trailers(input@, tag_off as nat, st_before) == spec_trailers(input@, off as nat, ns));
            }
        } else {
            let jmp_at = tag as usize;
            let target = count;
            if jmp_at < code.len() {
                let boundaries = build_boundaries(&code)?;
                lower_jump(&mut code, jmp_at, target, &boundaries)?;
            }
        }
    }
    let mut main_name = String::new();
    main_name.append("main");
    let main = Function {
        code,
        max_locals: 8,
        frame_size: 16,
        consts,
        string_pool,
        upvalues: Vec::new(),
        name: main_name,
    };
    let mut all: Vec<Function> = Vec::new();
    all.push(main);
    let ghost fview = functions@.map_values(|f: Function| f@);
    all.append(&mut functions);
    let m = Module { functions: all };
    proof {
        assert(true);
        assert(m@ =~= seq![m.functions@[0]@] + fview);
    }
    Ok(m)
}


/// Sum of the code lengths of a list of functions.
pub open spec fn code_bytes(fs: Seq<FnModel>) -> nat
    decreases fs.len(),
{
    if fs.len() == 0 { 0 } else { code_bytes(fs.drop_last()) + fs.last().code.len() }
}

/// Sum of the constant counts of a list of functions.
pub open spec fn const_count(fs: Seq<FnModel>) -> nat
    decreases fs.len(),
{
    if fs.len() == 0 { 0 } else { const_count(fs.drop_last()) + fs.last().consts.len() }
}

pub fn module_code_bytes(m: &Module) -> (r: usize)
    requires
        code_bytes(m@) <= usize::MAX,
    ensures
        r == code_bytes(m@),
{
    let mut total: usize = 0;
    let mut i: usize = 0;
    while i < m.functions.len()
        invariant
            i <= m.functions@.len(),
            code_bytes(m@) <= usize::MAX,
            total == code_bytes(m@.subrange(0, i as int)),
        decreases m.functions@.len() - i,
    {
        proof {
            assert(m@.subrange(0, i + 1).drop_last() =~= m@.subrange(0, i as int));
            lemma_code_bytes_prefix(m@, i + 1);
        }
        total = total + m.functions[i].code.len();
        i += 1;
    }
    assert(m@.subrange(0, m@.len() as int) =~= m@);
    total
}

proof fn lemma_code_bytes_prefix(fs: Seq<FnModel>, k: int)
    requires
        0 <= k <= fs.len(),
    ensures
        code_bytes(fs.subrange(0, k)) <= code_bytes(fs),
        const_count(fs.subrange(0, k)) <= const_count(fs),
    decreases fs.len(),
{
    if k < fs.len() {
        assert(fs.drop_last().subrange(0, k) =~= fs.subrange(0, k));
        lemma_code_bytes_prefix(fs.drop_last(), k);
    } else {
        assert(fs.subrange(0, k) =~= fs);
    }
}

pub fn module_const_count(m: &Module) -> (r: usize)
    requires
        const_count(m@) <= usize::MAX,
    ensures
        r == const_count(m@),
{
    let mut total: usize = 0;
    let mut i: usize = 0;
    while i < m.functions.len()
        invariant
            i <= m.functions@.len(),
            const_count(m@) <= usize::MAX,
            total == const_count(m@.subrange(0, i as int)),
        decreases m.functions@.len() - i,
    {
        proof {
            assert(m@.subrange(0, i + 1).drop_last() =~= m@.subrange(0, i as int));
            lemma_code_bytes_prefix(m@, i + 1);
        }
        total = total + m.functions[i].consts.len();
        i += 1;
    }
    assert(m@.subrange(0, m@.len() as int) =~= m@);
    total
}

/// Name a function gets when it has none.
pub open spec fn default_name(i: nat) -> Seq<char> {
    "fn"@ + dec_nat(i)
}

/// Gives every unnamed function the name `fn<i>`; other fields are untouched.
pub fn sanitize_function_names(m: &mut Module)
    ensures
        final(m)@.len() == old(m)@.len(),
        forall|i: int| 0 <= i < old(m)@.len() ==> #[trigger] final(m)@[i] == (if old(m)@[i].name.len() == 0 {
            FnModel { name: default_name(i as nat), ..old(m)@[i] }
        } else {
            old(m)@[i]
        }),
{
    let mut rest: Vec<Function> = Vec::new();
    std::mem::swap(&mut rest, &mut m.functions);
    let ghost orig = rest@.map_values(|f: Function| f@);
    let total = rest.len();
    let mut i: usize = 0;
    while i < total
        invariant
            total == orig.len(),
            i <= total,
            rest@.len() == total - i,
            forall|j: int| 0 <= j < rest@.len() ==> #[trigger] rest@[j]@ == orig[i + j],
            m.functions@.len() == i,
            forall|j: int| 0 <= j < i ==> #[trigger] m.functions@[j]@ == (if orig[j].name.len() == 0 {
                FnModel { name: default_name(j as nat), ..orig[j] }
            } else {
                orig[j]
            }),
        decreases total - i,
    {
        let mut f = rest.remove(0);
        let ghost f0 = f@;
        assert(f0 == orig[i as int]);
        if f.name.as_str().unicode_len() == 0 {
            let mut nm = String::new();
            nm.append("fn");
            push_dec(&mut nm, i as u64);
            f.name = nm;
            assert(f@ =~= FnModel { name: default_name(i as nat), ..f0 });
        }
        m.functions.push(f);
        i += 1;
    }
    assert(final(m)@ =~= Seq::new(orig.len(), |i: int| final(m).functions@[i]@));
}

pub fn peek_magic(input: &[u8]) -> (r: bool)
    ensures
        r == has_magic(input@),
{
    input.len() >= 4 && input[0] == 0x43 && input[1] == 0x4C && input[2] == 0x56 && input[3] == 0x4D
}

/// Declared code-section length of a container.
pub fn code_section_len(input: &[u8]) -> (r: Result<usize>)
    ensures
        input@.len() < 8 || !has_magic(input@) ==> r == Err::<usize, Error>(Error::BadMagic),
        input@.len() >= 8 && has_magic(input@) ==> r == Ok::<usize, Error>(u32_at(input@, 4) as usize),
{
    if input.len() < 8 || !peek_magic(input) {
        return Err(Error::BadMagic);
    }
    Ok(read_u32(input, 4) as usize)
}

/// Number of instructions on the walk of `code`; fails at the first unknown opcode.
pub fn count_opcodes(code: &[u8]) -> (r: Result<usize>)
    ensures
        r matches Ok(k) ==> spec_walk(code@, 0) is Ok && k == spec_walk(code@, 0)->Ok_0.len(),
        r matches Err(e) ==> spec_walk(code@, 0) == Err::<Seq<(usize, u8)>, Error>(e),
{
    let n = byte_len(code);
    let mut k: usize = 0;
    let mut pc: usize = 0;
    let ghost mut walked: Seq<(usize, u8)> = Seq::empty();
    while pc < n
        invariant
            n == code@.len(),
            n <= isize::MAX,
            pc <= n + 4,
            k == walked.len(),
            walked.len() <= pc,
            spec_walk(code@, 0) matches Ok(all) ==> spec_walk(code@, pc as nat) matches Ok(rest) && all == walked + rest,
            spec_walk(code@, 0) is Err ==> spec_walk(code@, pc as nat) == spec_walk(code@, 0),
            spec_walk(code@, 0) is Ok <==> spec_walk(code@, pc as nat) is Ok,
        decreases n + 4 - pc,
    {
        let op = code[pc];
        let len = match bytecode::instr_len(op) {
            Some(l) => l,
            None => return Err(Error::UnknownOpcode { pc, op }),
        };
        proof {
            if let Ok(all) = spec_walk(code@, 0) {
                if pc + len < n {
                    let rest2 = spec_walk(code@, (pc + len) as nat)->Ok_0;
                    assert(all == walked.push((pc, op)) + rest2);
                } else {
                    assert(all == walked.push((pc, op)));
                }
            }
            walked = walked.push((pc, op));
        }
        k += 1;
        pc += len;
    }
    proof {
        if let Ok(all) = spec_walk(code@, 0) {
            assert(all =~= walked);
        }
    }
    Ok(k)
}

/// Offsets of the instructions with opcode `want` on the walk of `code`.
pub fn find_opcode_pcs(code: &[u8], want: u8) -> (r: Result<Vec<usize>>)
    ensures
        r matches Ok(v) ==> spec_walk(code@, 0) is Ok && v@ == pcs_of_op(spec_walk(code@, 0)->Ok_0, want),
        r matches Err(e) ==> spec_walk(code@, 0) == Err::<Seq<(usize, u8)>, Error>(e),
{
    let n = byte_len(code);
    let mut out: Vec<usize> = Vec::new();
    let mut pc: usize = 0;
    let ghost mut walked: Seq<(usize, u8)> = Seq::empty();
    while pc < n
        invariant
            n == code@.len(),
            n <= isize::MAX,
            pc <= n + 4,
            out@ == pcs_of_op(walked, want),
            spec_walk(code@, 0) matches Ok(all) ==> spec_walk(code@, pc as nat) matches Ok(rest) && all == walked + rest,
            spec_walk(code@, 0) is Err ==> spec_walk(code@, pc as nat) == spec_walk(code@, 0),
            spec_walk(code@, 0) is Ok <==> spec_walk(code@, pc as nat) is Ok,
        decreases n + 4 - pc,
    {
        let op = code[pc];
        if op == want {
            out.push(pc);
        }
        let len = match bytecode::instr_len(op) {
            Some(l) => l,
            None => return Err(Error::UnknownOpcode { pc, op }),
        };
        proof {
            if let Ok(all) = spec_walk(code@, 0) {
                if pc + len < n {
                    let rest2 = spec_walk(code@, (pc + len) as nat)->Ok_0;
                    assert(all == walked.push((pc, op)) + rest2);
                } else {
                    assert(all == walked.push((pc, op)));
                }
            }
            let w2 = walked.push((pc, op));
            assert(w2.drop_last() == walked);
            walked = w2;
        }
        pc += len;
    }
    proof {
        if let Ok(all) = spec_walk(code@, 0) {
            assert(all =~= walked);
        }
    }
    Ok(out)
}

} // verus!
