//! Text assembler.
use vstd::prelude::*;
use vstd::std_specs::iter::IteratorSpec;
use vstd::string::*;
use crate::bytecode;
use crate::error::{Error, Result};
use crate::module::{Function, Module, FnModel};
use crate::text::{dec_nat, push_dec, push_char, hex, push_hex};
use crate::bytecode::{spec_instr_len, mnemonic, lenient_len, lenient_instr_len};

verus! {

broadcast use vstd::string::group_string_axioms;

/// Whether `c` is white space: the Unicode `White_Space` property, which is what
/// `char::is_whitespace` tests.
pub open spec fn is_ws(c: char) -> bool {
    let u = c as u32;
    ||| 0x09 <= u <= 0x0D
    ||| u == 0x20
    ||| u == 0x85
    ||| u == 0xA0
    ||| u == 0x1680
    ||| 0x2000 <= u <= 0x200A
    ||| u == 0x2028
    ||| u == 0x2029
    ||| u == 0x202F
    ||| u == 0x205F
    ||| u == 0x3000
}

/// The pieces of `t` between line feeds, the last one possibly empty.
pub open spec fn split_lines(t: Seq<char>) -> Seq<Seq<char>>
    decreases t.len(),
{
    if t.len() == 0 {
        seq![Seq::<char>::empty()]
    } else {
        let p = split_lines(t.drop_last());
        if t.last() == '\n' {
            p.push(Seq::empty())
        } else {
            p.update(p.len() - 1, p.last().push(t.last()))
        }
    }
}

/// The lines of a text: the pieces between line feeds, without an empty piece after a final
/// line feed. (A carriage return left at a line's end is white space to `trim`.)
pub open spec fn text_lines(t: Seq<char>) -> Seq<Seq<char>> {
    let p = split_lines(t);
    if p.last().len() == 0 { p.drop_last() } else { p }
}

/// Index of the first `#` at or after `i`, or the length.
pub open spec fn hash_index(l: Seq<char>, i: nat) -> nat
    decreases l.len() - i,
{
    if i >= l.len() {
        l.len()
    } else if l[i as int] == '#' {
        i
    } else {
        hash_index(l, i + 1)
    }
}

/// A line without its comment.
pub open spec fn before_hash(l: Seq<char>) -> Seq<char> {
    l.subrange(0, hash_index(l, 0) as int)
}

/// Index of the first non-white-space character at or after `i`, or the length.
pub open spec fn skip_ws(l: Seq<char>, i: nat) -> nat
    decreases l.len() - i,
{
    if i >= l.len() {
        l.len()
    } else if is_ws(l[i as int]) {
        skip_ws(l, i + 1)
    } else {
        i
    }
}

/// Index of the first white-space character at or after `i`, or the length.
pub open spec fn word_end(l: Seq<char>, i: nat) -> nat
    decreases l.len() - i,
{
    if i >= l.len() {
        l.len()
    } else if is_ws(l[i as int]) {
        i
    } else {
        word_end(l, i + 1)
    }
}

/// End of `l.subrange(0, j)` without its trailing white space.
pub open spec fn trim_end(l: Seq<char>, j: nat) -> nat
    decreases j,
{
    if j == 0 || j > l.len() {
        0
    } else if is_ws(l[j - 1]) {
        trim_end(l, (j - 1) as nat)
    } else {
        j
    }
}

/// `l` without leading and trailing white space.
pub open spec fn trim(l: Seq<char>) -> Seq<char> {
    let a = skip_ws(l, 0);
    let b = trim_end(l, l.len());
    if a < b { l.subrange(a as int, b as int) } else { Seq::empty() }
}

/// Bounds of the first white-space separated word at or after `i`.
pub open spec fn word_at(l: Seq<char>, i: nat) -> Option<(nat, nat)> {
    let a = skip_ws(l, i);
    if a >= l.len() { None } else { Some((a, word_end(l, a))) }
}

/// Whether `p` begins `s`.
pub open spec fn has_prefix(s: Seq<char>, p: Seq<char>) -> bool {
    p.len() <= s.len() && s.subrange(0, p.len() as int) == p
}

/// Whether `s` is a non-empty run of ASCII digits.
pub open spec fn all_digits(s: Seq<char>) -> bool {
    s.len() > 0 && forall|i: int| 0 <= i < s.len() ==> '0' <= #[trigger] s[i] <= '9'
}

/// Value of a run of decimal digits.
pub open spec fn digits_value(s: Seq<char>) -> nat
    decreases s.len(),
{
    if s.len() == 0 {
        0
    } else {
        digits_value(s.drop_last()) * 10 + ((s.last() as u32) - ('0' as u32)) as nat
    }
}

/// Decimal integer syntax: an optional `+` (or `-` when `signed`), then one or more digits.
pub open spec fn parse_dec(s: Seq<char>, signed: bool) -> Option<int> {
    if s.len() > 0 && s[0] == '+' && all_digits(s.drop_first()) {
        Some(digits_value(s.drop_first()) as int)
    } else if signed && s.len() > 0 && s[0] == '-' && all_digits(s.drop_first()) {
        Some(-(digits_value(s.drop_first()) as int))
    } else if all_digits(s) {
        Some(digits_value(s) as int)
    } else {
        None
    }
}

/// `str::parse` into an integer type whose range is `lo..=hi`.
pub open spec fn parse_in(s: Seq<char>, lo: int, hi: int) -> Option<int> {
    match parse_dec(s, lo < 0) {
        Some(v) => if lo <= v <= hi { Some(v) } else { None },
        None => None,
    }
}

/// An optional operand parsed into `0..=hi`, zero when absent or malformed.
pub open spec fn opt_operand(arg: Option<Seq<char>>, hi: int) -> int {
    match arg {
        Some(t) => match parse_in(t, 0, hi) {
            Some(v) => v,
            None => 0,
        },
        None => 0,
    }
}

/// First index at or after `i` where `s` holds `v`.
pub open spec fn index_from<T>(s: Seq<T>, v: T, i: nat) -> Option<nat>
    decreases s.len() - i,
{
    if i >= s.len() {
        None
    } else if s[i as int] == v {
        Some(i)
    } else {
        index_from(s, v, i + 1)
    }
}

/// Little-endian bytes of a 16-bit value.
pub open spec fn le16(v: u16) -> Seq<u8> {
    seq![(v % 256) as u8, (v / 256) as u8]
}

/// Assembler state.
pub struct AsmModel {
    pub code: Seq<u8>,
    pub consts: Seq<i64>,
    pub strings: Seq<Seq<char>>,
    pub labels: Seq<(Seq<char>, usize)>,
    pub fixups: Seq<(usize, Seq<char>)>,
    pub max_locals: u16,
    pub frame_size: u32,
}

/// Why assembly fails: a fixed error, or an unknown mnemonic with its (0-based) line.
pub enum AsmFailure {
    Plain(Error),
    Unknown(Seq<char>, nat),
}

/// State before the first line.
pub open spec fn asm_start() -> AsmModel {
    AsmModel {
        code: Seq::empty(),
        consts: Seq::empty(),
        strings: Seq::empty(),
        labels: Seq::empty(),
        fixups: Seq::empty(),
        max_locals: 4,
        frame_size: 64,
    }
}

pub open spec fn emit(st: AsmModel, bytes: Seq<u8>) -> AsmModel {
    AsmModel { code: st.code + bytes, ..st }
}

/// Index of a constant, adding it when new.
pub open spec fn with_const(st: AsmModel, v: i64) -> (AsmModel, u16) {
    match index_from(st.consts, v, 0) {
        Some(i) => (st, i as u16),
        None => (AsmModel { consts: st.consts.push(v), ..st }, st.consts.len() as u16),
    }
}

/// Index of a string, adding it when new.
pub open spec fn with_string(st: AsmModel, s: Seq<char>) -> (AsmModel, u16) {
    match index_from(st.strings, s, 0) {
        Some(i) => (st, i as u16),
        None => (AsmModel { strings: st.strings.push(s), ..st }, st.strings.len() as u16),
    }
}

pub open spec fn plain<T>(e: Error) -> core::result::Result<T, AsmFailure> {
    Err(AsmFailure::Plain(e))
}

/// Encoding of an instruction that takes no operand.
pub open spec fn bare_op(m: Seq<char>) -> Option<Seq<u8>> {
    if m == "nop"@ {
        Some(seq![bytecode::NOP])
    } else if m == "ret"@ {
        Some(seq![bytecode::RET])
    } else if m == "throw"@ {
        Some(seq![bytecode::THROW])
    } else if m == "strcmp"@ {
        Some(seq![bytecode::STRCMP])
    } else if m == "newarr"@ {
        Some(seq![bytecode::NEWARR, 0u8, 0u8, 0u8])
    } else if m == "getfield"@ {
        Some(seq![bytecode::GETFIELD, 0u8, 0u8, 0u8])
    } else {
        None
    }
}

/// Opcode of an instruction whose one-byte operand is optional (zero by default).
pub open spec fn byte_op(m: Seq<char>) -> Option<u8> {
    if m == "close"@ {
        Some(bytecode::CLOSE)
    } else if m == "getupval"@ {
        Some(bytecode::GETUPVAL)
    } else if m == "setupval"@ {
        Some(bytecode::SETUPVAL)
    } else if m == "openupval"@ {
        Some(bytecode::OPENUPVAL)
    } else {
        None
    }
}

/// Assembles an instruction whose operand is required, or reports an unknown mnemonic.
pub open spec fn asm_operand_instr(st: AsmModel, m: Seq<char>, arg: Option<Seq<char>>, lineno: nat) -> core::result::Result<AsmModel, AsmFailure> {
    if m == "push8"@ || m == "window"@ {
        let op = if m == "push8"@ { bytecode::PUSH8 } else { bytecode::WINDOW };
        match arg {
            None => plain(Error::VerifyFailed(if m == "push8"@ { "push8" } else { "window" })),
            Some(t) => match parse_in(t, -128, 127) {
                None => plain(Error::VerifyFailed(if m == "push8"@ { "push8 parse" } else { "window parse" })),
                Some(v) => Ok(emit(st, seq![op, (v as i8) as u8])),
            },
        }
    } else if m == "sjmp"@ {
        match arg {
            None => plain(Error::VerifyFailed("sjmp")),
            Some(t) => Ok(AsmModel {
                code: st.code + seq![bytecode::SJMP, 0u8],
                fixups: st.fixups.push(((st.code.len() + 1) as usize, t)),
                ..st
            }),
        }
    } else if m == "loadk"@ {
        match arg {
            None => plain(Error::VerifyFailed("loadk")),
            Some(t) => match parse_in(t, i64::MIN as int, i64::MAX as int) {
                None => plain(Error::VerifyFailed("loadk parse")),
                Some(v) => {
                    let (s2, idx) = with_const(st, v as i64);
                    Ok(emit(s2, seq![bytecode::LOADK] + le16(idx)))
                },
            },
        }
    } else if m == "loadlocal"@ || m == "storelocal"@ {
        let op = if m == "loadlocal"@ { bytecode::LOADLOCAL } else { bytecode::STORELOCAL };
        match arg {
            None => plain(Error::VerifyFailed("local")),
            Some(t) => match parse_in(t, 0, 255) {
                None => plain(Error::VerifyFailed("local parse")),
                Some(v) => Ok(emit(st, seq![op, v as u8, 0u8])),
            },
        }
    } else if m == "intern"@ {
        match arg {
            None => plain(Error::VerifyFailed("intern")),
            Some(t) => {
                let (s2, idx) = with_string(st, t);
                Ok(emit(s2, seq![bytecode::INTERN] + le16(idx)))
            },
        }
    } else if m == "call"@ {
        match arg {
            None => plain(Error::VerifyFailed("call")),
            Some(t) => match parse_in(t, 0, 65535) {
                None => plain(Error::VerifyFailed("call parse")),
                Some(v) => Ok(emit(st, seq![bytecode::CALL] + le16(v as u16))),
            },
        }
    } else {
        Err(AsmFailure::Unknown(m, lineno))
    }
}

/// Assembles one instruction line (trimmed, non-empty, not a directive or a label): the
/// mnemonic is its first word, the operand (if any) its second; further words are ignored.
pub open spec fn asm_instr(st: AsmModel, line: Seq<char>, lineno: nat) -> core::result::Result<AsmModel, AsmFailure> {
    match word_at(line, 0) {
        None => plain(Error::VerifyFailed("asm empty")),
        Some((a, b)) => {
            let m = line.subrange(a as int, b as int);
            let arg: Option<Seq<char>> = match word_at(line, b) {
                Some((c, d)) => Some(line.subrange(c as int, d as int)),
                None => None,
            };
            match bare_op(m) {
                Some(bytes) => Ok(emit(st, bytes)),
                None => match byte_op(m) {
                    Some(op) => Ok(emit(st, seq![op, opt_operand(arg, 255) as u8])),
                    None => if m == "tail"@ {
                        Ok(emit(st, seq![bytecode::TAIL] + le16(opt_operand(arg, 65535) as u16)))
                    } else {
                        asm_operand_instr(st, m, arg, lineno)
                    },
                },
            }
        },
    }
}

/// Assembles one source line: comments and blank lines are skipped, `.locals n` and
/// `.frame n` set the function's sizes (4 and 64 when `n` does not parse), `name:` defines
/// a label at the current offset, anything else is an instruction.
pub open spec fn asm_line(st: AsmModel, raw: Seq<char>, lineno: nat) -> core::result::Result<AsmModel, AsmFailure> {
    let line = trim(before_hash(raw));
    if line.len() == 0 {
        Ok(st)
    } else if has_prefix(line, ".locals "@) {
        let v = parse_in(trim(line.skip(".locals "@.len() as int)), 0, 65535);
        Ok(AsmModel { max_locals: (match v { Some(n) => n, None => 4 }) as u16, ..st })
    } else if has_prefix(line, ".frame "@) {
        let v = parse_in(trim(line.skip(".frame "@.len() as int)), 0, u32::MAX as int);
        Ok(AsmModel { frame_size: (match v { Some(n) => n, None => 64 }) as u32, ..st })
    } else if line.last() == ':' {
        Ok(AsmModel { labels: st.labels.push((trim(line.drop_last()), st.code.len() as usize)), ..st })
    } else {
        asm_instr(st, line, lineno)
    }
}

/// Assembles `lines` in order from `st`, stopping at the first failure.
pub open spec fn asm_lines(st: AsmModel, lines: Seq<Seq<char>>) -> core::result::Result<AsmModel, AsmFailure>
    decreases lines.len(),
{
    if lines.len() == 0 {
        Ok(st)
    } else {
        match asm_lines(st, lines.drop_last()) {
            Err(e) => Err(e),
            Ok(s) => asm_line(s, lines.last(), (lines.len() - 1) as nat),
        }
    }
}

/// Offset of the last definition of a label.
pub open spec fn find_label(labels: Seq<(Seq<char>, usize)>, name: Seq<char>) -> Option<usize>
    decreases labels.len(),
{
    if labels.len() == 0 {
        None
    } else if labels.last().0 == name {
        Some(labels.last().1)
    } else {
        find_label(labels.drop_last(), name)
    }
}

/// Patches one jump operand with the signed distance from the byte after it to its label.
pub open spec fn apply_fixup(code: Seq<u8>, labels: Seq<(Seq<char>, usize)>, fx: (usize, Seq<char>)) -> core::result::Result<Seq<u8>, Error> {
    match find_label(labels, fx.1) {
        None => Err(Error::VerifyFailed("missing label")),
        Some(t) => {
            let rel = t - (fx.0 + 1);
            if rel < -128 || rel > 127 {
                Err(Error::OffsetTruncation { rel: rel as i64 })
            } else {
                Ok(code.update(fx.0 as int, (rel as i8) as u8))
            }
        },
    }
}

/// Patches the jump operands in order, stopping at the first failure.
pub open spec fn apply_fixups(code: Seq<u8>, labels: Seq<(Seq<char>, usize)>, fixups: Seq<(usize, Seq<char>)>) -> core::result::Result<Seq<u8>, Error>
    decreases fixups.len(),
{
    if fixups.len() == 0 {
        Ok(code)
    } else {
        match apply_fixups(code, labels, fixups.drop_last()) {
            Err(e) => Err(e),
            Ok(c) => apply_fixup(c, labels, fixups.last()),
        }
    }
}

/// The function a text assembles to.
pub open spec fn spec_assemble(text: Seq<char>) -> core::result::Result<FnModel, AsmFailure> {
    match asm_lines(asm_start(), text_lines(text)) {
        Err(e) => Err(e),
        Ok(st) => match apply_fixups(st.code, st.labels, st.fixups) {
            Err(e) => Err(AsmFailure::Plain(e)),
            Ok(code) => Ok(FnModel {
                code,
                max_locals: st.max_locals,
                frame_size: st.frame_size,
                consts: st.consts,
                strings: st.strings,
                upvalues: Seq::empty(),
                name: "main"@,
            }),
        },
    }
}

/// Whether `e` is the error that `fail` describes.
pub open spec fn is_failure(e: Error, fail: AsmFailure) -> bool {
    match fail {
        AsmFailure::Plain(x) => e == x,
        AsmFailure::Unknown(m, n) => e matches Error::VerifyFailed(msg) && msg@ == "asm unknown "@ + m + " @ "@ + dec_nat(n),
    }
}

/// The characters of a text, in order.
pub fn text_chars(text: &str) -> (r: Vec<char>)
    ensures
        r@ == text@,
{
    let mut out: Vec<char> = Vec::new();
    let mut it = text.chars();
    loop
        invariant
            out@ + it.remaining() == text@,
            it.obeys_prophetic_iter_laws(),
            it.decrease() is Some,
        ensures
            out@ == text@,
        decreases it.decrease()->0,
    {
        match it.next() {
            Some(c) => {
                out.push(c);
            },
            None => {
                assert(out@ + Seq::<char>::empty() =~= out@);
                break;
            },
        }
    }
    out
}

/// Whether `c` is white space.
pub fn is_ws_char(c: char) -> (r: bool)
    ensures
        r == is_ws(c),
{
    let u = c as u32;
    (0x09 <= u && u <= 0x0D) || u == 0x20 || u == 0x85 || u == 0xA0 || u == 0x1680 || (0x2000 <= u && u
        <= 0x200A) || u == 0x2028 || u == 0x2029 || u == 0x202F || u == 0x205F || u == 0x3000
}

/// Whether `s` spells the literal `lit`.
fn chars_eq(s: &[char], lit: &str) -> (r: bool)
    ensures
        r == (s@ == lit@),
{
    let n = lit.unicode_len();
    if s.len() != n {
        return false;
    }
    let mut i: usize = 0;
    while i < n
        invariant
            i <= n,
            n == s@.len(),
            n == lit@.len(),
            forall|j: int| 0 <= j < i ==> s@[j] == lit@[j],
        decreases n - i,
    {
        if s[i] != lit.get_char(i) {
            return false;
        }
        i += 1;
    }
    assert(s@ =~= lit@);
    true
}

/// Whether two character sequences are equal.
fn chars_same(a: &[char], b: &[char]) -> (r: bool)
    ensures
        r == (a@ == b@),
{
    if a.len() != b.len() {
        return false;
    }
    let mut i: usize = 0;
    while i < a.len()
        invariant
            i <= a@.len(),
            a@.len() == b@.len(),
            forall|j: int| 0 <= j < i ==> a@[j] == b@[j],
        decreases a@.len() - i,
    {
        if a[i] != b[i] {
            return false;
        }
        i += 1;
    }
    assert(a@ =~= b@);
    true
}

/// Whether the literal `lit` begins `s`.
fn starts_with_lit(s: &[char], lit: &str) -> (r: bool)
    ensures
        r == has_prefix(s@, lit@),
{
    let n = lit.unicode_len();
    if n > s.len() {
        return false;
    }
    let mut i: usize = 0;
    while i < n
        invariant
            i <= n,
            n <= s@.len(),
            n == lit@.len(),
            forall|j: int| 0 <= j < i ==> s@[j] == lit@[j],
        decreases n - i,
    {
        if s[i] != lit.get_char(i) {
            assert(s@.subrange(0, n as int)[i as int] != lit@[i as int]);
            return false;
        }
        i += 1;
    }
    assert(s@.subrange(0, n as int) =~= lit@);
    true
}

/// The characters `s[a..b]`.
fn copy_range(s: &[char], a: usize, b: usize) -> (r: Vec<char>)
    requires
        a <= b <= s@.len(),
    ensures
        r@ == s@.subrange(a as int, b as int),
{
    let mut out: Vec<char> = Vec::new();
    let mut i = a;
    while i < b
        invariant
            a <= i <= b,
            b <= s@.len(),
            out@ == s@.subrange(a as int, i as int),
        decreases b - i,
    {
        out.push(s[i]);
        i += 1;
        assert(out@ =~= s@.subrange(a as int, i as int));
    }
    out
}

/// A line without its comment.
fn strip_comment(s: &[char]) -> (r: Vec<char>)
    ensures
        r@ == before_hash(s@),
{
    let mut i: usize = 0;
    while i < s.len() && s[i] != '#'
        invariant
            i <= s@.len(),
            hash_index(s@, i as nat) == hash_index(s@, 0),
        decreases s@.len() - i,
    {
        i += 1;
    }
    copy_range(s, 0, i)
}

/// First non-white-space index at or after `i`.
fn skip_ws_from(s: &[char], i: usize) -> (r: usize)
    ensures
        r == skip_ws(s@, i as nat),
{
    let mut k = i;
    if k > s.len() {
        return s.len();
    }
    while k < s.len() && is_ws_char(s[k])
        invariant
            i <= k <= s@.len(),
            skip_ws(s@, k as nat) == skip_ws(s@, i as nat),
        decreases s@.len() - k,
    {
        k += 1;
    }
    k
}

/// First white-space index at or after `i`.
fn word_end_from(s: &[char], i: usize) -> (r: usize)
    ensures
        r == word_end(s@, i as nat),
{
    let mut k = i;
    if k > s.len() {
        return s.len();
    }
    while k < s.len() && !is_ws_char(s[k])
        invariant
            i <= k <= s@.len(),
            word_end(s@, k as nat) == word_end(s@, i as nat),
        decreases s@.len() - k,
    {
        k += 1;
    }
    k
}

/// `s` without leading and trailing white space.
fn trim_chars(s: &[char]) -> (r: Vec<char>)
    ensures
        r@ == trim(s@),
{
    let a = skip_ws_from(s, 0);
    let mut b = s.len();
    while b > 0 && is_ws_char(s[b - 1])
        invariant
            b <= s@.len(),
            trim_end(s@, b as nat) == trim_end(s@, s@.len()),
        decreases b,
    {
        b -= 1;
    }
    if a < b {
        copy_range(s, a, b)
    } else {
        Vec::new()
    }
}

/// Bounds of the first word at or after `i`.
fn word_from(s: &[char], i: usize) -> (r: Option<(usize, usize)>)
    ensures
        r == (match word_at(s@, i as nat) {
            Some((a, b)) => Some((a as usize, b as usize)),
            None => None,
        }),
        r matches Some((a, b)) ==> a <= b <= s@.len(),
        word_at(s@, i as nat) matches Some((a, b)) ==> a <= b <= s@.len(),
{
    proof {
        lemma_skip_ws_bound(s@, i as nat);
        lemma_word_end_bound(s@, skip_ws(s@, i as nat));
    }
    let a = skip_ws_from(s, i);
    if a >= s.len() {
        None
    } else {
        let b = word_end_from(s, a);
        Some((a, b))
    }
}

proof fn lemma_skip_ws_bound(l: Seq<char>, i: nat)
    ensures
        i <= l.len() ==> i <= skip_ws(l, i) <= l.len(),
        i > l.len() ==> skip_ws(l, i) == l.len(),
    decreases l.len() - i,
{
    if i < l.len() && is_ws(l[i as int]) {
        lemma_skip_ws_bound(l, i + 1);
    }
}

proof fn lemma_word_end_bound(l: Seq<char>, i: nat)
    ensures
        i <= l.len() ==> i <= word_end(l, i) <= l.len(),
    decreases l.len() - i,
{
    if i < l.len() && !is_ws(l[i as int]) {
        lemma_word_end_bound(l, i + 1);
    }
}

proof fn lemma_digits_grow(s: Seq<char>)
    requires
        s.len() > 0,
        '0' <= s.last() <= '9',
    ensures
        digits_value(s) >= digits_value(s.drop_last()),
        digits_value(s) >= 10 * digits_value(s.drop_last()),
{
}

/// Where the digits of a decimal literal begin: after a leading `+`, or a `-` when signed.
pub open spec fn digits_start(s: Seq<char>, signed: bool) -> int {
    if s.len() > 0 && (s[0] == '+' || (signed && s[0] == '-')) { 1 } else { 0 }
}

proof fn lemma_parse_dec(s: Seq<char>, signed: bool)
    ensures
        ({
            let k = digits_start(s, signed);
            let d = s.subrange(k, s.len() as int);
            parse_dec(s, signed) == if all_digits(d) {
                Some(if k == 1 && s[0] == '-' { -(digits_value(d) as int) } else { digits_value(d) as int })
            } else {
                None::<int>
            }
        }),
{
    if s.len() > 0 {
        assert(s.drop_first() =~= s.subrange(1, s.len() as int));
        if s[0] == '+' || s[0] == '-' {
            assert(!all_digits(s)) by {
                assert(!('0' <= s[0] <= '9'));
            }
        }
    }
    assert(s.subrange(0, s.len() as int) =~= s);
}

/// `str::parse` of the characters into an integer type whose range is `lo..=hi`.
fn parse_int(s: &[char], lo: i128, hi: i128) -> (r: Option<i128>)
    requires
        -100_000_000_000_000_000_000 <= lo <= hi <= 100_000_000_000_000_000_000,
    ensures
        r == (match parse_in(s@, lo as int, hi as int) {
            Some(v) => Some(v as i128),
            None => None,
        }),
{
    proof {
        lemma_parse_dec(s@, lo < 0);
    }
    let n = s.len();
    let mut start: usize = 0;
    let mut neg = false;
    if n > 0 && s[0] == '+' {
        start = 1;
    } else if lo < 0 && n > 0 && s[0] == '-' {
        start = 1;
        neg = true;
    }
    assert(start == digits_start(s@, lo < 0));
    let ghost digits = s@.subrange(start as int, n as int);
    if start >= n {
        return None;
    }
    let mut acc: u128 = 0;
    let mut big = false;
    let mut i = start;
    while i < n
        invariant
            start <= i <= n,
            start < n,
            n == s@.len(),
            start == digits_start(s@, lo < 0),
            digits == s@.subrange(start as int, n as int),
            forall|j: int| start <= j < i ==> '0' <= #[trigger] s@[j] <= '9',
            !big ==> acc == digits_value(s@.subrange(start as int, i as int)),
            big ==> digits_value(s@.subrange(start as int, i as int)) > 100_000_000_000_000_000_000,
            acc <= 1_000_000_000_000_000_000_010,
        decreases n - i,
    {
        let c = s[i];
        if !('0' <= c && c <= '9') {
            assert(digits[i - start] == c);
            assert(!all_digits(digits));
            proof {
                lemma_parse_dec(s@, lo < 0);
            }
            return None;
        }
        let d = (c as u32 - '0' as u32) as u128;
        proof {
            let p = s@.subrange(start as int, i + 1);
            assert(p.drop_last() =~= s@.subrange(start as int, i as int));
            lemma_digits_grow(p);
        }
        if !big {
            if acc > 100_000_000_000_000_000_000 {
                big = true;
            } else {
                acc = acc * 10 + d;
            }
        }
        i += 1;
    }
    assert(s@.subrange(start as int, i as int) =~= digits);
    assert(all_digits(digits)) by {
        assert forall|j: int| 0 <= j < digits.len() implies '0' <= #[trigger] digits[j] <= '9' by {
            assert(digits[j] == s@[start + j]);
        }
    }
    if big {
        return None;
    }
    let v: i128 = if neg { 0 - (acc as i128) } else { acc as i128 };
    if lo <= v && v <= hi {
        Some(v)
    } else {
        None
    }
}

/// A string holding the characters `s`.
fn chars_to_string(s: &[char]) -> (r: String)
    ensures
        r@ == s@,
{
    let mut out = String::new();
    let mut i: usize = 0;
    while i < s.len()
        invariant
            i <= s@.len(),
            out@ == s@.subrange(0, i as int),
        decreases s@.len() - i,
    {
        push_char(&mut out, s[i]);
        i += 1;
        assert(out@ =~= s@.subrange(0, i as int));
    }
    assert(s@.subrange(0, s@.len() as int) =~= s@);
    out
}

/// Appends the characters `s`.
fn push_chars(out: &mut String, s: &[char])
    ensures
        final(out)@ == old(out)@ + s@,
{
    let mut i: usize = 0;
    while i < s.len()
        invariant
            i <= s@.len(),
            out@ == old(out)@ + s@.subrange(0, i as int),
        decreases s@.len() - i,
    {
        push_char(out, s[i]);
        i += 1;
        assert(out@ =~= old(out)@ + s@.subrange(0, i as int));
    }
    assert(s@.subrange(0, s@.len() as int) =~= s@);
}

/// Gives a message the static lifetime that `Error` carries. Wraps `String::leak`, which
/// returns the same text.
#[verifier::external_body]
fn leak_message(s: String) -> (r: &'static str)
    ensures
        r@ == s@,
{
    s.leak()
}

struct AsmState {
    code: Vec<u8>,
    consts: Vec<i64>,
    strings: Vec<String>,
    string_chars: Vec<Vec<char>>,
    labels: Vec<(Vec<char>, usize)>,
    fixups: Vec<(usize, Vec<char>)>,
    max_locals: u16,
    frame_size: u32,
}

pub open spec fn chars_view(v: Seq<Vec<char>>) -> Seq<Seq<char>> {
    v.map_values(|c: Vec<char>| c@)
}

impl AsmState {
    spec fn model(&self) -> AsmModel {
        AsmModel {
            code: self.code@,
            consts: self.consts@,
            strings: chars_view(self.string_chars@),
            labels: self.labels@.map_values(|p: (Vec<char>, usize)| (p.0@, p.1)),
            fixups: self.fixups@.map_values(|p: (usize, Vec<char>)| (p.0, p.1@)),
            max_locals: self.max_locals,
            frame_size: self.frame_size,
        }
    }

    spec fn wf(&self) -> bool {
        &&& self.strings@.len() == self.string_chars@.len()
        &&& forall|i: int| 0 <= i < self.strings@.len() ==> #[trigger] self.strings@[i]@ == self.string_chars@[i]@
        &&& forall|i: int| 0 <= i < self.fixups@.len() ==> (#[trigger] self.fixups@[i]).0 < self.code@.len()
    }

    fn new() -> (r: Self)
        ensures
            r.wf(),
            r.model() == asm_start(),
    {
        let r = AsmState {
            code: Vec::new(),
            consts: Vec::new(),
            strings: Vec::new(),
            string_chars: Vec::new(),
            labels: Vec::new(),
            fixups: Vec::new(),
            max_locals: 4,
            frame_size: 64,
        };
        assert(r.model().strings =~= Seq::<Seq<char>>::empty());
        assert(r.model().labels =~= Seq::<(Seq<char>, usize)>::empty());
        assert(r.model().fixups =~= Seq::<(usize, Seq<char>)>::empty());
        r
    }

    fn emit_all(&mut self, bytes: Vec<u8>)
        requires
            old(self).wf(),
        ensures
            final(self).wf(),
            final(self).model() == emit(old(self).model(), bytes@),
    {
        let ghost before = self.model();
        let mut i: usize = 0;
        while i < bytes.len()
            invariant
                i <= bytes@.len(),
                before == old(self).model(),
                self.code@ == before.code + bytes@.subrange(0, i as int),
                old(self).wf(),
                self.consts == old(self).consts,
                self.strings == old(self).strings,
                self.string_chars == old(self).string_chars,
                self.labels == old(self).labels,
                self.fixups == old(self).fixups,
                self.max_locals == old(self).max_locals,
                self.frame_size == old(self).frame_size,
            decreases bytes@.len() - i,
        {
            self.code.push(bytes[i]);
            i += 1;
            assert(self.code@ =~= before.code + bytes@.subrange(0, i as int));
        }
        assert(bytes@.subrange(0, bytes@.len() as int) =~= bytes@);
        assert(self.model() =~= emit(before, bytes@));
    }

    fn add_const(&mut self, v: i64) -> (r: u16)
        requires
            old(self).wf(),
        ensures
            final(self).wf(),
            (final(self).model(), r) == with_const(old(self).model(), v),
    {
        let mut i: usize = 0;
        while i < self.consts.len()
            invariant
                i <= self.consts@.len(),
                index_from(self.consts@, v, i as nat) == index_from(self.consts@, v, 0),
                *self == *old(self),
                self.wf(),
            decreases self.consts@.len() - i,
        {
            if self.consts[i] == v {
                return i as u16;
            }
            i += 1;
        }
        let n = self.consts.len();
        self.consts.push(v);
        n as u16
    }

    fn add_string(&mut self, s: &[char]) -> (r: u16)
        requires
            old(self).wf(),
        ensures
            final(self).wf(),
            (final(self).model(), r) == with_string(old(self).model(), s@),
    {
        let ghost strs = chars_view(self.string_chars@);
        let mut i: usize = 0;
        while i < self.string_chars.len()
            invariant
                i <= self.string_chars@.len(),
                strs == chars_view(self.string_chars@),
                index_from(strs, s@, i as nat) == index_from(strs, s@, 0),
                *self == *old(self),
                self.wf(),
            decreases self.string_chars@.len() - i,
        {
            if chars_same(self.string_chars[i].as_slice(), s) {
                return i as u16;
            }
            i += 1;
        }
        let n = self.string_chars.len();
        let copy = copy_range(s, 0, s.len());
        assert(s@.subrange(0, s@.len() as int) =~= s@);
        self.string_chars.push(copy);
        self.strings.push(chars_to_string(s));
        assert(chars_view(self.string_chars@) =~= strs.push(s@));
        n as u16
    }
}

/// The characters of an optional word.
pub open spec fn opt_chars(arg: Option<Vec<char>>) -> Option<Seq<char>> {
    match arg {
        Some(v) => Some(v@),
        None => None,
    }
}

/// Whether an outcome of assembling is what the specification gives: the state on success,
/// the described error on failure.
pub open spec fn outcome_matches(expected: core::result::Result<AsmModel, AsmFailure>, r: Result<()>, m: AsmModel) -> bool {
    match expected {
        Ok(x) => r is Ok && m == x,
        Err(f) => r matches Err(e) && is_failure(e, f),
    }
}

/// A required numeric operand in `lo..=hi`.
fn need_num(arg: &Option<Vec<char>>, lo: i128, hi: i128, missing: &'static str, bad: &'static str) -> (r: Result<i128>)
    requires
        -100_000_000_000_000_000_000 <= lo <= hi <= 100_000_000_000_000_000_000,
    ensures
        r == (match opt_chars(*arg) {
            None => Err(Error::VerifyFailed(missing)),
            Some(t) => match parse_in(t, lo as int, hi as int) {
                None => Err(Error::VerifyFailed(bad)),
                Some(v) => Ok(v as i128),
            },
        }),
{
    match arg {
        None => Err(Error::VerifyFailed(missing)),
        Some(t) => match parse_int(t.as_slice(), lo, hi) {
            None => Err(Error::VerifyFailed(bad)),
            Some(v) => Ok(v),
        },
    }
}

/// An optional numeric operand in `0..=hi`, zero when absent or malformed.
fn opt_num(arg: &Option<Vec<char>>, hi: i128) -> (r: i128)
    requires
        0 <= hi <= 100_000_000_000_000_000_000,
    ensures
        r == opt_operand(opt_chars(*arg), hi as int),
{
    match arg {
        None => 0,
        Some(t) => match parse_int(t.as_slice(), 0, hi) {
            None => 0,
            Some(v) => v,
        },
    }
}

/// Bytes of an opcode followed by a 16-bit operand.
fn op16(op: u8, v: u16) -> (r: Vec<u8>)
    ensures
        r@ == seq![op] + le16(v),
{
    let r = vec![op, (v % 256) as u8, (v / 256) as u8];
    assert(r@ =~= seq![op] + le16(v));
    r
}

/// Encoding of an instruction that takes no operand.
fn bare_op_bytes(m: &[char]) -> (r: Option<Vec<u8>>)
    ensures
        r matches Some(v) ==> bare_op(m@) == Some(v@),
        r is None ==> bare_op(m@) is None,
{
    if chars_eq(m, "nop") {
        Some(vec![bytecode::NOP])
    } else if chars_eq(m, "ret") {
        Some(vec![bytecode::RET])
    } else if chars_eq(m, "throw") {
        Some(vec![bytecode::THROW])
    } else if chars_eq(m, "strcmp") {
        Some(vec![bytecode::STRCMP])
    } else if chars_eq(m, "newarr") {
        Some(vec![bytecode::NEWARR, 0u8, 0u8, 0u8])
    } else if chars_eq(m, "getfield") {
        Some(vec![bytecode::GETFIELD, 0u8, 0u8, 0u8])
    } else {
        None
    }
}

/// Opcode of an instruction whose one-byte operand is optional.
fn byte_op_code(m: &[char]) -> (r: Option<u8>)
    ensures
        r == byte_op(m@),
{
    if chars_eq(m, "close") {
        Some(bytecode::CLOSE)
    } else if chars_eq(m, "getupval") {
        Some(bytecode::GETUPVAL)
    } else if chars_eq(m, "setupval") {
        Some(bytecode::SETUPVAL)
    } else if chars_eq(m, "openupval") {
        Some(bytecode::OPENUPVAL)
    } else {
        None
    }
}

/// Assembles an instruction with a required operand, or reports an unknown mnemonic.
fn asm_operand(st: &mut AsmState, m: &[char], arg: Option<Vec<char>>, lineno: usize) -> (r: Result<()>)
    requires
        old(st).wf(),
    ensures
        final(st).wf(),
        outcome_matches(asm_operand_instr(old(st).model(), m@, opt_chars(arg), lineno as nat), r, final(st).model()),
{
    if chars_eq(m, "push8") || chars_eq(m, "window") {
        let is_push = chars_eq(m, "push8");
        let v = match need_num(&arg, -128, 127, if is_push { "push8" } else { "window" },
            if is_push { "push8 parse" } else { "window parse" }) {
            Ok(v) => v,
            Err(e) => return Err(e),
        };
        st.emit_all(vec![if is_push { bytecode::PUSH8 } else { bytecode::WINDOW }, (v as i8) as u8]);
        Ok(())
    } else if chars_eq(m, "sjmp") {
        match arg {
            None => Err(Error::VerifyFailed("sjmp")),
            Some(t) => {
                let ghost tv = t@;
                let n = crate::bytes::byte_len(st.code.as_slice());
                st.emit_all(vec![bytecode::SJMP, 0u8]);
                st.fixups.push((n + 1, t));
                assert(st.model().fixups =~= old(st).model().fixups.push(((n + 1) as usize, tv)));
                Ok(())
            },
        }
    } else if chars_eq(m, "loadk") {
        let v = match need_num(&arg, -9223372036854775808, 9223372036854775807, "loadk", "loadk parse") {
            Ok(v) => v,
            Err(e) => return Err(e),
        };
        let idx = st.add_const(v as i64);
        st.emit_all(op16(bytecode::LOADK, idx));
        Ok(())
    } else if chars_eq(m, "loadlocal") || chars_eq(m, "storelocal") {
        let is_load = chars_eq(m, "loadlocal");
        let v = match need_num(&arg, 0, 255, "local", "local parse") {
            Ok(v) => v,
            Err(e) => return Err(e),
        };
        st.emit_all(vec![if is_load { bytecode::LOADLOCAL } else { bytecode::STORELOCAL }, v as u8, 0u8]);
        Ok(())
    } else if chars_eq(m, "intern") {
        match &arg {
            None => Err(Error::VerifyFailed("intern")),
            Some(t) => {
                let idx = st.add_string(t.as_slice());
                st.emit_all(op16(bytecode::INTERN, idx));
                Ok(())
            },
        }
    } else if chars_eq(m, "call") {
        let v = match need_num(&arg, 0, 65535, "call", "call parse") {
            Ok(v) => v,
            Err(e) => return Err(e),
        };
        st.emit_all(op16(bytecode::CALL, v as u16));
        Ok(())
    } else {
        let mut msg = String::new();
        msg.append("asm unknown ");
        push_chars(&mut msg, m);
        msg.append(" @ ");
        push_dec(&mut msg, lineno as u64);
        Err(Error::VerifyFailed(leak_message(msg)))
    }
}

/// Assembles one instruction line.
fn asm_instr_line(st: &mut AsmState, line: &[char], lineno: usize) -> (r: Result<()>)
    requires
        old(st).wf(),
    ensures
        final(st).wf(),
        outcome_matches(asm_instr(old(st).model(), line@, lineno as nat), r, final(st).model()),
{
    let _len = line.len();
    let (a, b) = match word_from(line, 0) {
        Some(p) => p,
        None => return Err(Error::VerifyFailed("asm empty")),
    };
    let m = copy_range(line, a, b);
    let ghost spec_arg: Option<Seq<char>> = match word_at(line@, b as nat) {
        Some((c, d)) => Some(line@.subrange(c as int, d as int)),
        None => None,
    };
    let arg: Option<Vec<char>> = match word_from(line, b) {
        Some((c, d)) => {
            let t = copy_range(line, c, d);
            assert(spec_arg == Some(t@));
            Some(t)
        },
        None => None,
    };
    assert(opt_chars(arg) == spec_arg);
    let ms = m.as_slice();
    match bare_op_bytes(ms) {
        Some(bytes) => {
            st.emit_all(bytes);
            return Ok(());
        },
        None => {},
    }
    match byte_op_code(ms) {
        Some(op) => {
            let v = opt_num(&arg, 255);
            st.emit_all(vec![op, v as u8]);
            return Ok(());
        },
        None => {},
    }
    if chars_eq(ms, "tail") {
        let v = opt_num(&arg, 65535);
        st.emit_all(op16(bytecode::TAIL, v as u16));
        return Ok(());
    }
    asm_operand(st, ms, arg, lineno)
}

/// Assembles one source line.
fn asm_source_line(st: &mut AsmState, raw: &[char], lineno: usize) -> (r: Result<()>)
    requires
        old(st).wf(),
    ensures
        final(st).wf(),
        outcome_matches(asm_line(old(st).model(), raw@, lineno as nat), r, final(st).model()),
{
    let nohash = strip_comment(raw);
    let line = trim_chars(nohash.as_slice());
    let ls = line.as_slice();
    let n = ls.len();
    if n == 0 {
        return Ok(());
    }
    if starts_with_lit(ls, ".locals ") {
        let k = ".locals ".unicode_len();
        let rest = copy_range(ls, k, n);
        assert(rest@ =~= line@.skip(".locals "@.len() as int));
        let t = trim_chars(rest.as_slice());
        st.max_locals = match parse_int(t.as_slice(), 0, 65535) {
            Some(v) => v as u16,
            None => 4,
        };
        return Ok(());
    }
    if starts_with_lit(ls, ".frame ") {
        let k = ".frame ".unicode_len();
        let rest = copy_range(ls, k, n);
        assert(rest@ =~= line@.skip(".frame "@.len() as int));
        let t = trim_chars(rest.as_slice());
        st.frame_size = match parse_int(t.as_slice(), 0, 4294967295) {
            Some(v) => v as u32,
            None => 64,
        };
        return Ok(());
    }
    if ls[n - 1] == ':' {
        let body = copy_range(ls, 0, n - 1);
        assert(body@ =~= line@.drop_last());
        let name = trim_chars(body.as_slice());
        let ghost nv = name@;
        let at = st.code.len();
        st.labels.push((name, at));
        assert(st.model().labels =~= old(st).model().labels.push((nv, at)));
        return Ok(());
    }
    asm_instr_line(st, ls, lineno)
}

/// The lines of a text.
fn split_text_lines(t: &[char]) -> (r: Vec<Vec<char>>)
    ensures
        chars_view(r@) == text_lines(t@),
{
    let mut out: Vec<Vec<char>> = Vec::new();
    let mut cur: Vec<char> = Vec::new();
    let mut i: usize = 0;
    assert(chars_view(out@).push(cur@) =~= seq![Seq::<char>::empty()]);
    assert(t@.subrange(0, 0) =~= Seq::<char>::empty());
    while i < t.len()
        invariant
            i <= t@.len(),
            split_lines(t@.subrange(0, i as int)) == chars_view(out@).push(cur@),
        decreases t@.len() - i,
    {
        let c = t[i];
        let ghost prev = chars_view(out@);
        let ghost pc = cur@;
        if c == '\n' {
            out.push(cur);
            cur = Vec::new();
            assert(chars_view(out@) =~= prev.push(pc));
        } else {
            cur.push(c);
        }
        i += 1;
        proof {
            let p = t@.subrange(0, i as int);
            assert(p.drop_last() =~= t@.subrange(0, i - 1));
            assert(p.last() == c);
            assert(split_lines(p) =~= chars_view(out@).push(cur@));
        }
    }
    assert(t@.subrange(0, t@.len() as int) =~= t@);
    if cur.len() > 0 {
        let ghost prev = chars_view(out@);
        let ghost pc = cur@;
        out.push(cur);
        assert(chars_view(out@) =~= prev.push(pc));
    } else {
        assert(chars_view(out@).push(cur@).drop_last() =~= chars_view(out@));
    }
    out
}

proof fn lemma_asm_lines_step(st: AsmModel, lines: Seq<Seq<char>>, k: int)
    requires
        0 <= k < lines.len(),
    ensures
        asm_lines(st, lines.subrange(0, k + 1)) == (match asm_lines(st, lines.subrange(0, k)) {
            Err(e) => Err(e),
            Ok(s) => asm_line(s, lines[k], k as nat),
        }),
{
    assert(lines.subrange(0, k + 1).drop_last() =~= lines.subrange(0, k));
}

proof fn lemma_asm_lines_stop(st: AsmModel, lines: Seq<Seq<char>>, k: int)
    requires
        0 <= k <= lines.len(),
        asm_lines(st, lines.subrange(0, k)) is Err,
    ensures
        asm_lines(st, lines) == asm_lines(st, lines.subrange(0, k)),
    decreases lines.len(),
{
    if k < lines.len() {
        assert(lines.drop_last().subrange(0, k) =~= lines.subrange(0, k));
        lemma_asm_lines_stop(st, lines.drop_last(), k);
    } else {
        assert(lines.subrange(0, k) =~= lines);
    }
}

proof fn lemma_fixups_stop(code: Seq<u8>, labels: Seq<(Seq<char>, usize)>, fx: Seq<(usize, Seq<char>)>, k: int)
    requires
        0 <= k <= fx.len(),
        apply_fixups(code, labels, fx.subrange(0, k)) is Err,
    ensures
        apply_fixups(code, labels, fx) == apply_fixups(code, labels, fx.subrange(0, k)),
    decreases fx.len(),
{
    if k < fx.len() {
        assert(fx.drop_last().subrange(0, k) =~= fx.subrange(0, k));
        lemma_fixups_stop(code, labels, fx.drop_last(), k);
    } else {
        assert(fx.subrange(0, k) =~= fx);
    }
}

impl AsmState {
    /// Offset of the last definition of a label.
    fn label_offset(&self, name: &[char]) -> (r: Option<usize>)
        ensures
            r == find_label(self.model().labels, name@),
    {
        let ghost labs = self.model().labels;
        let mut j = self.labels.len();
        assert(labs.subrange(0, j as int) =~= labs);
        while j > 0
            invariant
                j <= self.labels@.len(),
                labs == self.model().labels,
                find_label(labs.subrange(0, j as int), name@) == find_label(labs, name@),
            decreases j,
        {
            assert(labs.subrange(0, j as int).drop_last() =~= labs.subrange(0, j - 1));
            if chars_same(self.labels[j - 1].0.as_slice(), name) {
                return Some(self.labels[j - 1].1);
            }
            j -= 1;
        }
        None
    }

    /// Patches every recorded jump with its label's distance.
    fn patch_jumps(&mut self) -> (r: Result<()>)
        requires
            old(self).wf(),
        ensures
            final(self).wf(),
            match apply_fixups(old(self).model().code, old(self).model().labels, old(self).model().fixups) {
                Ok(c) => r is Ok && final(self).model() == AsmModel { code: c, ..old(self).model() },
                Err(e) => r == Err::<(), Error>(e),
            },
    {
        let ghost m0 = self.model();
        let mut k: usize = 0;
        assert(m0.fixups.subrange(0, 0) =~= Seq::<(usize, Seq<char>)>::empty());
        while k < self.fixups.len()
            invariant
                k <= self.fixups@.len(),
                self.wf(),
                self.model() == (AsmModel { code: self.code@, ..m0 }),
                m0 == old(self).model(),
                self.code@.len() == m0.code.len(),
                apply_fixups(m0.code, m0.labels, m0.fixups.subrange(0, k as int)) == Ok::<Seq<u8>, Error>(self.code@),
            decreases self.fixups@.len() - k,
        {
            assert(m0.fixups.subrange(0, k + 1).drop_last() =~= m0.fixups.subrange(0, k as int));
            assert(m0.fixups[k as int] == (self.fixups@[k as int].0, self.fixups@[k as int].1@));
            assert(apply_fixups(m0.code, m0.labels, m0.fixups.subrange(0, k + 1))
                == apply_fixup(self.code@, m0.labels, m0.fixups[k as int]));
            let at = self.fixups[k].0;
            let target = match self.label_offset(self.fixups[k].1.as_slice()) {
                Some(t) => t,
                None => {
                    proof { lemma_fixups_stop(m0.code, m0.labels, m0.fixups, k + 1); }
                    return Err(Error::VerifyFailed("missing label"));
                },
            };
            let rel: i128 = target as i128 - (at as i128 + 1);
            if rel < -128 || rel > 127 {
                proof { lemma_fixups_stop(m0.code, m0.labels, m0.fixups, k + 1); }
                return Err(Error::OffsetTruncation { rel: rel as i64 });
            }
            self.code.set(at, (rel as i8) as u8);
            k += 1;
        }
        assert(m0.fixups.subrange(0, k as int) =~= m0.fixups);
        assert(self.model() =~= (AsmModel { code: self.code@, ..m0 }));
        Ok(())
    }
}

/// Assembles a text into a module with one function, `main`.
///
/// Lines are read in order; `#` starts a comment. `.locals n` and `.frame n` set the sizes,
/// `name:` defines a label, and each other line is one instruction (`sjmp` takes a label,
/// `intern` a string, the others a number or nothing). Jumps are patched once every line is
/// read.
pub fn assemble(text: &str) -> (r: Result<Module>)
    ensures
        match spec_assemble(text@) {
            Ok(f) => r matches Ok(m) && m@ == seq![f],
            Err(fail) => r matches Err(e) && is_failure(e, fail),
        },
{
    let chars = text_chars(text);
    let lines = split_text_lines(chars.as_slice());
    let ghost ls = chars_view(lines@);
    let mut st = AsmState::new();
    let mut k: usize = 0;
    assert(ls.subrange(0, 0) =~= Seq::<Seq<char>>::empty());
    while k < lines.len()
        invariant
            st.wf(),
            k <= lines@.len(),
            ls == chars_view(lines@),
            ls == text_lines(text@),
            asm_lines(asm_start(), ls.subrange(0, k as int)) == Ok::<AsmModel, AsmFailure>(st.model()),
        decreases lines@.len() - k,
    {
        proof {
            lemma_asm_lines_step(asm_start(), ls, k as int);
        }
        match asm_source_line(&mut st, lines[k].as_slice(), k) {
            Ok(()) => {},
            Err(e) => {
                proof {
                    lemma_asm_lines_stop(asm_start(), ls, k + 1);
                }
                return Err(e);
            },
        }
        k += 1;
    }
    assert(ls.subrange(0, k as int) =~= ls);
    match st.patch_jumps() {
        Ok(()) => {},
        Err(e) => return Err(e),
    }
    let ghost sm = st.model();
    let AsmState { code, consts, strings, string_chars, labels, fixups, max_locals, frame_size } = st;
    let func = Function {
        code,
        max_locals,
        frame_size,
        consts,
        string_pool: strings,
        upvalues: Vec::new(),
        name: String::from_str("main"),
    };
    assert(func@.strings =~= sm.strings);
    assert(func@.upvalues =~= Seq::<(bool, u16)>::empty());
    let functions = vec![func];
    let m = Module { functions };
    assert(m@ =~= seq![func@]);
    Ok(m)
}

/// The mnemonic of an opcode, `???` when it has none.
pub open spec fn op_name(op: u8) -> Seq<char> {
    if spec_instr_len(op) is Some { mnemonic(op) } else { "???"@ }
}

/// The bytes `code[i..j]`, each as a space and two lower-case hex digits.
pub open spec fn hex_bytes(code: Seq<u8>, i: int, j: int) -> Seq<char>
    decreases j - i,
{
    if i >= j {
        Seq::empty()
    } else {
        hex_bytes(code, i, j - 1) + seq![' '] + hex(code[j - 1] as nat, 2, false)
    }
}

/// Listing line of the instruction at `pc`: its offset in four hex digits, its mnemonic
/// and its operand bytes (those present).
pub open spec fn listing_line(code: Seq<u8>, pc: nat) -> Seq<char> {
    let op = code[pc as int];
    let end = if pc + lenient_len(op) < code.len() { pc + lenient_len(op) } else { code.len() as nat };
    hex(pc, 4, false) + seq![':', ' '] + op_name(op) + hex_bytes(code, (pc + 1) as int, end as int) + seq!['\n']
}

/// Listing of the instructions from `pc` on.
pub open spec fn listing_from(code: Seq<u8>, pc: nat) -> Seq<char>
    decreases code.len() - pc,
{
    if pc >= code.len() {
        Seq::empty()
    } else {
        let next = pc + lenient_len(code[pc as int]);
        if next >= code.len() {
            listing_line(code, pc)
        } else {
            listing_line(code, pc) + listing_from(code, next)
        }
    }
}

/// Appends the bytes `code[i..j]` in listing form.
fn push_hex_bytes(out: &mut String, code: &[u8], i: usize, j: usize)
    requires
        i <= j <= code@.len(),
    ensures
        final(out)@ == old(out)@ + hex_bytes(code@, i as int, j as int),
{
    let mut k = i;
    assert(hex_bytes(code@, i as int, i as int) =~= Seq::<char>::empty());
    assert(old(out)@ + Seq::<char>::empty() =~= old(out)@);
    while k < j
        invariant
            i <= k <= j,
            j <= code@.len(),
            out@ == old(out)@ + hex_bytes(code@, i as int, k as int),
        decreases j - k,
    {
        out.append(" ");
        push_hex(out, code[k] as u64, 2, false);
        k += 1;
        proof {
            reveal_strlit(" ");
        }
        assert(out@ =~= old(out)@ + hex_bytes(code@, i as int, k as int));
    }
}

/// Listing of a function's code: one line per instruction, unknown opcodes taken as one byte.
pub fn disassemble(f: &Function) -> (r: String)
    ensures
        r@ == listing_from(f.code@, 0),
{
    let mut out = String::new();
    let n = crate::bytes::byte_len(f.code.as_slice());
    let mut pc: usize = 0;
    while pc < n
        invariant
            n == f.code@.len(),
            n <= isize::MAX,
            pc <= n + 3,
            out@ + listing_from(f.code@, pc as nat) == listing_from(f.code@, 0),
        decreases n + 3 - pc,
    {
        let ghost before = out@;
        let op = f.code[pc];
        let len = lenient_instr_len(op);
        push_hex(&mut out, pc as u64, 4, false);
        out.append(": ");
        match bytecode::name(op) {
            Some(nm) => out.append(nm),
            None => out.append("???"),
        }
        let end = if pc + len < n { pc + len } else { n };
        push_hex_bytes(&mut out, f.code.as_slice(), pc + 1, end);
        out.append("\n");
        proof {
            reveal_strlit(": ");
            reveal_strlit("\n");
            assert(out@ =~= before + listing_line(f.code@, pc as nat));
        }
        pc = pc + len;
    }
    assert(out@ + listing_from(f.code@, pc as nat) =~= out@);
    out
}

/// Sections of a multi-function text so far: finished (name, body) pairs, then the name and
/// body of the open section. A `.fn name` line closes the open section (kept only when its
/// body has more than white space) and opens `name`; other lines join the open body.
pub open spec fn section_fold(lines: Seq<Seq<char>>) -> (Seq<(Seq<char>, Seq<char>)>, Seq<char>, Seq<char>)
    decreases lines.len(),
{
    if lines.len() == 0 {
        (Seq::empty(), "main"@, Seq::empty())
    } else {
        let (done, name, body) = section_fold(lines.drop_last());
        let l = lines.last();
        let t = trim(l);
        if has_prefix(t, ".fn "@) {
            (
                if trim(body).len() > 0 { done.push((name, body)) } else { done },
                trim(t.skip(".fn "@.len() as int)),
                Seq::empty(),
            )
        } else {
            (done, name, body + l + seq!['\n'])
        }
    }
}

/// The (name, body) sections of a multi-function text.
pub open spec fn sections(text: Seq<char>) -> Seq<(Seq<char>, Seq<char>)> {
    let (done, name, body) = section_fold(text_lines(text));
    if trim(body).len() > 0 { done.push((name, body)) } else { done }
}

/// Assembles each section into a function named after it.
pub open spec fn assemble_sections(cs: Seq<(Seq<char>, Seq<char>)>) -> core::result::Result<Seq<FnModel>, AsmFailure>
    decreases cs.len(),
{
    if cs.len() == 0 {
        Ok(Seq::empty())
    } else {
        match assemble_sections(cs.drop_last()) {
            Err(e) => Err(e),
            Ok(fs) => match spec_assemble(cs.last().1) {
                Err(e) => Err(e),
                Ok(f) => Ok(fs.push(FnModel { name: cs.last().0, ..f })),
            },
        }
    }
}

/// The functions a multi-function text assembles to; a text without sections is assembled
/// as a whole.
pub open spec fn spec_assemble_multi(text: Seq<char>) -> core::result::Result<Seq<FnModel>, AsmFailure> {
    let cs = sections(text);
    if cs.len() == 0 {
        match spec_assemble(text) {
            Ok(f) => Ok(seq![f]),
            Err(e) => Err(e),
        }
    } else {
        assemble_sections(cs)
    }
}

/// Whether `s` holds only white space.
fn is_blank(s: &[char]) -> (r: bool)
    ensures
        r == (trim(s@).len() == 0),
{
    let t = trim_chars(s);
    t.len() == 0
}

proof fn lemma_section_step(lines: Seq<Seq<char>>, k: int)
    requires
        0 <= k < lines.len(),
    ensures
        section_fold(lines.subrange(0, k + 1)) == ({
            let (done, name, body) = section_fold(lines.subrange(0, k));
            let l = lines[k];
            let t = trim(l);
            if has_prefix(t, ".fn "@) {
                (
                    if trim(body).len() > 0 { done.push((name, body)) } else { done },
                    trim(t.skip(".fn "@.len() as int)),
                    Seq::<char>::empty(),
                )
            } else {
                (done, name, body + l + seq!['\n'])
            }
        }),
{
    assert(lines.subrange(0, k + 1).drop_last() =~= lines.subrange(0, k));
}

pub open spec fn pair_view(v: Seq<(Vec<char>, Vec<char>)>) -> Seq<(Seq<char>, Seq<char>)> {
    v.map_values(|p: (Vec<char>, Vec<char>)| (p.0@, p.1@))
}

/// The sections of a text.
fn split_sections(text: &str) -> (r: Vec<(Vec<char>, Vec<char>)>)
    ensures
        pair_view(r@) == sections(text@),
{
    let chars = text_chars(text);
    let lines = split_text_lines(chars.as_slice());
    let ghost ls = chars_view(lines@);
    let mut done: Vec<(Vec<char>, Vec<char>)> = Vec::new();
    let mut name: Vec<char> = Vec::new();
    name.push('m');
    name.push('a');
    name.push('i');
    name.push('n');
    let mut body: Vec<char> = Vec::new();
    let mut k: usize = 0;
    proof {
        reveal_strlit("main");
        assert(name@ =~= "main"@);
        assert(ls.subrange(0, 0) =~= Seq::<Seq<char>>::empty());
        assert(pair_view(done@) =~= Seq::<(Seq<char>, Seq<char>)>::empty());
    }
    while k < lines.len()
        invariant
            k <= lines@.len(),
            ls == chars_view(lines@),
            ls == text_lines(text@),
            section_fold(ls.subrange(0, k as int)) == (pair_view(done@), name@, body@),
        decreases lines@.len() - k,
    {
        proof {
            lemma_section_step(ls, k as int);
        }
        let l = lines[k].as_slice();
        let t = trim_chars(l);
        if starts_with_lit(t.as_slice(), ".fn ") {
            let ghost prev = pair_view(done@);
            if !is_blank(body.as_slice()) {
                let ghost nb = (name@, body@);
                let b = copy_range(body.as_slice(), 0, body.len());
                let nm = copy_range(name.as_slice(), 0, name.len());
                assert(b@ =~= body@);
                assert(nm@ =~= name@);
                done.push((nm, b));
                assert(pair_view(done@) =~= prev.push(nb));
            }
            let skip = ".fn ".unicode_len();
            let rest = copy_range(t.as_slice(), skip, t.len());
            assert(rest@ =~= t@.skip(".fn "@.len() as int));
            name = trim_chars(rest.as_slice());
            body = Vec::new();
        } else {
            let ghost b0 = body@;
            let mut i: usize = 0;
            while i < l.len()
                invariant
                    i <= l@.len(),
                    body@ == b0 + l@.subrange(0, i as int),
                decreases l@.len() - i,
            {
                body.push(l[i]);
                i += 1;
                assert(body@ =~= b0 + l@.subrange(0, i as int));
            }
            body.push('\n');
            assert(body@ =~= b0 + l@ + seq!['\n']);
        }
        k += 1;
    }
    assert(ls.subrange(0, k as int) =~= ls);
    if !is_blank(body.as_slice()) {
        let ghost prev = pair_view(done@);
        let ghost nb = (name@, body@);
        done.push((name, body));
        assert(pair_view(done@) =~= prev.push(nb));
    }
    done
}

/// Assembles each section into a function named after it.
fn assemble_each(done: &Vec<(Vec<char>, Vec<char>)>) -> (r: Result<Module>)
    ensures
        match assemble_sections(pair_view(done@)) {
            Ok(fs) => r matches Ok(m) && m@ == fs,
            Err(fail) => r matches Err(e) && is_failure(e, fail),
        },
{
    let ghost cs = pair_view(done@);
    let mut functions: Vec<Function> = Vec::new();
    let mut j: usize = 0;
    assert(cs.subrange(0, 0) =~= Seq::<(Seq<char>, Seq<char>)>::empty());
    assert(functions@.map_values(|f: Function| f@) =~= Seq::<FnModel>::empty());
    while j < done.len()
        invariant
            j <= done@.len(),
            cs == pair_view(done@),
            assemble_sections(cs.subrange(0, j as int)) == Ok::<Seq<FnModel>, AsmFailure>(
                functions@.map_values(|f: Function| f@)),
        decreases done@.len() - j,
    {
        assert(cs.subrange(0, j + 1).drop_last() =~= cs.subrange(0, j as int));
        assert(cs[j as int] == (done@[j as int].0@, done@[j as int].1@));
        let mut src = String::new();
        push_chars(&mut src, done[j].1.as_slice());
        let m = match assemble(src.as_str()) {
            Ok(m) => m,
            Err(e) => {
                proof {
                    lemma_sections_stop(cs, j + 1);
                }
                return Err(e);
            },
        };
        let ghost fs0 = functions@.map_values(|f: Function| f@);
        let ghost fm = spec_assemble(cs[j as int].1)->Ok_0;
        assert(src@ == cs[j as int].1);
        let mut fns = m.functions;
        assert(fns@.len() == 1) by {
            assert(fns@.map_values(|f: Function| f@).len() == 1);
        }
        assert(fns@[0]@ == fm) by {
            assert(fns@.map_values(|f: Function| f@)[0] == fm);
        }
        let mut f = fns.remove(0);
        f.name = chars_to_string(done[j].0.as_slice());
        assert(f@ == (FnModel { name: cs[j as int].0, ..fm }));
        functions.push(f);
        assert(functions@.map_values(|f: Function| f@) =~= fs0.push(f@));
        j += 1;
    }
    assert(cs.subrange(0, j as int) =~= cs);
    Ok(Module { functions })
}

/// Assembles a text made of `.fn name` sections into a module with one function per
/// section; a text without any section is assembled as a single `main`.
pub fn assemble_multi(text: &str) -> (r: Result<Module>)
    ensures
        match spec_assemble_multi(text@) {
            Ok(fs) => r matches Ok(m) && m@ == fs,
            Err(fail) => r matches Err(e) && is_failure(e, fail),
        },
{
    let done = split_sections(text);
    if done.len() == 0 {
        assemble(text)
    } else {
        assemble_each(&done)
    }
}

proof fn lemma_sections_stop(cs: Seq<(Seq<char>, Seq<char>)>, k: int)
    requires
        0 <= k <= cs.len(),
        assemble_sections(cs.subrange(0, k)) is Err,
    ensures
        assemble_sections(cs) == assemble_sections(cs.subrange(0, k)),
    decreases cs.len(),
{
    if k < cs.len() {
        assert(cs.drop_last().subrange(0, k) =~= cs.subrange(0, k));
        lemma_sections_stop(cs.drop_last(), k);
    } else {
        assert(cs.subrange(0, k) =~= cs);
    }
}

/// The mnemonics the assembler accepts, in documentation order.
pub open spec fn mnemonic_table() -> Seq<Seq<char>> {
    seq!["nop"@, "ret"@, "throw"@, "strcmp"@, "push8"@, "window"@, "sjmp"@, "loadk"@, "loadlocal"@,
        "storelocal"@, "intern"@, "call"@, "tail"@, "close"@, "getupval"@, "setupval"@, "openupval"@,
        "newarr"@, "getfield"@]
}

/// The mnemonics the assembler accepts.
pub fn list_mnemonics() -> (r: Vec<&'static str>)
    ensures
        r@.map_values(|s: &str| s@) == mnemonic_table(),
{
    let r = vec!["nop", "ret", "throw", "strcmp", "push8", "window", "sjmp", "loadk", "loadlocal",
        "storelocal", "intern", "call", "tail", "close", "getupval", "setupval", "openupval",
        "newarr", "getfield"];
    assert(r@.map_values(|s: &str| s@) =~= mnemonic_table());
    r
}

/// Whether the assembler accepts `openupval`.
pub fn openupval_supported() -> (r: bool)
    ensures
        r == mnemonic_table().contains("openupval"@),
{
    let list = list_mnemonics();
    let mut i: usize = 0;
    while i < list.len()
        invariant
            i <= list@.len(),
            list@.map_values(|s: &str| s@) == mnemonic_table(),
            forall|j: int| 0 <= j < i ==> mnemonic_table()[j] != "openupval"@,
        decreases list@.len() - i,
    {
        let chars = text_chars(list[i]);
        if chars_eq(chars.as_slice(), "openupval") {
            assert(mnemonic_table()[i as int] == "openupval"@);
            return true;
        }
        i += 1;
    }
    assert(!mnemonic_table().contains("openupval"@)) by {
        if mnemonic_table().contains("openupval"@) {
            let j = choose|j: int| 0 <= j < mnemonic_table().len() && mnemonic_table()[j] == "openupval"@;
            assert(mnemonic_table()[j] != "openupval"@);
        }
    }
    false
}

/// Size in bytes estimated for an instruction by its mnemonic (one byte when unknown).
pub open spec fn mnemonic_size(m: Seq<char>) -> nat {
    if m == "nop"@ || m == "ret"@ || m == "throw"@ || m == "strcmp"@ {
        1
    } else if m == "push8"@ || m == "window"@ || m == "sjmp"@ || m == "close"@ || m == "getupval"@
        || m == "setupval"@ || m == "openupval"@ {
        2
    } else if m == "loadk"@ || m == "loadlocal"@ || m == "storelocal"@ || m == "intern"@ || m == "call"@
        || m == "tail"@ {
        3
    } else if m == "newarr"@ || m == "getfield"@ {
        4
    } else {
        1
    }
}

/// Estimated size of a source line: zero for blank lines, directives and labels.
pub open spec fn line_size(raw: Seq<char>) -> nat {
    let l = trim(before_hash(raw));
    if l.len() == 0 || l[0] == '.' || l.last() == ':' {
        0
    } else {
        match word_at(l, 0) {
            Some((a, b)) => mnemonic_size(l.subrange(a as int, b as int)),
            None => mnemonic_size(Seq::empty()),
        }
    }
}

/// Estimated size of the lines.
pub open spec fn lines_size(ls: Seq<Seq<char>>) -> nat
    decreases ls.len(),
{
    if ls.len() == 0 { 0 } else { lines_size(ls.drop_last()) + line_size(ls.last()) }
}

/// Total length of the lines.
pub open spec fn lines_len(ls: Seq<Seq<char>>) -> nat
    decreases ls.len(),
{
    if ls.len() == 0 { 0 } else { lines_len(ls.drop_last()) + ls.last().len() }
}

proof fn lemma_split_lines_len(t: Seq<char>)
    ensures
        split_lines(t).len() >= 1,
        lines_len(split_lines(t)) + split_lines(t).len() == t.len() + 1,
    decreases t.len(),
{
    if t.len() == 0 {
        let q = seq![Seq::<char>::empty()];
        assert(q.drop_last() =~= Seq::<Seq<char>>::empty());
        assert(lines_len(q) == lines_len(q.drop_last()) + q.last().len());
    } else {
        lemma_split_lines_len(t.drop_last());
        let p = split_lines(t.drop_last());
        assert(lines_len(p) == lines_len(p.drop_last()) + p.last().len());
        if t.last() != '\n' {
            let q = p.update(p.len() - 1, p.last().push(t.last()));
            assert(q.drop_last() =~= p.drop_last());
            assert(q.last() == p.last().push(t.last()));
            assert(lines_len(q) == lines_len(q.drop_last()) + q.last().len());
        } else {
            let q = p.push(Seq::<char>::empty());
            assert(q.drop_last() =~= p);
            assert(lines_len(q) == lines_len(q.drop_last()) + q.last().len());
        }
    }
}

proof fn lemma_text_lines_len(t: Seq<char>)
    ensures
        lines_len(text_lines(t)) <= t.len(),
{
    lemma_split_lines_len(t);
}

proof fn lemma_hash_index_bound(l: Seq<char>, i: nat)
    ensures
        hash_index(l, i) <= l.len(),
    decreases l.len() - i,
{
    if i < l.len() && l[i as int] != '#' {
        lemma_hash_index_bound(l, i + 1);
    }
}

proof fn lemma_trim_end_bound(l: Seq<char>, j: nat)
    ensures
        trim_end(l, j) <= j,
    decreases j,
{
    if j > 0 && j <= l.len() && is_ws(l[j - 1]) {
        lemma_trim_end_bound(l, (j - 1) as nat);
    }
}

proof fn lemma_trim_len(l: Seq<char>)
    ensures
        trim(l).len() <= l.len(),
{
    lemma_skip_ws_bound(l, 0);
    lemma_trim_end_bound(l, l.len());
}

proof fn lemma_skip_ws_stops(l: Seq<char>, i: nat)
    ensures
        skip_ws(l, i) < l.len() ==> !is_ws(l[skip_ws(l, i) as int]),
    decreases l.len() - i,
{
    if i < l.len() && is_ws(l[i as int]) {
        lemma_skip_ws_stops(l, i + 1);
    }
}

proof fn lemma_line_size_bound(raw: Seq<char>)
    ensures
        line_size(raw) <= raw.len(),
{
    let l = trim(before_hash(raw));
    lemma_skip_ws_bound(l, 0);
    if l.len() > 0 && l[0] != '.' && l.last() != ':' {
        lemma_word_end_bound(l, skip_ws(l, 0));
        lemma_skip_ws_stops(l, 0);
        let a = skip_ws(l, 0);
        if a < l.len() {
            lemma_word_end_bound(l, a + 1);
            assert(word_end(l, a) == word_end(l, a + 1));
        }
        assert(l.len() <= raw.len()) by {
            lemma_hash_index_bound(raw, 0);
            lemma_trim_len(before_hash(raw));
        }
        reveal_strlit("nop");
        reveal_strlit("ret");
        reveal_strlit("throw");
        reveal_strlit("strcmp");
        reveal_strlit("push8");
        reveal_strlit("window");
        reveal_strlit("sjmp");
        reveal_strlit("close");
        reveal_strlit("getupval");
        reveal_strlit("setupval");
        reveal_strlit("openupval");
        reveal_strlit("loadk");
        reveal_strlit("loadlocal");
        reveal_strlit("storelocal");
        reveal_strlit("intern");
        reveal_strlit("call");
        reveal_strlit("tail");
        reveal_strlit("newarr");
        reveal_strlit("getfield");
        if a < l.len() {
            let m = l.subrange(a as int, word_end(l, a) as int);
            assert(m.len() >= 1);
            assert(mnemonic_size(m) <= m.len());
            assert(line_size(raw) == mnemonic_size(m));
        } else {
            let x = before_hash(raw);
            lemma_skip_ws_stops(x, 0);
            lemma_trim_end_bound(x, x.len());
            assert(!is_ws(l[0]));
        }
    }
}

proof fn lemma_lines_prefix(ls: Seq<Seq<char>>, k: int)
    requires
        0 <= k < ls.len(),
    ensures
        lines_size(ls.subrange(0, k + 1)) == lines_size(ls.subrange(0, k)) + line_size(ls[k]),
        lines_len(ls.subrange(0, k + 1)) == lines_len(ls.subrange(0, k)) + ls[k].len(),
        lines_len(ls.subrange(0, k + 1)) <= lines_len(ls),
    decreases ls.len(),
{
    assert(ls.subrange(0, k + 1).drop_last() =~= ls.subrange(0, k));
    if k + 1 < ls.len() {
        lemma_lines_prefix(ls.drop_last(), k);
        assert(ls.drop_last().subrange(0, k + 1) =~= ls.subrange(0, k + 1));
    } else {
        assert(ls.subrange(0, k + 1) =~= ls);
    }
}

proof fn lemma_lines_size_bound(ls: Seq<Seq<char>>)
    ensures
        lines_size(ls) <= lines_len(ls),
    decreases ls.len(),
{
    if ls.len() > 0 {
        lemma_lines_size_bound(ls.drop_last());
        lemma_line_size_bound(ls.last());
    }
}

/// Estimated size of one source line.
fn estimate_line(raw: &[char]) -> (r: usize)
    ensures
        r == line_size(raw@),
{
    let nohash = strip_comment(raw);
    let line = trim_chars(nohash.as_slice());
    let l = line.as_slice();
    if l.len() == 0 || l[0] == '.' || l[l.len() - 1] == ':' {
        return 0;
    }
    let m = match word_from(l, 0) {
        Some((a, b)) => copy_range(l, a, b),
        None => Vec::new(),
    };
    let ms = m.as_slice();
    if chars_eq(ms, "nop") || chars_eq(ms, "ret") || chars_eq(ms, "throw") || chars_eq(ms, "strcmp") {
        1
    } else if chars_eq(ms, "push8") || chars_eq(ms, "window") || chars_eq(ms, "sjmp") || chars_eq(ms, "close")
        || chars_eq(ms, "getupval") || chars_eq(ms, "setupval") || chars_eq(ms, "openupval") {
        2
    } else if chars_eq(ms, "loadk") || chars_eq(ms, "loadlocal") || chars_eq(ms, "storelocal")
        || chars_eq(ms, "intern") || chars_eq(ms, "call") || chars_eq(ms, "tail") {
        3
    } else if chars_eq(ms, "newarr") || chars_eq(ms, "getfield") {
        4
    } else {
        1
    }
}

/// Estimated code size of a text: the size of each instruction line by its mnemonic.
pub fn estimate_assembled_size(text: &str) -> (r: usize)
    ensures
        r == lines_size(text_lines(text@)),
{
    let chars = text_chars(text);
    let lines = split_text_lines(chars.as_slice());
    let ghost ls = chars_view(lines@);
    proof {
        lemma_text_lines_len(text@);
        assert(ls.subrange(0, 0) =~= Seq::<Seq<char>>::empty());
    }
    let _n = chars.len();
    let mut total: usize = 0;
    let mut k: usize = 0;
    while k < lines.len()
        invariant
            k <= lines@.len(),
            ls == chars_view(lines@),
            ls == text_lines(text@),
            lines_len(ls) <= chars@.len(),
            chars@.len() <= usize::MAX,
            total == lines_size(ls.subrange(0, k as int)),
        decreases lines@.len() - k,
    {
        proof {
            lemma_lines_prefix(ls, k as int);
            lemma_lines_size_bound(ls.subrange(0, k + 1));
        }
        let e = estimate_line(lines[k].as_slice());
        total = total + e;
        k += 1;
    }
    assert(ls.subrange(0, k as int) =~= ls);
    total
}

/// Whether a text assembles.
pub fn validate_asm_text(text: &str) -> (r: Result<()>)
    ensures
        match spec_assemble(text@) {
            Ok(_) => r is Ok,
            Err(fail) => r matches Err(e) && is_failure(e, fail),
        },
{
    match assemble(text) {
        Ok(_) => Ok(()),
        Err(e) => Err(e),
    }
}

/// Listing of the function a text assembles to.
pub fn roundtrip_listing(text: &str) -> (r: Result<String>)
    ensures
        match spec_assemble(text@) {
            Ok(f) => r matches Ok(s) && s@ == listing_from(f.code, 0),
            Err(fail) => r matches Err(e) && is_failure(e, fail),
        },
{
    let m = match assemble(text) {
        Ok(m) => m,
        Err(e) => return Err(e),
    };
    assert(m.functions@.len() == m@.len());
    let f = match m.entry() {
        Some(f) => f,
        None => return Err(Error::VerifyFailed("no entry")),
    };
    assert(m@[0] == f@);
    Ok(disassemble(f))
}


/// Length and first letter of each mnemonic (and the letter that tells `getupval` from
/// `getfield`): enough to tell any two mnemonics apart.
proof fn lemma_mnemonic_letters()
    ensures
        "nop"@.len() == 3 && "nop"@[0] == 'n',
        "ret"@.len() == 3 && "ret"@[0] == 'r',
        "throw"@.len() == 5 && "throw"@[0] == 't',
        "strcmp"@.len() == 6 && "strcmp"@[0] == 's',
        "push8"@.len() == 5 && "push8"@[0] == 'p',
        "window"@.len() == 6 && "window"@[0] == 'w',
        "sjmp"@.len() == 4 && "sjmp"@[0] == 's',
        "close"@.len() == 5 && "close"@[0] == 'c',
        "getupval"@.len() == 8 && "getupval"@[0] == 'g',
        "setupval"@.len() == 8 && "setupval"@[0] == 's',
        "openupval"@.len() == 9 && "openupval"@[0] == 'o',
        "loadk"@.len() == 5 && "loadk"@[0] == 'l',
        "loadlocal"@.len() == 9 && "loadlocal"@[0] == 'l',
        "storelocal"@.len() == 10 && "storelocal"@[0] == 's',
        "intern"@.len() == 6 && "intern"@[0] == 'i',
        "call"@.len() == 4 && "call"@[0] == 'c',
        "tail"@.len() == 4 && "tail"@[0] == 't',
        "newarr"@.len() == 6 && "newarr"@[0] == 'n',
        "getfield"@.len() == 8 && "getfield"@[0] == 'g',
        "getupval"@[3] == 'u' && "getfield"@[3] == 'f',
{
    reveal_strlit("nop");
    reveal_strlit("ret");
    reveal_strlit("throw");
    reveal_strlit("strcmp");
    reveal_strlit("push8");
    reveal_strlit("window");
    reveal_strlit("sjmp");
    reveal_strlit("close");
    reveal_strlit("getupval");
    reveal_strlit("setupval");
    reveal_strlit("openupval");
    reveal_strlit("loadk");
    reveal_strlit("loadlocal");
    reveal_strlit("storelocal");
    reveal_strlit("intern");
    reveal_strlit("call");
    reveal_strlit("tail");
    reveal_strlit("newarr");
    reveal_strlit("getfield");
}

/// What one assembled line does to the code: it appends `line_size(raw)` bytes, and it
/// records a jump fixup only for `sjmp`, whose two bytes are the opcode and a zero operand
/// at the recorded offset.
#[verifier::rlimit(60)]
proof fn lemma_asm_line_shape(st: AsmModel, raw: Seq<char>, lineno: nat)
    requires
        asm_line(st, raw, lineno) is Ok,
    ensures
        ({
            let s2 = asm_line(st, raw, lineno)->Ok_0;
            &&& s2.code.len() == st.code.len() + line_size(raw)
            &&& s2.code.subrange(0, st.code.len() as int) == st.code
            &&& s2.labels.len() >= st.labels.len()
            &&& s2.fixups == st.fixups || (s2.fixups.len() == st.fixups.len() + 1
                && s2.fixups.drop_last() == st.fixups
                && s2.fixups.last().0 == (st.code.len() + 1) as usize
                && s2.code == st.code + seq![bytecode::SJMP, 0u8])
        }),
{
    reveal_strlit(".locals ");
    reveal_strlit(".frame ");
    lemma_mnemonic_letters();
    let line = trim(before_hash(raw));
    let s2 = asm_line(st, raw, lineno)->Ok_0;
    if line.len() == 0 {
        assert(s2 == st);
    } else if has_prefix(line, ".locals "@) {
        assert(line[0] == line.subrange(0, 8)[0]);
        assert(s2.code == st.code && s2.fixups == st.fixups);
    } else if has_prefix(line, ".frame "@) {
        assert(line[0] == line.subrange(0, 7)[0]);
        assert(s2.code == st.code && s2.fixups == st.fixups);
    } else if line.last() == ':' {
        assert(s2.code == st.code && s2.fixups == st.fixups);
    } else {
        let (a, b) = word_at(line, 0)->Some_0;
        lemma_skip_ws_bound(line, 0);
        lemma_word_end_bound(line, a);
        lemma_word_end_bound(line, a + 1);
        assert(a < b) by {
            lemma_skip_ws_stops(line, 0);
        }
        let m = line.subrange(a as int, b as int);
        if line[0] == '.' {
            assert(!is_ws(line[0]));
            assert(a == 0);
            assert(m[0] == '.');
        }
        assert(line_size(raw) == mnemonic_size(m));
        let arg: Option<Seq<char>> = match word_at(line, b) {
            Some((c, d)) => Some(line.subrange(c as int, d as int)),
            None => None,
        };
        if m == "sjmp"@ {
            assert(asm_instr(st, line, lineno) == asm_operand_instr(st, m, arg, lineno));
            assert(s2.fixups == st.fixups.push(((st.code.len() + 1) as usize, arg->Some_0)));
            assert(s2.fixups.drop_last() =~= st.fixups);
        } else {
            assert(s2.fixups == st.fixups);
        }
    }
    assert(s2.code.subrange(0, st.code.len() as int) =~= st.code);
}


/// Jump fixups placed in `code`: each names the operand byte after an `sjmp` opcode, still
/// holding its zero placeholder, and the offsets increase.
pub open spec fn fixups_placed(code: Seq<u8>, fx: Seq<(usize, Seq<char>)>) -> bool {
    &&& forall|k: int| 0 <= k < fx.len() ==> {
        &&& 1 <= (#[trigger] fx[k]).0 < code.len()
        &&& code[fx[k].0 - 1] == bytecode::SJMP
        &&& code[fx[k].0 as int] == 0
    }
    &&& forall|j: int, k: int| 0 <= j < k < fx.len() ==> (#[trigger] fx[j]).0 < (#[trigger] fx[k]).0
}

proof fn lemma_asm_lines_shape(ls: Seq<Seq<char>>)
    requires
        asm_lines(asm_start(), ls) is Ok,
        lines_size(ls) <= usize::MAX,
    ensures
        (asm_lines(asm_start(), ls)->Ok_0).code.len() == lines_size(ls),
        fixups_placed((asm_lines(asm_start(), ls)->Ok_0).code, (asm_lines(asm_start(), ls)->Ok_0).fixups),
    decreases ls.len(),
{
    if ls.len() > 0 {
        let p = ls.drop_last();
        lemma_asm_lines_shape(p);
        let s = asm_lines(asm_start(), p)->Ok_0;
        lemma_asm_line_shape(s, ls.last(), (ls.len() - 1) as nat);
        let s2 = asm_lines(asm_start(), ls)->Ok_0;
        assert(s2 == asm_line(s, ls.last(), (ls.len() - 1) as nat)->Ok_0);
        assert forall|i: int| 0 <= i < s.code.len() implies #[trigger] s2.code[i] == s.code[i] by {
            assert(s2.code.subrange(0, s.code.len() as int)[i] == s2.code[i]);
        }
        if s2.fixups != s.fixups {
            let n = s.fixups.len() as int;
            assert forall|k: int| 0 <= k < s2.fixups.len() implies {
                &&& 1 <= (#[trigger] s2.fixups[k]).0 < s2.code.len()
                &&& s2.code[s2.fixups[k].0 - 1] == bytecode::SJMP
                &&& s2.code[s2.fixups[k].0 as int] == 0
            } by {
                if k < n {
                    assert(s2.fixups[k] == s.fixups[k]);
                } else {
                    assert(s2.fixups[k] == s2.fixups.last());
                }
            }
            assert forall|j: int, k: int| 0 <= j < k < s2.fixups.len() implies
                (#[trigger] s2.fixups[j]).0 < (#[trigger] s2.fixups[k]).0 by {
                assert(s2.fixups[j] == s.fixups[j]);
                if k < n {
                    assert(s2.fixups[k] == s.fixups[k]);
                }
            }
        }
    }
}

proof fn lemma_apply_fixups_placed(code: Seq<u8>, labels: Seq<(Seq<char>, usize)>, fx: Seq<(usize, Seq<char>)>)
    requires
        fixups_placed(code, fx),
        apply_fixups(code, labels, fx) is Ok,
    ensures
        (apply_fixups(code, labels, fx)->Ok_0).len() == code.len(),
        forall|i: int| 0 <= i < code.len() && (forall|k: int| 0 <= k < fx.len() ==> #[trigger] fx[k].0 != i)
            ==> (apply_fixups(code, labels, fx)->Ok_0)[i] == code[i],
        forall|k: int| 0 <= k < fx.len() ==> {
            &&& (apply_fixups(code, labels, fx)->Ok_0)[(#[trigger] fx[k]).0 - 1] == bytecode::SJMP
            &&& find_label(labels, fx[k].1) is Some
            &&& fx[k].0 + 1 + ((apply_fixups(code, labels, fx)->Ok_0)[fx[k].0 as int] as i8) as int
                == find_label(labels, fx[k].1)->Some_0
        },
    decreases fx.len(),
{
    if fx.len() > 0 {
        let pre = fx.drop_last();
        assert(fixups_placed(code, pre)) by {
            assert forall|k: int| 0 <= k < pre.len() implies #[trigger] pre[k] == fx[k] by {}
        }
        lemma_apply_fixups_placed(code, labels, pre);
        let c1 = apply_fixups(code, labels, pre)->Ok_0;
        let c = apply_fixups(code, labels, fx)->Ok_0;
        let last = fx.last();
        let n = pre.len() as int;
        assert(last == fx[n]);
        let t = find_label(labels, last.1)->Some_0;
        let rel = t - (last.0 + 1);
        assert(c == c1.update(last.0 as int, (rel as i8) as u8));
        let r8 = rel as i8;
        assert((r8 as u8) as i8 == r8) by (bit_vector);
        assert forall|k: int| 0 <= k < n implies #[trigger] fx[k].0 != last.0 - 1 by {
            assert(code[fx[k].0 as int] == 0);
        }
        assert(c1[last.0 - 1] == code[last.0 - 1]) by {
            assert forall|k: int| 0 <= k < pre.len() implies #[trigger] pre[k].0 != last.0 - 1 by {
                assert(pre[k] == fx[k]);
            }
        }
        assert forall|i: int| 0 <= i < code.len() && (forall|k: int| 0 <= k < fx.len() ==> #[trigger] fx[k].0 != i)
            implies c[i] == code[i] by {
            assert(fx[n].0 != i);
            assert forall|k: int| 0 <= k < pre.len() implies #[trigger] pre[k].0 != i by {
                assert(pre[k] == fx[k]);
                assert(fx[k].0 != i);
            }
        }
        assert forall|k: int| 0 <= k < fx.len() implies {
            &&& c[(#[trigger] fx[k]).0 - 1] == bytecode::SJMP
            &&& find_label(labels, fx[k].1) is Some
            &&& fx[k].0 + 1 + (c[fx[k].0 as int] as i8) as int == find_label(labels, fx[k].1)->Some_0
        } by {
            if k < n {
                assert(pre[k] == fx[k]);
                assert(fx[k].0 < last.0);
            }
        }
    }
}

/// The size estimate is exact: for every text the assembler accepts, the assembled code
/// is as long as `estimate_assembled_size` says (blank lines, comments, directives and
/// labels add nothing; each instruction adds the size of its mnemonic).
pub proof fn law_estimate_is_exact(text: Seq<char>)
    requires
        spec_assemble(text) is Ok,
        text.len() <= usize::MAX,
    ensures
        (spec_assemble(text)->Ok_0).code.len() == lines_size(text_lines(text)),
{
    let ls = text_lines(text);
    lemma_text_lines_len(text);
    lemma_lines_size_bound(ls);
    lemma_asm_lines_shape(ls);
    let st = asm_lines(asm_start(), ls)->Ok_0;
    lemma_apply_fixups_placed(st.code, st.labels, st.fixups);
}

/// Every `sjmp` the assembler emits lands on its label: for each jump recorded while
/// reading the text, the assembled code holds `sjmp` at the jump's offset `p`, the label
/// is defined, and `p + 2` plus the stored signed displacement is the label's offset (its
/// last definition).
pub proof fn law_assembled_jumps_land(text: Seq<char>)
    requires
        spec_assemble(text) is Ok,
        text.len() <= usize::MAX,
    ensures
        forall|k: int| 0 <= k < (asm_lines(asm_start(), text_lines(text))->Ok_0).fixups.len() ==> {
            let fx = #[trigger] (asm_lines(asm_start(), text_lines(text))->Ok_0).fixups[k];
            let labels = (asm_lines(asm_start(), text_lines(text))->Ok_0).labels;
            let code = (spec_assemble(text)->Ok_0).code;
            let p = fx.0 - 1;
            &&& 0 <= p && p + 1 < code.len()
            &&& code[p] == bytecode::SJMP
            &&& find_label(labels, fx.1) is Some
            &&& p + 2 + (code[p + 1] as i8) as int == find_label(labels, fx.1)->Some_0
        },
{
    let ls = text_lines(text);
    lemma_text_lines_len(text);
    lemma_lines_size_bound(ls);
    lemma_asm_lines_shape(ls);
    let st = asm_lines(asm_start(), ls)->Ok_0;
    lemma_apply_fixups_placed(st.code, st.labels, st.fixups);
}


/// Assembling `loadlocal n` or `storelocal n` for a slot `n` in `0..=255` appends exactly
/// the opcode, `n` and a zero byte, so that the instruction decodes with slot `n`; nothing
/// else of the assembler state changes.
pub proof fn law_local_slot_operand(st: AsmModel, t: Seq<char>, lineno: nat, load: bool)
    requires
        parse_in(t, 0, 255) is Some,
    ensures
        ({
            let m = if load { "loadlocal"@ } else { "storelocal"@ };
            let op = if load { bytecode::LOADLOCAL } else { bytecode::STORELOCAL };
            let n = parse_in(t, 0, 255)->Some_0;
            let r = asm_operand_instr(st, m, Some(t), lineno);
            &&& r is Ok
            &&& (r->Ok_0).code == st.code + seq![op, n as u8, 0u8]
            &&& (r->Ok_0) == (AsmModel { code: (r->Ok_0).code, ..st })
            &&& crate::decode::decoded_of((r->Ok_0).code, st.code.len() as int) == (if load {
                crate::decode::Decoded::LoadLocal(n as u16)
            } else {
                crate::decode::Decoded::StoreLocal(n as u16)
            })
        }),
{
    lemma_mnemonic_letters();
    let m = if load { "loadlocal"@ } else { "storelocal"@ };
    let op = if load { bytecode::LOADLOCAL } else { bytecode::STORELOCAL };
    let n = parse_in(t, 0, 255)->Some_0;
    let c = st.code + seq![op, n as u8, 0u8];
    let p = st.code.len() as int;
    assert(c[p] == op && c[p + 1] == n as u8 && c[p + 2] == 0u8);
    assert(crate::decode::operand_u16(c, p) == n as u16);
}


proof fn lemma_index_from<T>(s: Seq<T>, v: T, i: nat)
    ensures
        index_from(s, v, i) matches Some(k) ==> i <= k < s.len() && s[k as int] == v,
    decreases s.len() - i,
{
    if i < s.len() && s[i as int] != v {
        lemma_index_from(s, v, i + 1);
    }
}

/// Each instruction with a required operand assembles to bytes that decode to what the
/// line says: `push8`/`window` with the parsed value, `loadk` and `intern` with an index
/// whose constant or string is the operand, `call` with the parsed target; `sjmp` emits the
/// opcode and a placeholder operand byte. Earlier code is never changed.
pub proof fn law_operand_instr_decodes(st: AsmModel, m: Seq<char>, t: Seq<char>, lineno: nat)
    requires
        asm_operand_instr(st, m, Some(t), lineno) is Ok,
        st.consts.len() < 65536,
        st.strings.len() < 65536,
    ensures
        ({
            let s2 = asm_operand_instr(st, m, Some(t), lineno)->Ok_0;
            let p = st.code.len() as int;
            let d = crate::decode::decoded_of(s2.code, p);
            &&& s2.code.len() > p
            &&& s2.code.subrange(0, p) == st.code
            &&& m == "push8"@ ==> s2.code.len() == p + 2 && d == crate::decode::Decoded::Push8(parse_in(t, -128, 127)->Some_0 as i8)
            &&& m == "window"@ ==> s2.code.len() == p + 2 && d == crate::decode::Decoded::Window(parse_in(t, -128, 127)->Some_0 as i8)
            &&& m == "call"@ ==> s2.code.len() == p + 3 && d == crate::decode::Decoded::Call(parse_in(t, 0, 65535)->Some_0 as u16)
            &&& m == "loadk"@ ==> s2.code.len() == p + 3 && (d matches crate::decode::Decoded::LoadK(i)
                && (i as int) < s2.consts.len() && s2.consts[i as int] as int == parse_in(t, i64::MIN as int, i64::MAX as int)->Some_0)
            &&& m == "intern"@ ==> s2.code.len() == p + 3 && (d matches crate::decode::Decoded::Intern(i)
                && (i as int) < s2.strings.len() && s2.strings[i as int] == t)
            &&& m == "sjmp"@ ==> s2.code == st.code + seq![bytecode::SJMP, 0u8]
        }),
{
    lemma_mnemonic_letters();
    let s2 = asm_operand_instr(st, m, Some(t), lineno)->Ok_0;
    let p = st.code.len() as int;
    assert(s2.code.subrange(0, p) =~= st.code);
    if m == "push8"@ || m == "window"@ {
        let v = parse_in(t, -128, 127)->Some_0;
        let v8 = v as i8;
        let b = v8 as u8;
        assert(s2.code[p + 1] == b);
        assert((b as i8) == v8) by (bit_vector)
            requires
                b == v8 as u8,
        ;
    } else if m == "call"@ {
        let v = parse_in(t, 0, 65535)->Some_0;
        assert(s2.code[p + 1] == ((v as u16) % 256) as u8 && s2.code[p + 2] == ((v as u16) / 256) as u8);
    } else if m == "loadk"@ {
        let v = parse_in(t, i64::MIN as int, i64::MAX as int)->Some_0;
        lemma_index_from(st.consts, v as i64, 0);
        let (s1, i) = with_const(st, v as i64);
        assert(s2.code[p + 1] == (i % 256) as u8 && s2.code[p + 2] == (i / 256) as u8);
        assert(s1.consts[i as int] == v as i64);
    } else if m == "intern"@ {
        lemma_index_from(st.strings, t, 0);
        let (s1, i) = with_string(st, t);
        assert(s2.code[p + 1] == (i % 256) as u8 && s2.code[p + 2] == (i / 256) as u8);
        assert(s1.strings[i as int] == t);
    }
}


/// The assembler's mnemonics are the instruction set's names: an instruction without an
/// operand assembles to the opcode named by its mnemonic and as many bytes as that opcode's
/// instruction takes (zero operands for `newarr` and `getfield`), and an instruction with an
/// optional byte operand uses the opcode named by its mnemonic.
pub proof fn law_mnemonics_name_their_opcodes(m: Seq<char>)
    ensures
        bare_op(m) matches Some(bytes) ==> mnemonic(bytes[0]) == m
            && spec_instr_len(bytes[0]) == Some(bytes.len())
            && forall|k: int| 1 <= k < bytes.len() ==> #[trigger] bytes[k] == 0,
        byte_op(m) matches Some(op) ==> mnemonic(op) == m && spec_instr_len(op) == Some(2nat),
{
    lemma_mnemonic_letters();
}


/// Printing a number in decimal and reading it back gives the number: the digits of
/// `dec_nat(n)` are all decimal digits, their value is `n`, and an operand written that
/// way parses to `n` whenever `n` is within the operand's range.
pub proof fn law_decimal_reads_back(n: nat, hi: int)
    ensures
        all_digits(dec_nat(n)),
        digits_value(dec_nat(n)) == n,
        n <= hi ==> parse_in(dec_nat(n), 0, hi) == Some(n as int),
    decreases n,
{
    let s = dec_nat(n);
    if n < 10 {
        assert(s == seq![crate::text::digit_char(n % 16, true)]);
        assert(s.drop_last() =~= Seq::<char>::empty());
        let c = crate::text::digit_char(n, true);
        assert(c as u32 == '0' as u32 + n);
        assert(s.last() == c);
        assert(digits_value(s) == digits_value(s.drop_last()) * 10 + ((s.last() as u32) - ('0' as u32)) as nat);
    } else {
        law_decimal_reads_back(n / 10, hi);
        let p = dec_nat(n / 10);
        let c = crate::text::digit_char(n % 10, true);
        assert(s == p.push(c));
        assert(s.drop_last() =~= p);
        assert(c as u32 == '0' as u32 + n % 10);
        assert(n == (n / 10) * 10 + n % 10);
        assert(s.last() == c);
        assert(digits_value(s) == digits_value(s.drop_last()) * 10 + ((s.last() as u32) - ('0' as u32)) as nat);
        assert forall|i: int| 0 <= i < s.len() implies '0' <= #[trigger] s[i] <= '9' by {
            if i < p.len() {
                assert(s[i] == p[i]);
            }
        }
    }
    assert(s.len() > 0);
    assert('0' <= s[0] <= '9');
    assert(s[0] != '+' && s[0] != '-');
}


/// A label line (`name:`) emits nothing and records its name at the current code length,
/// the offset where the next instruction will be emitted; a comment or blank line changes
/// nothing.
pub proof fn law_label_marks_next_offset(st: AsmModel, raw: Seq<char>, lineno: nat)
    ensures
        trim(before_hash(raw)).len() == 0 ==> asm_line(st, raw, lineno) == Ok::<AsmModel, AsmFailure>(st),
        ({
            let line = trim(before_hash(raw));
            line.len() > 0 && line[0] != '.' && line.last() == ':' ==> asm_line(st, raw, lineno)
                == Ok::<AsmModel, AsmFailure>(AsmModel {
                    labels: st.labels.push((trim(line.drop_last()), st.code.len() as usize)),
                    ..st
                })
        }),
{
    reveal_strlit(".locals ");
    reveal_strlit(".frame ");
    let line = trim(before_hash(raw));
    if line.len() > 0 && line[0] != '.' {
        if has_prefix(line, ".locals "@) {
            assert(line[0] == line.subrange(0, 8)[0]);
        }
        if has_prefix(line, ".frame "@) {
            assert(line[0] == line.subrange(0, 7)[0]);
        }
    }
}


/// An instruction line whose mnemonic takes an optional operand assembles to bytes that
/// decode to that instruction with the operand given (zero when it is missing or does not
/// parse): `close`, `getupval`, `setupval`, `openupval` with one byte, `tail` with two;
/// an instruction without operand decodes to itself.
pub proof fn law_optional_operand_decodes(st: AsmModel, line: Seq<char>, lineno: nat)
    requires
        word_at(line, 0) is Some,
        asm_instr(st, line, lineno) is Ok,
    ensures
        ({
            let (a, b) = word_at(line, 0)->Some_0;
            let m = line.subrange(a as int, b as int);
            let arg: Option<Seq<char>> = match word_at(line, b) {
                Some((c, d)) => Some(line.subrange(c as int, d as int)),
                None => None,
            };
            let s2 = asm_instr(st, line, lineno)->Ok_0;
            let p = st.code.len() as int;
            let d = crate::decode::decoded_of(s2.code, p);
            let v8 = opt_operand(arg, 255) as u8;
            &&& m == "close"@ ==> d == crate::decode::Decoded::Close(v8)
            &&& m == "getupval"@ ==> d == crate::decode::Decoded::GetUp(v8)
            &&& m == "setupval"@ ==> d == crate::decode::Decoded::SetUp(v8)
            &&& m == "openupval"@ ==> d == crate::decode::Decoded::OpenUp(v8)
            &&& m == "tail"@ ==> d == crate::decode::Decoded::Tail(opt_operand(arg, 65535) as u16)
            &&& m == "nop"@ ==> d == crate::decode::Decoded::Nop
            &&& m == "ret"@ ==> d == crate::decode::Decoded::Ret
            &&& m == "throw"@ ==> d == crate::decode::Decoded::Throw
            &&& m == "strcmp"@ ==> d == crate::decode::Decoded::StrCmp
            &&& m == "newarr"@ ==> d == crate::decode::Decoded::NewArr(0)
            &&& m == "getfield"@ ==> d == crate::decode::Decoded::GetField(0)
        }),
{
    lemma_mnemonic_letters();
    let (a, b) = word_at(line, 0)->Some_0;
    let m = line.subrange(a as int, b as int);
    let arg: Option<Seq<char>> = match word_at(line, b) {
        Some((c, d)) => Some(line.subrange(c as int, d as int)),
        None => None,
    };
    let s2 = asm_instr(st, line, lineno)->Ok_0;
    let p = st.code.len() as int;
    if m == "tail"@ {
        let v = opt_operand(arg, 65535) as u16;
        assert(s2.code[p + 1] == (v % 256) as u8 && s2.code[p + 2] == (v / 256) as u8);
        assert(crate::decode::operand_u16(s2.code, p) == v);
    } else if m == "newarr"@ || m == "getfield"@ {
        assert(s2.code[p + 1] == 0 && s2.code[p + 2] == 0 && s2.code[p + 3] == 0);
    }
}

} // verus!
