//! Host-facing builtin helpers: the builtin registry, integer operators and hashes.
use vstd::prelude::*;
use crate::bitvec::{word_bit, word_bits, word_popcount};
use crate::error::{Error, Result};
use crate::gc::count_true;
use crate::module::{FnModel, Function, Module, strings_view};
use crate::optimize::constfold::fnv_step;
use crate::text::{dec_nat, push_dec, str_eq};

verus! {

#[derive(Clone, Debug, Default)]
pub struct BuiltinRegistry {
    names: Vec<&'static str>,
    arities: Vec<u8>,
}

/// Whether some entry of `es` is named `name`.
pub open spec fn has_name(es: Seq<(Seq<char>, u8)>, name: Seq<char>) -> bool {
    exists|i: int| 0 <= i < es.len() && (#[trigger] es[i]).0 == name
}

/// `es` after registering `name`: appended unless already present.
pub open spec fn registered(es: Seq<(Seq<char>, u8)>, name: Seq<char>, arity: u8) -> Seq<(Seq<char>, u8)> {
    if has_name(es, name) { es } else { es.push((name, arity)) }
}

/// `es` after registering each of `list` in order.
pub open spec fn register_all(es: Seq<(Seq<char>, u8)>, list: Seq<(Seq<char>, u8)>) -> Seq<(Seq<char>, u8)>
    decreases list.len(),
{
    if list.len() == 0 {
        es
    } else {
        let prev = register_all(es, list.drop_last());
        registered(prev, list.last().0, list.last().1)
    }
}

/// The standard builtins with their arities, in registration order.
pub open spec fn standard_list() -> Seq<(Seq<char>, u8)> {
    seq![
        ("print"@, 1u8), ("len"@, 1u8), ("hash"@, 1u8), ("assert"@, 1u8), ("add"@, 2u8), ("sub"@, 2u8),
        ("mul"@, 2u8), ("div"@, 2u8), ("eq"@, 2u8), ("lt"@, 2u8), ("lte"@, 2u8), ("gt"@, 2u8), ("gte"@, 2u8),
        ("and"@, 2u8), ("or"@, 2u8), ("not"@, 1u8), ("str_len"@, 1u8), ("str_eq"@, 2u8), ("concat"@, 2u8),
        ("arr_len"@, 1u8), ("arr_get"@, 2u8), ("arr_set"@, 3u8), ("clock"@, 0u8), ("rand"@, 0u8), ("id"@, 1u8),
    ]
}

/// Position of the first entry named `name`.
pub open spec fn first_named(es: Seq<(Seq<char>, u8)>, name: Seq<char>, i: nat) -> Option<usize>
    decreases es.len() - i,
{
    if i >= es.len() {
        None
    } else if es[i as int].0 == name {
        Some(i as usize)
    } else {
        first_named(es, name, i + 1)
    }
}

/// No two entries share a name.
pub open spec fn distinct_names(es: Seq<(Seq<char>, u8)>) -> bool {
    forall|i: int, j: int| 0 <= i < j < es.len() ==> (#[trigger] es[i]).0 != (#[trigger] es[j]).0
}

proof fn lemma_first_named_push_other(es: Seq<(Seq<char>, u8)>, x: (Seq<char>, u8), n: Seq<char>, i: nat)
    requires
        x.0 != n,
        i <= es.len(),
    ensures
        first_named(es.push(x), n, i) == first_named(es, n, i),
    decreases es.len() - i,
{
    if i < es.len() {
        assert(es.push(x)[i as int] == es[i as int]);
        lemma_first_named_push_other(es, x, n, i + 1);
    } else {
        assert(es.push(x)[i as int] == x);
        assert(first_named(es.push(x), n, i + 1) == None::<usize>);
    }
}

proof fn lemma_first_named_push_new(es: Seq<(Seq<char>, u8)>, x: (Seq<char>, u8), i: nat)
    requires
        !has_name(es, x.0),
        i <= es.len(),
        es.len() <= usize::MAX,
    ensures
        first_named(es.push(x), x.0, i) == Some(es.len() as usize),
    decreases es.len() - i,
{
    if i < es.len() {
        assert(es.push(x)[i as int] == es[i as int]);
        assert(es[i as int].0 != x.0);
        lemma_first_named_push_new(es, x, i + 1);
    } else {
        assert(es.push(x)[i as int] == x);
    }
}

/// Registration keeps names distinct and the first registration wins: registering a name
/// that is present changes nothing; registering a new name appends it with its arity, at
/// the position where a lookup then finds it, and leaves every other lookup as it was.
pub proof fn law_register_first_wins(es: Seq<(Seq<char>, u8)>, name: Seq<char>, arity: u8)
    requires
        distinct_names(es),
        es.len() <= usize::MAX,
    ensures
        distinct_names(registered(es, name, arity)),
        has_name(es, name) ==> registered(es, name, arity) == es,
        !has_name(es, name) ==> registered(es, name, arity).len() == es.len() + 1
            && first_named(registered(es, name, arity), name, 0) == Some(es.len() as usize)
            && registered(es, name, arity)[es.len() as int].1 == arity,
        forall|n: Seq<char>| n != name ==> #[trigger] first_named(registered(es, name, arity), n, 0) == first_named(es, n, 0),
{
    if !has_name(es, name) {
        let r = es.push((name, arity));
        assert forall|i: int, j: int| 0 <= i < j < r.len() implies (#[trigger] r[i]).0 != (#[trigger] r[j]).0 by {
            if j == es.len() {
                assert(r[i] == es[i]);
            } else {
                assert(r[i] == es[i] && r[j] == es[j]);
            }
        }
        lemma_first_named_push_new(es, (name, arity), 0);
        assert forall|n: Seq<char>| n != name implies #[trigger] first_named(r, n, 0) == first_named(es, n, 0) by {
            lemma_first_named_push_other(es, (name, arity), n, 0);
        }
    }
}

impl View for BuiltinRegistry {
    type V = Seq<(Seq<char>, u8)>;

    closed spec fn view(&self) -> Seq<(Seq<char>, u8)> {
        Seq::new(self.names@.len(), |i: int| (self.names@[i]@, self.arities@[i]))
    }
}

impl BuiltinRegistry {
    /// Names and arities correspond.
    pub closed spec fn wf(&self) -> bool {
        &&& self.names@.len() == self.arities@.len()
        &&& distinct_names(self@)
    }

    /// The names, in registration order.
    pub closed spec fn spec_names(&self) -> Seq<&'static str> {
        self.names@
    }

    /// An empty registry.
    fn empty() -> (r: Self)
        ensures
            r.wf(),
            r@ == Seq::<(Seq<char>, u8)>::empty(),
    {
        let r = BuiltinRegistry { names: Vec::new(), arities: Vec::new() };
        assert(r@ =~= Seq::<(Seq<char>, u8)>::empty());
        r
    }

    /// The standard builtins.
    pub fn standard() -> (r: Self)
        ensures
            r.wf(),
            r@ == register_all(Seq::empty(), standard_list()),
    {
        let names: [&'static str; 25] = [
            "print", "len", "hash", "assert", "add", "sub", "mul", "div", "eq", "lt", "lte", "gt", "gte", "and",
            "or", "not", "str_len", "str_eq", "concat", "arr_len", "arr_get", "arr_set", "clock", "rand", "id",
        ];
        let arities: [u8; 25] = [1, 1, 1, 1, 2, 2, 2, 2, 2, 2, 2, 2, 2, 2, 2, 1, 1, 2, 2, 1, 2, 3, 0, 0, 1];
        let ghost list = standard_list();
        assert(list.len() == 25);
        assert(forall|i: int| 0 <= i < 25 ==> #[trigger] list[i] == (names@[i]@, arities@[i]));
        let mut r = Self::empty();
        let mut i: usize = 0;
        assert(list.subrange(0, 0) =~= Seq::<(Seq<char>, u8)>::empty());
        while i < 25
            invariant
                i <= 25,
                list == standard_list(),
                list.len() == 25,
                forall|j: int| 0 <= j < 25 ==> #[trigger] list[j] == (names@[j]@, arities@[j]),
                r.wf(),
                r@ == register_all(Seq::empty(), list.subrange(0, i as int)),
            decreases 25 - i,
        {
            assert(list.subrange(0, i + 1).drop_last() =~= list.subrange(0, i as int));
            assert(list.subrange(0, i + 1).last() == list[i as int]);
            r.register(names[i], arities[i]);
            i += 1;
        }
        assert(list.subrange(0, 25) =~= list);
        r
    }

    /// Adds `name` with its arity unless a builtin of that name exists.
    pub fn register(&mut self, name: &'static str, arity: u8)
        requires
            old(self).wf(),
        ensures
            final(self).wf(),
            final(self)@ == registered(old(self)@, name@, arity),
    {
        let ghost es = self@;
        let mut i: usize = 0;
        let mut found = false;
        while i < self.names.len()
            invariant
                es == self@,
                self.wf(),
                i <= self.names@.len(),
                found ==> has_name(es, name@),
                !found ==> forall|j: int| 0 <= j < i ==> (#[trigger] es[j]).0 != name@,
            decreases self.names@.len() - i,
        {
            if !found && str_eq(self.names[i], name) {
                found = true;
                assert(es[i as int].0 == name@);
            }
            i += 1;
        }
        if !found {
            proof {
                law_register_first_wins(es, name@, arity);
            }
            self.names.push(name);
            self.arities.push(arity);
            assert(self@ =~= es.push((name@, arity)));
        }
    }

    /// Position and arity of the first builtin named `name`.
    pub fn lookup(&self, name: &str) -> (r: Option<(usize, u8)>)
        requires
            self.wf(),
        ensures
            r == (match first_named(self@, name@, 0) {
                Some(i) => Some((i, self@[i as int].1)),
                None => None::<(usize, u8)>,
            }),
    {
        let ghost es = self@;
        let mut i: usize = 0;
        while i < self.names.len()
            invariant
                es == self@,
                self.wf(),
                i <= self.names@.len(),
                first_named(es, name@, 0) == first_named(es, name@, i as nat),
            decreases self.names@.len() - i,
        {
            if str_eq(self.names[i], name) {
                return Some((i, self.arities[i]));
            }
            i += 1;
        }
        None
    }

    /// Number of builtins.
    pub fn len(&self) -> (r: usize)
        ensures
            r == self@.len(),
    {
        self.names.len()
    }

    /// The builtin names, in registration order.
    pub fn names(&self) -> (r: &[&'static str])
        ensures
            r@ == self.spec_names(),
            r@.len() == self@.len(),
            forall|i: int| 0 <= i < r@.len() ==> (#[trigger] r@[i])@ == self@[i].0,
    {
        self.names.as_slice()
    }

    /// The arity of builtin `idx`.
    pub fn arity_of(&self, idx: usize) -> (r: Option<u8>)
        requires
            self.wf(),
        ensures
            idx < self@.len() ==> r == Some(self@[idx as int].1),
            idx >= self@.len() ==> r is None,
    {
        if idx < self.arities.len() {
            Some(self.arities[idx])
        } else {
            None
        }
    }
}

/// `a / b` rounded toward zero.
pub open spec fn trunc_div(a: int, b: int) -> int {
    let q = (if a < 0 { -a } else { a }) / (if b < 0 { -b } else { b });
    if (a < 0) == (b < 0) { q } else { -q }
}

/// `1` for true, `0` for false.
pub open spec fn flag(b: bool) -> i64 {
    if b { 1 } else { 0 }
}

/// The binary integer operator named `op` on `a` and `b`, in wrapping arithmetic.
pub open spec fn binary_spec(op: Seq<char>, a: i64, b: i64) -> Result<i64> {
    if op == "add"@ {
        Ok(a.wrapping_add(b))
    } else if op == "sub"@ {
        Ok(a.wrapping_sub(b))
    } else if op == "mul"@ {
        Ok(a.wrapping_mul(b))
    } else if op == "div"@ {
        if b == 0 { Err(Error::VerifyFailed("div0")) } else { Ok(trunc_div(a as int, b as int) as i64) }
    } else if op == "mod"@ {
        if b == 0 {
            Err(Error::VerifyFailed("mod0"))
        } else {
            Ok((a - b * trunc_div(a as int, b as int)) as i64)
        }
    } else if op == "eq"@ {
        Ok(flag(a == b))
    } else if op == "lt"@ {
        Ok(flag(a < b))
    } else if op == "lte"@ {
        Ok(flag(a <= b))
    } else if op == "gt"@ {
        Ok(flag(a > b))
    } else if op == "gte"@ {
        Ok(flag(a >= b))
    } else if op == "and"@ {
        Ok(a & b)
    } else if op == "or"@ {
        Ok(a | b)
    } else if op == "xor"@ {
        Ok(a ^ b)
    } else if op == "shl"@ {
        Ok(a.wrapping_shl((b as u32) & 63))
    } else if op == "shr"@ {
        Ok(((a as u64) >> (((b as u32) & 63) as u64)) as i64)
    } else {
        Err(Error::VerifyFailed("unknown binary"))
    }
}

proof fn lemma_op_names()
    ensures
        "add"@.len() == 3 && "add"@[0] == 'a',
        "sub"@.len() == 3 && "sub"@[0] == 's',
        "mul"@.len() == 3 && "mul"@[0] == 'm',
        "div"@.len() == 3 && "div"@[0] == 'd',
        "mod"@.len() == 3 && "mod"@[0] == 'm' && "mod"@[1] == 'o' && "mul"@[1] == 'u',
        "eq"@.len() == 2 && "eq"@[0] == 'e',
        "lt"@.len() == 2 && "lt"@[0] == 'l',
        "lte"@.len() == 3 && "lte"@[0] == 'l',
        "gt"@.len() == 2 && "gt"@[0] == 'g',
        "gte"@.len() == 3 && "gte"@[0] == 'g',
        "and"@.len() == 3 && "and"@[0] == 'a' && "add"@[1] == 'd' && "and"@[1] == 'n',
        "or"@.len() == 2 && "or"@[0] == 'o',
        "xor"@.len() == 3 && "xor"@[0] == 'x',
        "shl"@.len() == 3 && "shl"@[0] == 's' && "shl"@[1] == 'h' && "sub"@[1] == 'u',
        "shr"@.len() == 3 && "shr"@[0] == 's' && "shr"@[2] == 'r' && "shl"@[2] == 'l',
{
    reveal_strlit("add");
    reveal_strlit("sub");
    reveal_strlit("mul");
    reveal_strlit("div");
    reveal_strlit("mod");
    reveal_strlit("eq");
    reveal_strlit("lt");
    reveal_strlit("lte");
    reveal_strlit("gt");
    reveal_strlit("gte");
    reveal_strlit("and");
    reveal_strlit("or");
    reveal_strlit("xor");
    reveal_strlit("shl");
    reveal_strlit("shr");
}

/// Integer division truncates toward zero and the remainder takes the dividend's sign:
/// for a non-zero divisor (other than `i64::MIN / -1`, which wraps), `div` gives `q` and
/// `mod` gives `r` with `a == q * b + r`, `|r| < |b|`, and `r` zero or of the sign of `a`;
/// a zero divisor is an error for both.
pub proof fn law_div_mod_truncate(a: i64, b: i64)
    ensures
        b == 0 ==> binary_spec("div"@, a, b) is Err && binary_spec("mod"@, a, b) is Err,
        b != 0 && !(a == i64::MIN && b == -1) ==> ({
            let q = binary_spec("div"@, a, b)->Ok_0 as int;
            let r = binary_spec("mod"@, a, b)->Ok_0 as int;
            &&& binary_spec("div"@, a, b) is Ok && binary_spec("mod"@, a, b) is Ok
            &&& a == q * b + r
            &&& (if r < 0 { -r } else { r }) < (if b < 0 { -b } else { b as int })
            &&& (r == 0 || (r < 0) == (a < 0))
        }),
{
    lemma_op_names();
    if b != 0 && !(a == i64::MIN && b == -1) {
        let aa: int = if a < 0 { -a } else { a as int };
        let bb: int = if b < 0 { -b } else { b as int };
        let q0 = aa / bb;
        let r0 = aa % bb;
        assert(aa == bb * q0 + r0 && 0 <= r0 < bb && 0 <= q0 <= aa) by (nonlinear_arith)
            requires
                aa >= 0,
                bb > 0,
                q0 == aa / bb,
                r0 == aa % bb,
        ;
        let q = trunc_div(a as int, b as int);
        assert(q == (if (a < 0) == (b < 0) { q0 } else { -q0 }));
        assert(q0 <= 0x8000_0000_0000_0000);
        if q0 == 0x8000_0000_0000_0000 {
            assert(aa == 0x8000_0000_0000_0000 && bb == 1) by (nonlinear_arith)
                requires
                    aa == bb * q0 + r0,
                    0 <= r0 < bb,
                    q0 == 0x8000_0000_0000_0000,
                    aa <= 0x8000_0000_0000_0000,
                    bb >= 1,
            ;
        }
        assert(i64::MIN <= q <= i64::MAX);
        let rr = a - b * q;
        assert(rr == (if a < 0 { -r0 } else { r0 })) by (nonlinear_arith)
            requires
                aa == bb * q0 + r0,
                aa == (if a < 0 { -a } else { a as int }),
                bb == (if b < 0 { -b } else { b as int }),
                q == (if (a < 0) == (b < 0) { q0 } else { -q0 }),
                rr == a - b * q,
        ;
        assert(binary_spec("div"@, a, b) == Ok::<i64, Error>(q as i64));
        assert(binary_spec("mod"@, a, b) == Ok::<i64, Error>(rr as i64));
        assert(a == q * b + rr) by (nonlinear_arith)
            requires
                rr == a - b * q,
        ;
    }
}

/// Arithmetic wraps modulo 2^64 and comparisons give 1 for true and 0 for false: `add`,
/// `sub` and `mul` agree with the exact result up to a multiple of 2^64, and `eq`, `lt`,
/// `lte`, `gt`, `gte` report the corresponding comparison of `a` and `b`.
pub proof fn law_arith_and_compare(a: i64, b: i64)
    ensures
        binary_spec("add"@, a, b) is Ok && (binary_spec("add"@, a, b)->Ok_0 - (a + b)) % 0x1_0000_0000_0000_0000 == 0,
        binary_spec("sub"@, a, b) is Ok && (binary_spec("sub"@, a, b)->Ok_0 - (a - b)) % 0x1_0000_0000_0000_0000 == 0,
        binary_spec("mul"@, a, b) is Ok && (binary_spec("mul"@, a, b)->Ok_0 - a * b) % 0x1_0000_0000_0000_0000 == 0,
        binary_spec("eq"@, a, b) == Ok::<i64, Error>(if a == b { 1 } else { 0 }),
        binary_spec("lt"@, a, b) == Ok::<i64, Error>(if a < b { 1 } else { 0 }),
        binary_spec("lte"@, a, b) == Ok::<i64, Error>(if a <= b { 1 } else { 0 }),
        binary_spec("gt"@, a, b) == Ok::<i64, Error>(if a > b { 1 } else { 0 }),
        binary_spec("gte"@, a, b) == Ok::<i64, Error>(if a >= b { 1 } else { 0 }),
{
    lemma_op_names();
    let s = a.wrapping_add(b);
    let d = a.wrapping_sub(b);
    let m = a.wrapping_mul(b);
    assert((s - (a + b)) % 0x1_0000_0000_0000_0000 == 0);
    assert((d - (a - b)) % 0x1_0000_0000_0000_0000 == 0);
    assert((m - a * b) % 0x1_0000_0000_0000_0000 == 0) by (nonlinear_arith)
        requires
            m == a.wrapping_mul(b),
    ;
}

/// Trailing zero bits of `x`, looking from bit `k` (64 when none is set).
pub open spec fn zeros_from_low(x: u64, k: nat) -> nat
    decreases 64 - k,
{
    if k >= 64 {
        64
    } else if word_bit(x, k as u64) {
        k
    } else {
        zeros_from_low(x, k + 1)
    }
}

/// Leading zero bits of `x`, having passed `k` of them (64 when none is set).
pub open spec fn zeros_from_high(x: u64, k: nat) -> nat
    decreases 64 - k,
{
    if k >= 64 {
        64
    } else if word_bit(x, (63 - k) as u64) {
        k
    } else {
        zeros_from_high(x, k + 1)
    }
}

/// The unary integer operator named `op` on `a`, in wrapping arithmetic.
pub open spec fn unary_spec(op: Seq<char>, a: i64) -> Result<i64> {
    if op == "not"@ {
        Ok(flag(a == 0))
    } else if op == "neg"@ {
        Ok(0i64.wrapping_sub(a))
    } else if op == "abs"@ {
        Ok(if a < 0 { 0i64.wrapping_sub(a) } else { a })
    } else if op == "id"@ {
        Ok(a)
    } else if op == "ctz"@ {
        Ok(zeros_from_low(a as u64, 0) as i64)
    } else if op == "clz"@ {
        Ok(zeros_from_high(a as u64, 0) as i64)
    } else if op == "popcnt"@ {
        Ok(count_true(word_bits(a as u64)) as i64)
    } else {
        Err(Error::VerifyFailed("unknown unary"))
    }
}

proof fn lemma_zeros_from_low(x: u64, k: nat)
    requires
        k <= 64,
    ensures
        k <= zeros_from_low(x, k) <= 64,
        forall|j: nat| k <= j < zeros_from_low(x, k) ==> !#[trigger] word_bit(x, j as u64),
        zeros_from_low(x, k) < 64 ==> word_bit(x, zeros_from_low(x, k) as u64),
    decreases 64 - k,
{
    if k < 64 && !word_bit(x, k as u64) {
        lemma_zeros_from_low(x, k + 1);
    }
}

/// `neg` negates and `abs` takes the magnitude (both wrapping at `i64::MIN`), `not` is 1
/// exactly for zero, and `ctz` counts the zero bits below the lowest set bit (64 for zero).
pub proof fn law_unary_meaning(a: i64)
    ensures
        unary_spec("neg"@, a) is Ok && (unary_spec("neg"@, a)->Ok_0 + a) % 0x1_0000_0000_0000_0000 == 0,
        a != i64::MIN ==> unary_spec("abs"@, a) == Ok::<i64, Error>((if a < 0 { -a } else { a as int }) as i64),
        unary_spec("not"@, a) == Ok::<i64, Error>(if a == 0 { 1 } else { 0 }),
        unary_spec("id"@, a) == Ok::<i64, Error>(a),
        ({
            let z = unary_spec("ctz"@, a)->Ok_0;
            &&& unary_spec("ctz"@, a) is Ok
            &&& 0 <= z <= 64
            &&& forall|j: nat| j < z ==> !#[trigger] word_bit(a as u64, j as u64)
            &&& z < 64 ==> word_bit(a as u64, z as u64)
        }),
{
    reveal_strlit("not");
    reveal_strlit("neg");
    reveal_strlit("abs");
    reveal_strlit("id");
    reveal_strlit("ctz");
    reveal_strlit("clz");
    reveal_strlit("popcnt");
    assert("not"@.len() == 3 && "not"@[0] == 'n' && "not"@[1] == 'o');
    assert("neg"@.len() == 3 && "neg"@[0] == 'n' && "neg"@[1] == 'e');
    assert("abs"@.len() == 3 && "abs"@[0] == 'a');
    assert("id"@.len() == 2);
    assert("ctz"@.len() == 3 && "ctz"@[0] == 'c' && "ctz"@[1] == 't');
    assert("clz"@.len() == 3 && "clz"@[0] == 'c' && "clz"@[1] == 'l');
    assert("popcnt"@.len() == 6);
    let n = 0i64.wrapping_sub(a);
    assert((n + a) % 0x1_0000_0000_0000_0000 == 0);
    lemma_zeros_from_low(a as u64, 0);
}

/// A 64-bit mix of `v`: multiply-add, xor-shift, multiply, xor-shift.
pub open spec fn spec_hash_i64(v: i64) -> u64 {
    let x1 = (v as u64).wrapping_mul(0x9E3779B97F4A7C15).wrapping_add(0x85EBCA77C2B2AE63);
    let x2 = x1 ^ (x1 >> 33u64);
    let x3 = x2.wrapping_mul(0xFF51AFD7ED558CCD);
    x3 ^ (x3 >> 33u64)
}

/// FNV-1a over `data`.
pub open spec fn spec_hash_bytes(data: Seq<u8>) -> u64
    decreases data.len(),
{
    if data.len() == 0 {
        0xcbf29ce484222325
    } else {
        fnv_step(spec_hash_bytes(data.drop_last()), data.last() as u64)
    }
}

/// Whether `op` names a binary operator.
pub open spec fn is_binary_name(op: Seq<char>) -> bool {
    op == "add"@ || op == "sub"@ || op == "mul"@ || op == "div"@ || op == "mod"@ || op == "eq"@ || op == "lt"@
        || op == "lte"@ || op == "gt"@ || op == "gte"@ || op == "and"@ || op == "or"@ || op == "xor"@ || op
        == "shl"@ || op == "shr"@
}

/// Whether `op` names a unary operator.
pub open spec fn is_unary_name(op: Seq<char>) -> bool {
    op == "not"@ || op == "neg"@ || op == "abs"@ || op == "id"@ || op == "ctz"@ || op == "clz"@ || op == "popcnt"@
}

/// The value of the constant expression `op(args)`.
pub open spec fn const_expr_spec(op: Seq<char>, args: Seq<i64>) -> Result<i64> {
    if is_binary_name(op) && args.len() == 2 {
        binary_spec(op, args[0], args[1])
    } else if is_unary_name(op) && args.len() == 1 {
        unary_spec(op, args[0])
    } else if op == "hash"@ && args.len() == 1 {
        Ok(spec_hash_i64(args[0]) as i64)
    } else {
        Err(Error::VerifyFailed("bad const expr"))
    }
}

/// The values of the expressions, or the first error.
pub open spec fn fold_list_spec(ops: Seq<(Seq<char>, Seq<i64>)>) -> Result<Seq<i64>>
    decreases ops.len(),
{
    if ops.len() == 0 {
        Ok(Seq::empty())
    } else {
        match fold_list_spec(ops.drop_last()) {
            Err(e) => Err(e),
            Ok(vs) => match const_expr_spec(ops.last().0, ops.last().1) {
                Err(e) => Err(e),
                Ok(v) => Ok(vs.push(v)),
            },
        }
    }
}

/// `builtins=<n>`, then `  [<i>] <name>/<arity>` per builtin, each line ending in a newline.
pub open spec fn builtin_lines(es: Seq<(Seq<char>, u8)>) -> Seq<char>
    decreases es.len(),
{
    if es.len() == 0 {
        Seq::empty()
    } else {
        builtin_lines(es.drop_last()) + "  ["@ + dec_nat((es.len() - 1) as nat) + "] "@ + es.last().0 + "/"@
            + dec_nat(es.last().1 as nat) + "\n"@
    }
}

/// The summary of a registry.
pub open spec fn builtins_text(es: Seq<(Seq<char>, u8)>) -> Seq<char> {
    "builtins="@ + dec_nat(es.len()) + "\n"@ + builtin_lines(es)
}

fn magnitude(a: i64) -> (r: u128)
    ensures
        r == (if a < 0 { -(a as int) } else { a as int }),
{
    if a < 0 {
        (-(a as i128)) as u128
    } else {
        a as u128
    }
}

fn div_toward_zero(a: i64, b: i64) -> (r: i128)
    requires
        b != 0,
    ensures
        r == trunc_div(a as int, b as int),
        -0x8000_0000_0000_0000 <= r <= 0x8000_0000_0000_0000,
{
    let ua = magnitude(a);
    let ub = magnitude(b);
    let q = ua / ub;
    assert(q <= ua) by (nonlinear_arith)
        requires
            ub >= 1,
            q == ua / ub,
    ;
    if (a < 0) == (b < 0) {
        q as i128
    } else {
        -(q as i128)
    }
}

fn name_is(op: &str, lit: &str) -> (r: bool)
    ensures
        r == (op@ == lit@),
{
    str_eq(op, lit)
}

/// The binary integer operator named `op`: wrapping add, sub, mul, div, mod (an error on
/// a zero divisor), comparisons as 0 or 1, bitwise and, or, xor, and shifts by the low six
/// bits of `b`.
pub fn binary_int(op: &str, a: i64, b: i64) -> (r: Result<i64>)
    ensures
        r == binary_spec(op@, a, b),
{
    if name_is(op, "add") {
        Ok(a.wrapping_add(b))
    } else if name_is(op, "sub") {
        Ok(a.wrapping_sub(b))
    } else if name_is(op, "mul") {
        Ok(a.wrapping_mul(b))
    } else if name_is(op, "div") {
        if b == 0 {
            return Err(Error::VerifyFailed("div0"));
        }
        Ok(div_toward_zero(a, b) as i64)
    } else if name_is(op, "mod") {
        if b == 0 {
            return Err(Error::VerifyFailed("mod0"));
        }
        let q = div_toward_zero(a, b);
        assert(-0x4000_0000_0000_0000_0000_0000_0000_0000 <= (b as int) * (q as int)
            <= 0x4000_0000_0000_0000_0000_0000_0000_0000) by (nonlinear_arith)
            requires
                -0x8000_0000_0000_0000 <= b <= 0x8000_0000_0000_0000,
                -0x8000_0000_0000_0000 <= q <= 0x8000_0000_0000_0000,
        ;
        Ok(((a as i128) - (b as i128) * q) as i64)
    } else if name_is(op, "eq") {
        Ok(if a == b { 1 } else { 0 })
    } else if name_is(op, "lt") {
        Ok(if a < b { 1 } else { 0 })
    } else if name_is(op, "lte") {
        Ok(if a <= b { 1 } else { 0 })
    } else if name_is(op, "gt") {
        Ok(if a > b { 1 } else { 0 })
    } else if name_is(op, "gte") {
        Ok(if a >= b { 1 } else { 0 })
    } else if name_is(op, "and") {
        Ok(a & b)
    } else if name_is(op, "or") {
        Ok(a | b)
    } else if name_is(op, "xor") {
        Ok(a ^ b)
    } else if name_is(op, "shl") {
        Ok(a.wrapping_shl((b as u32) & 63))
    } else if name_is(op, "shr") {
        let bb = b as u32;
        assert(bb & 63 < 64) by (bit_vector);
        Ok(((a as u64) >> ((bb & 63) as u64)) as i64)
    } else {
        Err(Error::VerifyFailed("unknown binary"))
    }
}

fn trailing_zeros(x: u64) -> (r: u32)
    ensures
        r == zeros_from_low(x, 0),
{
    let mut k: u64 = 0;
    while k < 64 && (x >> k) & 1u64 != 1u64
        invariant
            k <= 64,
            zeros_from_low(x, 0) == zeros_from_low(x, k as nat),
        decreases 64 - k,
    {
        k += 1;
    }
    k as u32
}

fn leading_zeros(x: u64) -> (r: u32)
    ensures
        r == zeros_from_high(x, 0),
{
    let mut k: u64 = 0;
    while k < 64 && (x >> (63 - k)) & 1u64 != 1u64
        invariant
            k <= 64,
            zeros_from_high(x, 0) == zeros_from_high(x, k as nat),
        decreases 64 - k,
    {
        k += 1;
    }
    k as u32
}

/// The unary integer operator named `op`: logical not as 0 or 1, wrapping negation and
/// absolute value, identity, and the trailing-zero, leading-zero and set-bit counts of the
/// 64-bit pattern.
pub fn unary_int(op: &str, a: i64) -> (r: Result<i64>)
    ensures
        r == unary_spec(op@, a),
{
    if name_is(op, "not") {
        Ok(if a == 0 { 1 } else { 0 })
    } else if name_is(op, "neg") {
        Ok(0i64.wrapping_sub(a))
    } else if name_is(op, "abs") {
        Ok(if a < 0 { 0i64.wrapping_sub(a) } else { a })
    } else if name_is(op, "id") {
        Ok(a)
    } else if name_is(op, "ctz") {
        Ok(trailing_zeros(a as u64) as i64)
    } else if name_is(op, "clz") {
        Ok(leading_zeros(a as u64) as i64)
    } else if name_is(op, "popcnt") {
        Ok(word_popcount(a as u64) as i64)
    } else {
        Err(Error::VerifyFailed("unknown unary"))
    }
}

/// A 64-bit mix of the value's bit pattern.
pub fn hash_i64(v: i64) -> (r: u64)
    ensures
        r == spec_hash_i64(v),
{
    let mut x = v as u64;
    x = x.wrapping_mul(0x9E3779B97F4A7C15).wrapping_add(0x85EBCA77C2B2AE63);
    x = x ^ (x >> 33u64);
    x = x.wrapping_mul(0xFF51AFD7ED558CCD);
    x = x ^ (x >> 33u64);
    x
}

/// FNV-1a over the bytes.
pub fn hash_bytes(data: &[u8]) -> (r: u64)
    ensures
        r == spec_hash_bytes(data@),
{
    let mut h: u64 = 0xcbf29ce484222325;
    let mut i: usize = 0;
    assert(data@.subrange(0, 0) =~= Seq::<u8>::empty());
    while i < data.len()
        invariant
            i <= data@.len(),
            h == spec_hash_bytes(data@.subrange(0, i as int)),
        decreases data@.len() - i,
    {
        assert(data@.subrange(0, i + 1).drop_last() =~= data@.subrange(0, i as int));
        h = (h ^ (data[i] as u64)).wrapping_mul(0x100000001b3);
        i += 1;
    }
    assert(data@.subrange(0, i as int) =~= data@);
    h
}

/// The names of the module's functions, in order.
pub fn module_exports(m: &Module) -> (r: Vec<String>)
    ensures
        strings_view(r@) == m@.map_values(|f: FnModel| f.name),
{
    let mut out: Vec<String> = Vec::new();
    let mut i: usize = 0;
    while i < m.functions.len()
        invariant
            i <= m.functions@.len(),
            out@.len() == i,
            forall|j: int| 0 <= j < i ==> (#[trigger] out@[j])@ == m.functions@[j].name@,
        decreases m.functions@.len() - i,
    {
        let mut s = String::new();
        s.append(m.functions[i].name.as_str());
        out.push(s);
        i += 1;
    }
    assert(strings_view(out@) =~= m@.map_values(|f: FnModel| f.name));
    out
}

/// The local count, capped at eight.
pub fn function_arity_hint(f: &Function) -> (r: u16)
    ensures
        r == (if f.max_locals < 8 { f.max_locals } else { 8 }),
{
    if f.max_locals < 8 { f.max_locals } else { 8 }
}

/// `builtins=<n>` and a line `  [<i>] <name>/<arity>` per builtin.
pub fn summarize_builtins(r: &BuiltinRegistry) -> (s: String)
    requires
        r.wf(),
    ensures
        s@ == builtins_text(r@),
{
    let ghost es = r@;
    let mut s = String::new();
    s.append("builtins=");
    push_dec(&mut s, r.len() as u64);
    s.append("\n");
    let ghost head = s@;
    let names = r.names();
    let mut i: usize = 0;
    assert(es.subrange(0, 0) =~= Seq::<(Seq<char>, u8)>::empty());
    while i < names.len()
        invariant
            es == r@,
            r.wf(),
            names@.len() == es.len(),
            forall|j: int| 0 <= j < names@.len() ==> (#[trigger] names@[j])@ == es[j].0,
            i <= es.len(),
            s@ == head + builtin_lines(es.subrange(0, i as int)),
        decreases es.len() - i,
    {
        assert(es.subrange(0, i + 1).drop_last() =~= es.subrange(0, i as int));
        s.append("  [");
        push_dec(&mut s, i as u64);
        s.append("] ");
        s.append(names[i]);
        s.append("/");
        let a = match r.arity_of(i) {
            Some(a) => a,
            None => 0,
        };
        push_dec(&mut s, a as u64);
        s.append("\n");
        i += 1;
        assert(s@ =~= head + builtin_lines(es.subrange(0, i as int)));
    }
    assert(es.subrange(0, i as int) =~= es);
    s
}

fn is_binary_op(op: &str) -> (r: bool)
    ensures
        r == is_binary_name(op@),
{
    name_is(op, "add") || name_is(op, "sub") || name_is(op, "mul") || name_is(op, "div") || name_is(op, "mod")
        || name_is(op, "eq") || name_is(op, "lt") || name_is(op, "lte") || name_is(op, "gt") || name_is(op, "gte")
        || name_is(op, "and") || name_is(op, "or") || name_is(op, "xor") || name_is(op, "shl") || name_is(op, "shr")
}

fn is_unary_op(op: &str) -> (r: bool)
    ensures
        r == is_unary_name(op@),
{
    name_is(op, "not") || name_is(op, "neg") || name_is(op, "abs") || name_is(op, "id") || name_is(op, "ctz")
        || name_is(op, "clz") || name_is(op, "popcnt")
}

/// Evaluates `op` over `args`: a binary operator with two arguments, a unary one with one,
/// or `hash` with one; anything else is an error.
pub fn eval_const_expr(op: &str, args: &[i64]) -> (r: Result<i64>)
    ensures
        r == const_expr_spec(op@, args@),
{
    if is_binary_op(op) && args.len() == 2 {
        binary_int(op, args[0], args[1])
    } else if is_unary_op(op) && args.len() == 1 {
        unary_int(op, args[0])
    } else if name_is(op, "hash") && args.len() == 1 {
        Ok(hash_i64(args[0]) as i64)
    } else {
        Err(Error::VerifyFailed("bad const expr"))
    }
}

/// Evaluates each expression in order; stops at the first error.
pub fn fold_const_list(ops: &[(&str, Vec<i64>)]) -> (r: Result<Vec<i64>>)
    ensures
        match r {
            Ok(v) => fold_list_spec(ops@.map_values(|p: (&str, Vec<i64>)| (p.0@, p.1@))) == Ok::<Seq<i64>, Error>(v@),
            Err(e) => fold_list_spec(ops@.map_values(|p: (&str, Vec<i64>)| (p.0@, p.1@))) == Err::<Seq<i64>, Error>(e),
        },
{
    let ghost ms = ops@.map_values(|p: (&str, Vec<i64>)| (p.0@, p.1@));
    let mut out: Vec<i64> = Vec::new();
    let mut i: usize = 0;
    assert(ms.subrange(0, 0) =~= Seq::<(Seq<char>, Seq<i64>)>::empty());
    while i < ops.len()
        invariant
            ms == ops@.map_values(|p: (&str, Vec<i64>)| (p.0@, p.1@)),
            i <= ops@.len(),
            fold_list_spec(ms.subrange(0, i as int)) == Ok::<Seq<i64>, Error>(out@),
        decreases ops@.len() - i,
    {
        assert(ms.subrange(0, i + 1).drop_last() =~= ms.subrange(0, i as int));
        assert(ms[i as int] == (ops@[i as int].0@, ops@[i as int].1@));
        let (op, args) = &ops[i];
        match eval_const_expr(op, args.as_slice()) {
            Ok(v) => out.push(v),
            Err(e) => {
                proof {
                    lemma_fold_err_sticks(ms, i as int + 1, e);
                }
                return Err(e);
            },
        }
        i += 1;
    }
    assert(ms.subrange(0, i as int) =~= ms);
    Ok(out)
}

proof fn lemma_fold_err_sticks(ms: Seq<(Seq<char>, Seq<i64>)>, k: int, e: Error)
    requires
        0 <= k <= ms.len(),
        fold_list_spec(ms.subrange(0, k)) == Err::<Seq<i64>, Error>(e),
    ensures
        fold_list_spec(ms) == Err::<Seq<i64>, Error>(e),
    decreases ms.len() - k,
{
    if k < ms.len() {
        assert(ms.subrange(0, k + 1).drop_last() =~= ms.subrange(0, k));
        lemma_fold_err_sticks(ms, k + 1, e);
    } else {
        assert(ms.subrange(0, k) =~= ms);
    }
}

} // verus!
