//! Verified text rendering primitives: decimal and hexadecimal numerals and padding.
use vstd::prelude::*;
use vstd::string::*;

verus! {

/// The character of a digit value below 16 (upper-case hex letters when `upper`).
pub open spec fn digit_char(d: nat, upper: bool) -> char {
    if d < 10 {
        (('0' as nat) + d) as char
    } else if upper {
        (('A' as nat) + (d - 10)) as char
    } else {
        (('a' as nat) + (d - 10)) as char
    }
}

/// Digits of `n` in `base` (2..=16), most significant first, no leading zeros ("0" for zero).
pub open spec fn numeral(n: nat, base: nat, upper: bool) -> Seq<char>
    recommends
        2 <= base <= 16,
    decreases n,
{
    if base < 2 || n < base {
        seq![digit_char(n % 16, upper)]
    } else {
        proof {
            assert(n / base < n) by (nonlinear_arith)
                requires
                    n >= base,
                    base >= 2,
            ;
        }
        numeral(n / base, base, upper).push(digit_char(n % base, upper))
    }
}

/// Decimal rendering of a natural number.
pub open spec fn dec_nat(n: nat) -> Seq<char> {
    numeral(n, 10, true)
}

/// Decimal rendering of an integer, with a leading '-' when negative.
pub open spec fn dec_int(i: int) -> Seq<char> {
    if i < 0 {
        seq!['-'] + dec_nat((-i) as nat)
    } else {
        dec_nat(i as nat)
    }
}

/// Decimal rendering with an explicit sign ('+' for zero and positive values).
pub open spec fn dec_signed(i: int) -> Seq<char> {
    if i < 0 {
        dec_int(i)
    } else {
        seq!['+'] + dec_nat(i as nat)
    }
}

/// `k` copies of the character `c`.
pub open spec fn repeat(c: char, k: nat) -> Seq<char> {
    Seq::new(k, |i: int| c)
}

/// `s` preceded by `c` until it is at least `width` characters long.
pub open spec fn pad_left(s: Seq<char>, width: nat, c: char) -> Seq<char> {
    if s.len() < width {
        repeat(c, (width - s.len()) as nat) + s
    } else {
        s
    }
}

/// `s` followed by spaces until it is at least `width` characters long.
pub open spec fn pad_right(s: Seq<char>, width: nat) -> Seq<char> {
    if s.len() < width {
        s + repeat(' ', (width - s.len()) as nat)
    } else {
        s
    }
}

/// Hexadecimal rendering of `n`, zero-padded to at least `width` digits.
pub open spec fn hex(n: nat, width: nat, upper: bool) -> Seq<char> {
    pad_left(numeral(n, 16, upper), width, '0')
}

/// A one-character string literal holding the given digit.
pub fn digit_str(d: u64, upper: bool) -> (s: &'static str)
    requires
        d < 16,
    ensures
        s@ == seq![digit_char(d as nat, upper)],
{
    let s = match d {
        0 => "0",
        1 => "1",
        2 => "2",
        3 => "3",
        4 => "4",
        5 => "5",
        6 => "6",
        7 => "7",
        8 => "8",
        9 => "9",
        10 => if upper { "A" } else { "a" },
        11 => if upper { "B" } else { "b" },
        12 => if upper { "C" } else { "c" },
        13 => if upper { "D" } else { "d" },
        14 => if upper { "E" } else { "e" },
        _ => if upper { "F" } else { "f" },
    };
    proof {
        reveal_strlit("0");
        reveal_strlit("1");
        reveal_strlit("2");
        reveal_strlit("3");
        reveal_strlit("4");
        reveal_strlit("5");
        reveal_strlit("6");
        reveal_strlit("7");
        reveal_strlit("8");
        reveal_strlit("9");
        reveal_strlit("A");
        reveal_strlit("B");
        reveal_strlit("C");
        reveal_strlit("D");
        reveal_strlit("E");
        reveal_strlit("F");
        reveal_strlit("a");
        reveal_strlit("b");
        reveal_strlit("c");
        reveal_strlit("d");
        reveal_strlit("e");
        reveal_strlit("f");
    }
    s
}

/// Appends the digits of `v` in `base`.
pub fn push_numeral(out: &mut String, v: u64, base: u64, upper: bool)
    requires
        2 <= base <= 16,
    ensures
        final(out)@ == old(out)@ + numeral(v as nat, base as nat, upper),
    decreases v,
{
    if v >= base {
        assert(v / base < v) by (nonlinear_arith)
            requires
                v >= base,
                base >= 2,
        ;
        push_numeral(out, v / base, base, upper);
    }
    out.append(digit_str(v % base, upper));
    proof {
        if v >= base {
            assert(numeral(v as nat, base as nat, upper) == numeral((v / base) as nat, base as nat, upper).push(
                digit_char((v % base) as nat, upper),
            ));
        } else {
            assert(v % base == v && v % 16 == v) by (nonlinear_arith)
                requires
                    v < base,
                    base <= 16,
            ;
        }
    }
}

/// Number of digits of `v` in `base`.
pub fn numeral_len(v: u64, base: u64) -> (r: u64)
    requires
        2 <= base <= 16,
    ensures
        r as nat == numeral(v as nat, base as nat, true).len(),
        forall|u: bool| numeral(v as nat, base as nat, u).len() == r as nat,
        1 <= r <= v as nat + 1,
    decreases v,
{
    if v >= base {
        assert(v / base + 1 <= v && v / base + 2 <= 0xffff_ffff_ffff_ffff) by (nonlinear_arith)
            requires
                v >= base,
                base >= 2,
                v <= 0xffff_ffff_ffff_ffff,
        ;
        let k = numeral_len(v / base, base);
        assert forall|u: bool| numeral(v as nat, base as nat, u).len() == k + 1 by {
            assert(numeral(v as nat, base as nat, u) == numeral((v / base) as nat, base as nat, u).push(
                digit_char((v % base) as nat, u),
            ));
        }
        k + 1
    } else {
        1
    }
}

/// Appends one character. Wraps `String::push`, which adds `c` at the end.
#[verifier::external_body]
pub(crate) fn push_char(out: &mut String, c: char)
    ensures
        final(out)@ == old(out)@.push(c),
{
    out.push(c);
}

/// Appends the decimal digits of `v`.
pub fn push_dec(out: &mut String, v: u64)
    ensures
        final(out)@ == old(out)@ + dec_nat(v as nat),
{
    push_numeral(out, v, 10, true);
}

/// Appends the decimal rendering of a signed value.
pub fn push_int(out: &mut String, v: i64)
    ensures
        final(out)@ == old(out)@ + dec_int(v as int),
{
    if v < 0 {
        out.append("-");
        proof {
            reveal_strlit("-");
        }
        let m: u64 = if v == i64::MIN {
            0x8000_0000_0000_0000u64
        } else {
            (-v) as u64
        };
        push_dec(out, m);
        assert(final(out)@ =~= old(out)@ + dec_int(v as int));
    } else {
        push_dec(out, v as u64);
    }
}

/// Appends the explicitly signed decimal rendering of `v`.
pub fn push_signed(out: &mut String, v: i64)
    ensures
        final(out)@ == old(out)@ + dec_signed(v as int),
{
    if v < 0 {
        push_int(out, v);
    } else {
        out.append("+");
        proof {
            reveal_strlit("+");
        }
        push_dec(out, v as u64);
        assert(final(out)@ =~= old(out)@ + dec_signed(v as int));
    }
}

/// Appends `k` copies of the one-character string `c`.
pub fn push_repeat(out: &mut String, c: &str, k: usize)
    requires
        c@.len() == 1,
    ensures
        final(out)@ == old(out)@ + repeat(c@[0], k as nat),
{
    let mut i: usize = 0;
    while i < k
        invariant
            i <= k,
            c@.len() == 1,
            out@ == old(out)@ + repeat(c@[0], i as nat),
        decreases k - i,
    {
        out.append(c);
        i += 1;
        assert(out@ =~= old(out)@ + repeat(c@[0], i as nat));
    }
}

/// Appends the hexadecimal rendering of `v`, zero-padded to `width` digits.
pub fn push_hex(out: &mut String, v: u64, width: usize, upper: bool)
    ensures
        final(out)@ == old(out)@ + hex(v as nat, width as nat, upper),
{
    let n = numeral_len(v, 16);
    if n < width as u64 {
        proof {
            reveal_strlit("0");
        }
        push_repeat(out, "0", width - n as usize);
    }
    push_numeral(out, v, 16, upper);
    assert(final(out)@ =~= old(out)@ + hex(v as nat, width as nat, upper));
}

/// Appends `s`, followed by spaces up to `width` characters.
pub fn push_padded_right(out: &mut String, s: &str, width: usize)
    ensures
        final(out)@ == old(out)@ + pad_right(s@, width as nat),
{
    out.append(s);
    let n = s.unicode_len();
    if n < width {
        proof {
            reveal_strlit(" ");
        }
        push_repeat(out, " ", width - n);
    }
    assert(final(out)@ =~= old(out)@ + pad_right(s@, width as nat));
}

/// Appends `s`, preceded by spaces up to `width` characters.
pub fn push_padded_left(out: &mut String, s: &str, width: usize)
    ensures
        final(out)@ == old(out)@ + pad_left(s@, width as nat, ' '),
{
    let n = s.unicode_len();
    if n < width {
        proof {
            reveal_strlit(" ");
        }
        push_repeat(out, " ", width - n);
    }
    out.append(s);
    assert(final(out)@ =~= old(out)@ + pad_left(s@, width as nat, ' '));
}

/// Whether two strings hold the same characters.
pub fn str_eq(a: &str, b: &str) -> (r: bool)
    ensures
        r == (a@ == b@),
{
    let n = a.unicode_len();
    if n != b.unicode_len() {
        return false;
    }
    let mut i: usize = 0;
    while i < n
        invariant
            i <= n,
            n == a@.len(),
            n == b@.len(),
            forall|j: int| 0 <= j < i ==> a@[j] == b@[j],
        decreases n - i,
    {
        if a.get_char(i) != b.get_char(i) {
            return false;
        }
        i += 1;
    }
    assert(a@ =~= b@);
    true
}

/// A numeral has at least one digit, and at least two when the value reaches the base.
pub proof fn lemma_numeral_len(n: nat, base: nat, upper: bool)
    ensures
        numeral(n, base, upper).len() >= 1,
        n < base ==> numeral(n, base, upper).len() == 1,
        2 <= base <= n ==> numeral(n, base, upper).len() >= 2,
    decreases n,
{
    if base >= 2 && n >= base {
        assert(n / base < n) by (nonlinear_arith)
            requires
                n >= base,
                base >= 2,
        ;
        lemma_numeral_len(n / base, base, upper);
    }
}


/// Items of a list of naturals in decimal, separated by ", ".
pub open spec fn list_items(s: Seq<usize>) -> Seq<char>
    decreases s.len(),
{
    if s.len() == 0 {
        Seq::empty()
    } else if s.len() == 1 {
        dec_nat(s[0] as nat)
    } else {
        list_items(s.drop_last()) + ", "@ + dec_nat(s.last() as nat)
    }
}

/// A list of naturals in brackets, as `{:?}` renders a `Vec<usize>`.
pub open spec fn list_text(s: Seq<usize>) -> Seq<char> {
    "["@ + list_items(s) + "]"@
}

/// Appends the bracketed list of `items`.
pub fn push_usize_list(out: &mut String, items: &[usize])
    ensures
        final(out)@ == old(out)@ + list_text(items@),
{
    proof {
        reveal_strlit("[");
        reveal_strlit("]");
        reveal_strlit(", ");
    }
    out.append("[");
    let ghost base = out@;
    let mut i: usize = 0;
    assert(items@.subrange(0, 0) =~= Seq::<usize>::empty());
    while i < items.len()
        invariant
            i <= items@.len(),
            out@ == base + list_items(items@.subrange(0, i as int)),
        decreases items@.len() - i,
    {
        let ghost pre = items@.subrange(0, i as int);
        assert(items@.subrange(0, i + 1).drop_last() =~= pre);
        if i > 0 {
            out.append(", ");
        }
        push_dec(out, items[i] as u64);
        proof {
            if i == 0 {
                assert(out@ =~= base + list_items(items@.subrange(0, 1)));
            } else {
                assert(out@ =~= base + list_items(items@.subrange(0, i + 1)));
            }
        }
        i += 1;
    }
    assert(items@.subrange(0, i as int) =~= items@);
    out.append("]");
    assert(final(out)@ =~= old(out)@ + list_text(items@));
}

} // verus!
