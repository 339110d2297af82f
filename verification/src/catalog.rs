//! Descriptive metadata for proposed opcodes, consumed by documentation and tooling.
use vstd::prelude::*;
use crate::text::{dec_nat, pad_left, pad_right, push_dec, push_padded_right, str_eq};

verus! {

#[derive(Clone, Copy, Debug)]
pub struct CatalogEntry {
    pub id: u16,
    pub name: &'static str,
    pub meaning: &'static str,
    pub stack_in: u8,
    pub stack_out: u8,
    pub purity: bool,
}

pub fn catalog_00_arithmetic_add() -> (r: CatalogEntry)
    ensures
        r == (CatalogEntry { id: 0, name: "arithmetic_add", meaning: "integer addition on stack tops", stack_in: 0, stack_out: 1, purity: true }),
{
    CatalogEntry { id: 0, name: "arithmetic_add", meaning: "integer addition on stack tops", stack_in: 0, stack_out: 1, purity: true }
}

pub fn catalog_01_arithmetic_sub() -> (r: CatalogEntry)
    ensures
        r == (CatalogEntry { id: 1, name: "arithmetic_sub", meaning: "integer subtraction", stack_in: 1, stack_out: 2, purity: false }),
{
    CatalogEntry { id: 1, name: "arithmetic_sub", meaning: "integer subtraction", stack_in: 1, stack_out: 2, purity: false }
}

pub fn catalog_02_arithmetic_mul() -> (r: CatalogEntry)
    ensures
        r == (CatalogEntry { id: 2, name: "arithmetic_mul", meaning: "integer multiplication", stack_in: 2, stack_out: 1, purity: true }),
{
    CatalogEntry { id: 2, name: "arithmetic_mul", meaning: "integer multiplication", stack_in: 2, stack_out: 1, purity: true }
}

pub fn catalog_03_arithmetic_div() -> (r: CatalogEntry)
    ensures
        r == (CatalogEntry { id: 3, name: "arithmetic_div", meaning: "integer division with zero check", stack_in: 0, stack_out: 2, purity: false }),
{
    CatalogEntry { id: 3, name: "arithmetic_div", meaning: "integer division with zero check", stack_in: 0, stack_out: 2, purity: false }
}

pub fn catalog_04_compare_eq() -> (r: CatalogEntry)
    ensures
        r == (CatalogEntry { id: 4, name: "compare_eq", meaning: "equality compare → i8", stack_in: 1, stack_out: 1, purity: true }),
{
    CatalogEntry { id: 4, name: "compare_eq", meaning: "equality compare → i8", stack_in: 1, stack_out: 1, purity: true }
}

pub fn catalog_05_compare_lt() -> (r: CatalogEntry)
    ensures
        r == (CatalogEntry { id: 5, name: "compare_lt", meaning: "less-than compare", stack_in: 2, stack_out: 2, purity: false }),
{
    CatalogEntry { id: 5, name: "compare_lt", meaning: "less-than compare", stack_in: 2, stack_out: 2, purity: false }
}

pub fn catalog_06_compare_le() -> (r: CatalogEntry)
    ensures
        r == (CatalogEntry { id: 6, name: "compare_le", meaning: "less-or-equal compare", stack_in: 0, stack_out: 1, purity: true }),
{
    CatalogEntry { id: 6, name: "compare_le", meaning: "less-or-equal compare", stack_in: 0, stack_out: 1, purity: true }
}

pub fn catalog_07_branch_if() -> (r: CatalogEntry)
    ensures
        r == (CatalogEntry { id: 7, name: "branch_if", meaning: "conditional short jump", stack_in: 1, stack_out: 2, purity: false }),
{
    CatalogEntry { id: 7, name: "branch_if", meaning: "conditional short jump", stack_in: 1, stack_out: 2, purity: false }
}

pub fn catalog_08_branch_if_not() -> (r: CatalogEntry)
    ensures
        r == (CatalogEntry { id: 8, name: "branch_if_not", meaning: "inverted conditional", stack_in: 2, stack_out: 1, purity: true }),
{
    CatalogEntry { id: 8, name: "branch_if_not", meaning: "inverted conditional", stack_in: 2, stack_out: 1, purity: true }
}

pub fn catalog_09_loop_header() -> (r: CatalogEntry)
    ensures
        r == (CatalogEntry { id: 9, name: "loop_header", meaning: "canonical loop header marker", stack_in: 0, stack_out: 2, purity: false }),
{
    CatalogEntry { id: 9, name: "loop_header", meaning: "canonical loop header marker", stack_in: 0, stack_out: 2, purity: false }
}

pub fn catalog_10_phi_merge() -> (r: CatalogEntry)
    ensures
        r == (CatalogEntry { id: 10, name: "phi_merge", meaning: "SSA-like merge annotation", stack_in: 1, stack_out: 1, purity: true }),
{
    CatalogEntry { id: 10, name: "phi_merge", meaning: "SSA-like merge annotation", stack_in: 1, stack_out: 1, purity: true }
}

pub fn catalog_11_spill_slot() -> (r: CatalogEntry)
    ensures
        r == (CatalogEntry { id: 11, name: "spill_slot", meaning: "spill to frame spill region", stack_in: 2, stack_out: 2, purity: false }),
{
    CatalogEntry { id: 11, name: "spill_slot", meaning: "spill to frame spill region", stack_in: 2, stack_out: 2, purity: false }
}

pub fn catalog_12_reload_slot() -> (r: CatalogEntry)
    ensures
        r == (CatalogEntry { id: 12, name: "reload_slot", meaning: "reload from spill", stack_in: 0, stack_out: 1, purity: true }),
{
    CatalogEntry { id: 12, name: "reload_slot", meaning: "reload from spill", stack_in: 0, stack_out: 1, purity: true }
}

pub fn catalog_13_guard_null() -> (r: CatalogEntry)
    ensures
        r == (CatalogEntry { id: 13, name: "guard_null", meaning: "null reference guard", stack_in: 1, stack_out: 2, purity: false }),
{
    CatalogEntry { id: 13, name: "guard_null", meaning: "null reference guard", stack_in: 1, stack_out: 2, purity: false }
}

pub fn catalog_14_guard_type() -> (r: CatalogEntry)
    ensures
        r == (CatalogEntry { id: 14, name: "guard_type", meaning: "runtime type guard", stack_in: 2, stack_out: 1, purity: true }),
{
    CatalogEntry { id: 14, name: "guard_type", meaning: "runtime type guard", stack_in: 2, stack_out: 1, purity: true }
}

pub fn catalog_15_box_int() -> (r: CatalogEntry)
    ensures
        r == (CatalogEntry { id: 15, name: "box_int", meaning: "box integer into heap object", stack_in: 0, stack_out: 2, purity: false }),
{
    CatalogEntry { id: 15, name: "box_int", meaning: "box integer into heap object", stack_in: 0, stack_out: 2, purity: false }
}

pub fn catalog_16_unbox_int() -> (r: CatalogEntry)
    ensures
        r == (CatalogEntry { id: 16, name: "unbox_int", meaning: "unbox integer", stack_in: 1, stack_out: 1, purity: true }),
{
    CatalogEntry { id: 16, name: "unbox_int", meaning: "unbox integer", stack_in: 1, stack_out: 1, purity: true }
}

pub fn catalog_17_array_len() -> (r: CatalogEntry)
    ensures
        r == (CatalogEntry { id: 17, name: "array_len", meaning: "array length", stack_in: 2, stack_out: 2, purity: false }),
{
    CatalogEntry { id: 17, name: "array_len", meaning: "array length", stack_in: 2, stack_out: 2, purity: false }
}

pub fn catalog_18_array_load() -> (r: CatalogEntry)
    ensures
        r == (CatalogEntry { id: 18, name: "array_load", meaning: "array element load", stack_in: 0, stack_out: 1, purity: true }),
{
    CatalogEntry { id: 18, name: "array_load", meaning: "array element load", stack_in: 0, stack_out: 1, purity: true }
}

pub fn catalog_19_array_store() -> (r: CatalogEntry)
    ensures
        r == (CatalogEntry { id: 19, name: "array_store", meaning: "array element store", stack_in: 1, stack_out: 2, purity: false }),
{
    CatalogEntry { id: 19, name: "array_store", meaning: "array element store", stack_in: 1, stack_out: 2, purity: false }
}

pub fn catalog_20_str_len() -> (r: CatalogEntry)
    ensures
        r == (CatalogEntry { id: 20, name: "str_len", meaning: "string length via intern id", stack_in: 2, stack_out: 1, purity: true }),
{
    CatalogEntry { id: 20, name: "str_len", meaning: "string length via intern id", stack_in: 2, stack_out: 1, purity: true }
}

pub fn catalog_21_str_cat() -> (r: CatalogEntry)
    ensures
        r == (CatalogEntry { id: 21, name: "str_cat", meaning: "concatenate interned strings", stack_in: 0, stack_out: 2, purity: false }),
{
    CatalogEntry { id: 21, name: "str_cat", meaning: "concatenate interned strings", stack_in: 0, stack_out: 2, purity: false }
}

pub fn catalog_22_closure_new() -> (r: CatalogEntry)
    ensures
        r == (CatalogEntry { id: 22, name: "closure_new", meaning: "allocate closure", stack_in: 1, stack_out: 1, purity: true }),
{
    CatalogEntry { id: 22, name: "closure_new", meaning: "allocate closure", stack_in: 1, stack_out: 1, purity: true }
}

pub fn catalog_23_closure_call() -> (r: CatalogEntry)
    ensures
        r == (CatalogEntry { id: 23, name: "closure_call", meaning: "invoke closure", stack_in: 2, stack_out: 2, purity: false }),
{
    CatalogEntry { id: 23, name: "closure_call", meaning: "invoke closure", stack_in: 2, stack_out: 2, purity: false }
}

pub fn catalog_24_iter_new() -> (r: CatalogEntry)
    ensures
        r == (CatalogEntry { id: 24, name: "iter_new", meaning: "create iterator", stack_in: 0, stack_out: 1, purity: true }),
{
    CatalogEntry { id: 24, name: "iter_new", meaning: "create iterator", stack_in: 0, stack_out: 1, purity: true }
}

pub fn catalog_25_iter_next() -> (r: CatalogEntry)
    ensures
        r == (CatalogEntry { id: 25, name: "iter_next", meaning: "advance iterator", stack_in: 1, stack_out: 2, purity: false }),
{
    CatalogEntry { id: 25, name: "iter_next", meaning: "advance iterator", stack_in: 1, stack_out: 2, purity: false }
}

pub fn catalog_26_match_tag() -> (r: CatalogEntry)
    ensures
        r == (CatalogEntry { id: 26, name: "match_tag", meaning: "sum-type tag match", stack_in: 2, stack_out: 1, purity: true }),
{
    CatalogEntry { id: 26, name: "match_tag", meaning: "sum-type tag match", stack_in: 2, stack_out: 1, purity: true }
}

pub fn catalog_27_yield_val() -> (r: CatalogEntry)
    ensures
        r == (CatalogEntry { id: 27, name: "yield_val", meaning: "generator yield", stack_in: 0, stack_out: 2, purity: false }),
{
    CatalogEntry { id: 27, name: "yield_val", meaning: "generator yield", stack_in: 0, stack_out: 2, purity: false }
}

pub fn catalog_28_resume_gen() -> (r: CatalogEntry)
    ensures
        r == (CatalogEntry { id: 28, name: "resume_gen", meaning: "resume generator", stack_in: 1, stack_out: 1, purity: true }),
{
    CatalogEntry { id: 28, name: "resume_gen", meaning: "resume generator", stack_in: 1, stack_out: 1, purity: true }
}

pub fn catalog_29_atomic_cas() -> (r: CatalogEntry)
    ensures
        r == (CatalogEntry { id: 29, name: "atomic_cas", meaning: "compare-and-swap stub", stack_in: 2, stack_out: 2, purity: false }),
{
    CatalogEntry { id: 29, name: "atomic_cas", meaning: "compare-and-swap stub", stack_in: 2, stack_out: 2, purity: false }
}

/// The catalog, in id order.
pub open spec fn catalog_table() -> Seq<CatalogEntry> {
    seq![
        CatalogEntry { id: 0, name: "arithmetic_add", meaning: "integer addition on stack tops", stack_in: 0, stack_out: 1, purity: true },
        CatalogEntry { id: 1, name: "arithmetic_sub", meaning: "integer subtraction", stack_in: 1, stack_out: 2, purity: false },
        CatalogEntry { id: 2, name: "arithmetic_mul", meaning: "integer multiplication", stack_in: 2, stack_out: 1, purity: true },
        CatalogEntry { id: 3, name: "arithmetic_div", meaning: "integer division with zero check", stack_in: 0, stack_out: 2, purity: false },
        CatalogEntry { id: 4, name: "compare_eq", meaning: "equality compare → i8", stack_in: 1, stack_out: 1, purity: true },
        CatalogEntry { id: 5, name: "compare_lt", meaning: "less-than compare", stack_in: 2, stack_out: 2, purity: false },
        CatalogEntry { id: 6, name: "compare_le", meaning: "less-or-equal compare", stack_in: 0, stack_out: 1, purity: true },
        CatalogEntry { id: 7, name: "branch_if", meaning: "conditional short jump", stack_in: 1, stack_out: 2, purity: false },
        CatalogEntry { id: 8, name: "branch_if_not", meaning: "inverted conditional", stack_in: 2, stack_out: 1, purity: true },
        CatalogEntry { id: 9, name: "loop_header", meaning: "canonical loop header marker", stack_in: 0, stack_out: 2, purity: false },
        CatalogEntry { id: 10, name: "phi_merge", meaning: "SSA-like merge annotation", stack_in: 1, stack_out: 1, purity: true },
        CatalogEntry { id: 11, name: "spill_slot", meaning: "spill to frame spill region", stack_in: 2, stack_out: 2, purity: false },
        CatalogEntry { id: 12, name: "reload_slot", meaning: "reload from spill", stack_in: 0, stack_out: 1, purity: true },
        CatalogEntry { id: 13, name: "guard_null", meaning: "null reference guard", stack_in: 1, stack_out: 2, purity: false },
        CatalogEntry { id: 14, name: "guard_type", meaning: "runtime type guard", stack_in: 2, stack_out: 1, purity: true },
        CatalogEntry { id: 15, name: "box_int", meaning: "box integer into heap object", stack_in: 0, stack_out: 2, purity: false },
        CatalogEntry { id: 16, name: "unbox_int", meaning: "unbox integer", stack_in: 1, stack_out: 1, purity: true },
        CatalogEntry { id: 17, name: "array_len", meaning: "array length", stack_in: 2, stack_out: 2, purity: false },
        CatalogEntry { id: 18, name: "array_load", meaning: "array element load", stack_in: 0, stack_out: 1, purity: true },
        CatalogEntry { id: 19, name: "array_store", meaning: "array element store", stack_in: 1, stack_out: 2, purity: false },
        CatalogEntry { id: 20, name: "str_len", meaning: "string length via intern id", stack_in: 2, stack_out: 1, purity: true },
        CatalogEntry { id: 21, name: "str_cat", meaning: "concatenate interned strings", stack_in: 0, stack_out: 2, purity: false },
        CatalogEntry { id: 22, name: "closure_new", meaning: "allocate closure", stack_in: 1, stack_out: 1, purity: true },
        CatalogEntry { id: 23, name: "closure_call", meaning: "invoke closure", stack_in: 2, stack_out: 2, purity: false },
        CatalogEntry { id: 24, name: "iter_new", meaning: "create iterator", stack_in: 0, stack_out: 1, purity: true },
        CatalogEntry { id: 25, name: "iter_next", meaning: "advance iterator", stack_in: 1, stack_out: 2, purity: false },
        CatalogEntry { id: 26, name: "match_tag", meaning: "sum-type tag match", stack_in: 2, stack_out: 1, purity: true },
        CatalogEntry { id: 27, name: "yield_val", meaning: "generator yield", stack_in: 0, stack_out: 2, purity: false },
        CatalogEntry { id: 28, name: "resume_gen", meaning: "resume generator", stack_in: 1, stack_out: 1, purity: true },
        CatalogEntry { id: 29, name: "atomic_cas", meaning: "compare-and-swap stub", stack_in: 2, stack_out: 2, purity: false }
    ]
}

/// The catalog lists every id from 0 to 29 once, in order: entry `i` has id `i`.
pub proof fn law_catalog_in_id_order()
    ensures
        catalog_table().len() == 30,
        forall|i: int| 0 <= i < 30 ==> (#[trigger] catalog_table()[i]).id == i,
{
}

/// Every catalog entry, in id order.
pub fn all_entries() -> (r: Vec<CatalogEntry>)
    ensures
        r@ == catalog_table(),
{
    let r = vec![
        catalog_00_arithmetic_add(),
        catalog_01_arithmetic_sub(),
        catalog_02_arithmetic_mul(),
        catalog_03_arithmetic_div(),
        catalog_04_compare_eq(),
        catalog_05_compare_lt(),
        catalog_06_compare_le(),
        catalog_07_branch_if(),
        catalog_08_branch_if_not(),
        catalog_09_loop_header(),
        catalog_10_phi_merge(),
        catalog_11_spill_slot(),
        catalog_12_reload_slot(),
        catalog_13_guard_null(),
        catalog_14_guard_type(),
        catalog_15_box_int(),
        catalog_16_unbox_int(),
        catalog_17_array_len(),
        catalog_18_array_load(),
        catalog_19_array_store(),
        catalog_20_str_len(),
        catalog_21_str_cat(),
        catalog_22_closure_new(),
        catalog_23_closure_call(),
        catalog_24_iter_new(),
        catalog_25_iter_next(),
        catalog_26_match_tag(),
        catalog_27_yield_val(),
        catalog_28_resume_gen(),
        catalog_29_atomic_cas()
    ];
    assert(r@ =~= catalog_table());
    r
}

/// Text of a boolean.
pub open spec fn bool_text(b: bool) -> Seq<char> {
    if b { "true"@ } else { "false"@ }
}

/// Catalog line of an entry: id (two digits), name padded to 16, stack counts, purity and
/// meaning.
pub open spec fn catalog_line(e: CatalogEntry) -> Seq<char> {
    pad_left(dec_nat(e.id as nat), 2, '0') + " "@ + pad_right(e.name@, 16) + " in="@ + dec_nat(e.stack_in as nat)
        + " out="@ + dec_nat(e.stack_out as nat) + " pure="@ + bool_text(e.purity) + " \u{2014} "@ + e.meaning@ + "\n"@
}

/// Catalog lines of the first `n` entries.
pub open spec fn catalog_text(es: Seq<CatalogEntry>) -> Seq<char>
    decreases es.len(),
{
    if es.len() == 0 { Seq::empty() } else { catalog_text(es.drop_last()) + catalog_line(es.last()) }
}

/// Appends the catalog line of an entry.
fn push_catalog_line(s: &mut String, e: CatalogEntry)
    ensures
        final(s)@ == old(s)@ + catalog_line(e),
{
    push_dec2(s, e.id);
    s.append(" ");
    push_padded_right(s, e.name, 16);
    s.append(" in=");
    push_dec(s, e.stack_in as u64);
    s.append(" out=");
    push_dec(s, e.stack_out as u64);
    s.append(" pure=");
    s.append(if e.purity { "true" } else { "false" });
    s.append(" \u{2014} ");
    s.append(e.meaning);
    s.append("\n");
    assert(final(s)@ =~= old(s)@ + catalog_line(e));
}

/// Catalog lines of the entries, in order.
fn render_entries(es: &Vec<CatalogEntry>) -> (r: String)
    ensures
        r@ == catalog_text(es@),
{
    let mut s = String::new();
    let mut i: usize = 0;
    assert(es@.subrange(0, 0) =~= Seq::<CatalogEntry>::empty());
    while i < es.len()
        invariant
            i <= es@.len(),
            s@ == catalog_text(es@.subrange(0, i as int)),
        decreases es@.len() - i,
    {
        push_catalog_line(&mut s, es[i]);
        assert(es@.subrange(0, i + 1).drop_last() =~= es@.subrange(0, i as int));
        i += 1;
    }
    assert(es@.subrange(0, i as int) =~= es@);
    s
}

/// The catalog as text, one line per entry.
pub fn render_catalog() -> (r: String)
    ensures
        r@ == catalog_text(catalog_table()),
{
    let es = all_entries();
    render_entries(&es)
}

/// Appends `v` in decimal, zero-padded to two digits.
fn push_dec2(out: &mut String, v: u16)
    ensures
        final(out)@ == old(out)@ + pad_left(dec_nat(v as nat), 2, '0'),
{
    proof {
        crate::text::lemma_numeral_len(v as nat, 10, true);
    }
    if v < 10 {
        out.append("0");
        proof {
            reveal_strlit("0");
        }
    }
    push_dec(out, v as u64);
    assert(final(out)@ =~= old(out)@ + pad_left(dec_nat(v as nat), 2, '0'));
}

/// First index at or after `i` of an entry named `name`.
pub open spec fn find_entry(es: Seq<CatalogEntry>, name: Seq<char>, i: nat) -> Option<CatalogEntry>
    decreases es.len() - i,
{
    if i >= es.len() {
        None
    } else if es[i as int].name@ == name {
        Some(es[i as int])
    } else {
        find_entry(es, name, i + 1)
    }
}

/// First entry named `name`.
fn find_named(es: &Vec<CatalogEntry>, name: &str) -> (r: Option<CatalogEntry>)
    ensures
        r == find_entry(es@, name@, 0),
{
    let mut i: usize = 0;
    while i < es.len()
        invariant
            i <= es@.len(),
            find_entry(es@, name@, i as nat) == find_entry(es@, name@, 0),
        decreases es@.len() - i,
    {
        if str_eq(es[i].name, name) {
            return Some(es[i]);
        }
        i += 1;
    }
    None
}

/// The entry with this name.
pub fn lookup_name(name: &str) -> (r: Option<CatalogEntry>)
    ensures
        r == find_entry(catalog_table(), name@, 0),
{
    let es = all_entries();
    find_named(&es, name)
}

} // verus!
