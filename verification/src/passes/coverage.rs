//! Which opcodes of the instruction set a module uses.
use vstd::prelude::*;
use std::collections::BTreeSet;
use crate::bytecode::{lenient_walk, mnemonic, spec_lenient_walk};
use crate::isa;
use crate::isa::{entry_matches, table_opcodes};
use crate::module::{FnModel, Module};

verus! {

broadcast use vstd::std_specs::btree::group_btree_axioms;

/// Whether the lenient walk of `code` meets opcode `op`.
pub open spec fn walk_has_op(code: Seq<u8>, op: u8) -> bool {
    exists|k: int| 0 <= k < spec_lenient_walk(code, 0).len() && #[trigger] spec_lenient_walk(code, 0)[k].1 == op
}

/// Opcodes met by walking the functions of a module.
pub open spec fn module_ops(m: Seq<FnModel>) -> Set<u8> {
    Set::new(|op: u8| exists|i: int| 0 <= i < m.len() && walk_has_op(#[trigger] m[i].code, op))
}

/// Mnemonics of the table opcodes (in table order) that are not in `cov`.
pub open spec fn missing_names(ops: Seq<u8>, cov: Set<u8>) -> Seq<Seq<char>>
    decreases ops.len(),
{
    if ops.len() == 0 {
        Seq::empty()
    } else {
        let rest = missing_names(ops.drop_last(), cov);
        if cov.contains(ops.last()) { rest } else { rest.push(mnemonic(ops.last())) }
    }
}

/// The characters of each static string.
pub open spec fn static_strs_view(v: Seq<&'static str>) -> Seq<Seq<char>> {
    v.map_values(|s: &'static str| s@)
}

/// Every opcode met when walking the module's functions.
pub fn opcode_coverage(m: &Module) -> (r: BTreeSet<u8>)
    ensures
        r@ == module_ops(m@),
{
    let mut set: BTreeSet<u8> = BTreeSet::new();
    let mut fi: usize = 0;
    assert(set@ =~= Set::new(|op: u8| exists|i: int| 0 <= i < 0 && walk_has_op(#[trigger] m@[i].code, op)));
    while fi < m.functions.len()
        invariant
            fi <= m@.len(),
            m@.len() == m.functions@.len(),
            set@ == Set::new(|op: u8| exists|i: int| 0 <= i < fi && walk_has_op(#[trigger] m@[i].code, op)),
        decreases m@.len() - fi,
    {
        let f = &m.functions[fi];
        assert(m@[fi as int].code == f.code@);
        let walk = lenient_walk(f.code.as_slice());
        let ghost w = walk@;
        let ghost before = set@;
        let mut k: usize = 0;
        while k < walk.len()
            invariant
                w == walk@,
                w == spec_lenient_walk(m@[fi as int].code, 0),
                k <= w.len(),
                set@ == before.union(Set::new(|op: u8| exists|j: int| 0 <= j < k && #[trigger] w[j].1 == op)),
            decreases w.len() - k,
        {
            set.insert(walk[k].1);
            k += 1;
            assert(set@ =~= before.union(Set::new(|op: u8| exists|j: int| 0 <= j < k && #[trigger] w[j].1 == op)));
        }
        assert forall|op: u8| #[trigger] set@.contains(op) == (exists|i: int| 0 <= i < fi + 1 && walk_has_op(
            #[trigger] m@[i].code,
            op,
        )) by {
            if exists|i: int| 0 <= i < fi + 1 && walk_has_op(#[trigger] m@[i].code, op) {
                let i = choose|i: int| 0 <= i < fi + 1 && walk_has_op(#[trigger] m@[i].code, op);
                if i == fi {
                    let j = choose|j: int| 0 <= j < w.len() && #[trigger] w[j].1 == op;
                    assert(Set::new(|op: u8| exists|j: int| 0 <= j < k && #[trigger] w[j].1 == op).contains(op));
                }
            }
            if set@.contains(op) && !before.contains(op) {
                let j = choose|j: int| 0 <= j < k && #[trigger] w[j].1 == op;
                assert(walk_has_op(m@[fi as int].code, op));
            }
        }
        fi += 1;
        assert(set@ =~= Set::new(|op: u8| exists|i: int| 0 <= i < fi && walk_has_op(#[trigger] m@[i].code, op)));
    }
    set
}

/// Mnemonics of the instruction-set opcodes the module never uses, in table order.
pub fn missing_opcodes(m: &Module) -> (r: Vec<&'static str>)
    ensures
        static_strs_view(r@) == missing_names(table_opcodes(), module_ops(m@)),
{
    let cov = opcode_coverage(m);
    let table = isa::ops();
    let mut out: Vec<&'static str> = Vec::new();
    let mut i: usize = 0;
    assert(table_opcodes().subrange(0, 0) =~= Seq::<u8>::empty());
    while i < table.len()
        invariant
            table@.len() == table_opcodes().len(),
            forall|j: int| 0 <= j < table@.len() ==> entry_matches(#[trigger] table@[j], table_opcodes()[j]),
            cov@ == module_ops(m@),
            i <= table@.len(),
            static_strs_view(out@) == missing_names(table_opcodes().subrange(0, i as int), cov@),
        decreases table@.len() - i,
    {
        assert(table_opcodes().subrange(0, i + 1).drop_last() =~= table_opcodes().subrange(0, i as int));
        let info = table[i];
        assert(entry_matches(table@[i as int], table_opcodes()[i as int]));
        if !cov.contains(&info.opcode) {
            out.push(info.name);
            assert(static_strs_view(out@) =~= missing_names(table_opcodes().subrange(0, i + 1), cov@));
        }
        i += 1;
    }
    assert(table_opcodes().subrange(0, i as int) =~= table_opcodes());
    out
}

} // verus!
