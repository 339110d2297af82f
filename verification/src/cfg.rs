//! Control-flow graphs over bytecode: basic blocks split at jump targets and after branches.
use vstd::prelude::*;
use std::collections::{BTreeSet, VecDeque};
use crate::bytecode;
use crate::bytecode::{lenient_len, lenient_instr_len};
use crate::isa;
use crate::module::Function;
use crate::text::{dec_nat, push_dec};

verus! {

broadcast use vstd::std_specs::btree::group_btree_axioms;

#[derive(Clone, Debug, Default)]
pub struct BasicBlock {
    pub id: usize,
    pub start: usize,
    pub end: usize,
    pub succs: Vec<usize>,
    pub preds: Vec<usize>,
}

#[derive(Clone, Debug, Default)]
pub struct Cfg {
    pub blocks: Vec<BasicBlock>,
    pub entry: usize,
}

/// Mathematical content of a block.
pub struct BlockModel {
    pub id: usize,
    pub start: usize,
    pub end: usize,
    pub succs: Seq<usize>,
    pub preds: Seq<usize>,
}

impl View for BasicBlock {
    type V = BlockModel;

    open spec fn view(&self) -> BlockModel {
        BlockModel { id: self.id, start: self.start, end: self.end, succs: self.succs@, preds: self.preds@ }
    }
}

/// The blocks of a graph.
pub open spec fn blocks_view(blocks: Seq<BasicBlock>) -> Seq<BlockModel> {
    blocks.map_values(|b: BasicBlock| b@)
}

/// Target of the short jump at `pc` (before the cast to an offset).
pub open spec fn jump_target(code: Seq<u8>, pc: int) -> int {
    pc + 2 + (code[pc + 1] as i8)
}

/// Leader marks after the instruction at `pc` (an `SJMP` marks its in-range target and the
/// instruction after it; another block-ending opcode marks the instruction after it).
pub open spec fn mark_leaders_at(code: Seq<u8>, pc: nat, marks: Seq<bool>) -> Seq<bool> {
    let op = code[pc as int];
    let next = pc + lenient_len(op);
    if op == bytecode::SJMP && pc + 1 < code.len() {
        let t = jump_target(code, pc as int);
        let m1 = if 0 <= t < code.len() { marks.update(t, true) } else { marks };
        if next < code.len() { m1.update(next as int, true) } else { m1 }
    } else if isa::table_branch(op) {
        if next < code.len() { marks.update(next as int, true) } else { marks }
    } else {
        marks
    }
}

/// Leader marks collected by walking the instructions from `pc` on.
pub open spec fn leader_marks_from(code: Seq<u8>, pc: nat, marks: Seq<bool>) -> Seq<bool>
    decreases code.len() - pc,
{
    if pc >= code.len() {
        marks
    } else {
        let next = pc + lenient_len(code[pc as int]);
        if next >= code.len() {
            mark_leaders_at(code, pc, marks)
        } else {
            leader_marks_from(code, next, mark_leaders_at(code, pc, marks))
        }
    }
}

/// Which offsets start a basic block: the first one and those the walk marks.
pub open spec fn leader_marks(code: Seq<u8>) -> Seq<bool> {
    leader_marks_from(code, 0, Seq::new(code.len(), |p: int| p == 0))
}

/// The marked positions, in increasing order.
pub open spec fn marked_positions(m: Seq<bool>) -> Seq<usize>
    decreases m.len(),
{
    if m.len() == 0 {
        Seq::empty()
    } else if m.last() {
        marked_positions(m.drop_last()).push((m.len() - 1) as usize)
    } else {
        marked_positions(m.drop_last())
    }
}

/// Block start offsets, in increasing order.
pub open spec fn leaders(code: Seq<u8>) -> Seq<usize> {
    marked_positions(leader_marks(code))
}

/// End of block `i`: the next block's start, or the end of the code.
pub open spec fn block_end(ls: Seq<usize>, len: nat, i: int) -> usize {
    if i + 1 < ls.len() { ls[i + 1] } else { len as usize }
}

/// Offset of the last instruction that starts before `end`, walking from `p`.
pub open spec fn last_start(code: Seq<u8>, p: nat, end: nat, last: nat) -> nat
    decreases end - p,
{
    if p >= end || p >= code.len() {
        last
    } else {
        let next = p + lenient_len(code[p as int]);
        if next >= end { p } else { last_start(code, next, end, p) }
    }
}

/// First index of `x` in `s`.
pub open spec fn position_of(s: Seq<usize>, x: int, i: nat) -> Option<usize>
    decreases s.len() - i,
{
    if i >= s.len() {
        None
    } else if s[i as int] == x {
        Some(i as usize)
    } else {
        position_of(s, x, i + 1)
    }
}

/// Successor of block `i`: the block its final `SJMP` reaches, or the next block when it
/// falls through (not after `RET`, `THROW` or `TAIL`).
pub open spec fn block_succ(code: Seq<u8>, ls: Seq<usize>, i: int) -> Option<usize> {
    let start = ls[i];
    let end = block_end(ls, code.len(), i);
    if start >= end {
        None
    } else {
        let lp = last_start(code, start as nat, end as nat, start as nat);
        let op = code[lp as int];
        if op == bytecode::SJMP && lp + 1 < code.len() {
            let t = jump_target(code, lp as int);
            if t < 0 { None } else { position_of(ls, t, 0) }
        } else if op != bytecode::RET && op != bytecode::THROW && op != bytecode::TAIL {
            position_of(ls, end as int, 0)
        } else {
            None
        }
    }
}

/// An optional successor as a list.
pub open spec fn opt_seq(o: Option<usize>) -> Seq<usize> {
    match o {
        Some(x) => seq![x],
        None => Seq::empty(),
    }
}

/// Blocks among the first `n` whose successor is `s`, in increasing order.
pub open spec fn preds_upto(code: Seq<u8>, ls: Seq<usize>, s: int, n: nat) -> Seq<usize>
    decreases n,
{
    if n == 0 {
        Seq::empty()
    } else if block_succ(code, ls, n - 1) == Some(s as usize) {
        preds_upto(code, ls, s, (n - 1) as nat).push((n - 1) as usize)
    } else {
        preds_upto(code, ls, s, (n - 1) as nat)
    }
}

/// The blocks of a function's code.
pub open spec fn spec_blocks(code: Seq<u8>) -> Seq<BlockModel> {
    if code.len() == 0 {
        Seq::empty()
    } else {
        let ls = leaders(code);
        Seq::new(ls.len(), |i: int| BlockModel {
            id: i as usize,
            start: ls[i],
            end: block_end(ls, code.len(), i),
            succs: opt_seq(block_succ(code, ls, i)),
            preds: preds_upto(code, ls, i, ls.len()),
        })
    }
}

/// Marks the leaders after the instruction at `pc`.
fn mark_at(code: &[u8], pc: usize, marks: &mut Vec<bool>)
    requires
        pc < code@.len(),
        code@.len() <= isize::MAX,
        old(marks)@.len() == code@.len(),
    ensures
        final(marks)@ == mark_leaders_at(code@, pc as nat, old(marks)@),
{
    let n = code.len();
    let op = code[pc];
    let next = pc + lenient_instr_len(op);
    if op == bytecode::SJMP && pc + 1 < n {
        let rel = code[pc + 1] as i8;
        if rel >= 0 {
            let t = pc + 2 + rel as usize;
            if t < n {
                marks.set(t, true);
            }
        } else {
            let back = (0 - (rel as i16)) as usize;
            if pc + 2 >= back && pc + 2 - back < n {
                marks.set(pc + 2 - back, true);
            }
        }
        if next < n {
            marks.set(next, true);
        }
    } else {
        let branch = match isa::lookup(op) {
            Some(info) => info.is_branch,
            None => false,
        };
        if branch && next < n {
            marks.set(next, true);
        }
    }
}

/// Leader marks of the code.
fn find_leader_marks(code: &[u8]) -> (r: Vec<bool>)
    ensures
        r@ == leader_marks(code@),
{
    let n = crate::bytes::byte_len(code);
    let mut marks: Vec<bool> = Vec::new();
    let mut i: usize = 0;
    while i < n
        invariant
            i <= n,
            n == code@.len(),
            marks@ == Seq::new(i as nat, |p: int| p == 0),
        decreases n - i,
    {
        marks.push(i == 0);
        i += 1;
        assert(marks@ =~= Seq::new(i as nat, |p: int| p == 0));
    }
    let mut pc: usize = 0;
    while pc < n
        invariant
            n == code@.len(),
            n <= isize::MAX,
            pc <= n + 3,
            marks@.len() == n,
            leader_marks_from(code@, pc as nat, marks@) == leader_marks(code@),
        decreases n + 3 - pc,
    {
        let next = pc + lenient_instr_len(code[pc]);
        mark_at(code, pc, &mut marks);
        pc = next;
    }
    marks
}

/// Positions of the marks, in increasing order.
fn positions(m: &Vec<bool>) -> (r: Vec<usize>)
    ensures
        r@ == marked_positions(m@),
{
    let mut out: Vec<usize> = Vec::new();
    let mut i: usize = 0;
    assert(m@.subrange(0, 0) =~= Seq::<bool>::empty());
    while i < m.len()
        invariant
            i <= m@.len(),
            out@ == marked_positions(m@.subrange(0, i as int)),
        decreases m@.len() - i,
    {
        assert(m@.subrange(0, i + 1).drop_last() =~= m@.subrange(0, i as int));
        if m[i] {
            out.push(i);
        }
        i += 1;
    }
    assert(m@.subrange(0, i as int) =~= m@);
    out
}

/// Offset of the last instruction of the block `start..end`.
fn last_instr(code: &[u8], start: usize, end: usize) -> (r: usize)
    requires
        start <= end <= code@.len(),
        code@.len() <= isize::MAX,
    ensures
        r == last_start(code@, start as nat, end as nat, start as nat),
{
    let mut p = start;
    let mut last = start;
    while p < end && p < code.len()
        invariant
            end <= code@.len(),
            code@.len() <= isize::MAX,
            p <= code@.len() + 3,
            last_start(code@, p as nat, end as nat, last as nat) == last_start(code@, start as nat, end as nat, start as nat),
        decreases code@.len() + 3 - p,
    {
        let next = p + lenient_instr_len(code[p]);
        if next >= end {
            return p;
        }
        last = p;
        p = next;
    }
    last
}

/// First index of `x` in `s`.
fn find_position(s: &Vec<usize>, x: usize) -> (r: Option<usize>)
    ensures
        r == position_of(s@, x as int, 0),
{
    let mut i: usize = 0;
    while i < s.len()
        invariant
            i <= s@.len(),
            position_of(s@, x as int, i as nat) == position_of(s@, x as int, 0),
        decreases s@.len() - i,
    {
        if s[i] == x {
            return Some(i);
        }
        i += 1;
    }
    None
}

/// Successor of block `i`.
fn successor(code: &[u8], ls: &Vec<usize>, i: usize) -> (r: Option<usize>)
    requires
        i < ls@.len(),
        code@.len() <= isize::MAX,
        forall|j: int| 0 <= j < ls@.len() ==> ls@[j] < code@.len(),
    ensures
        r == block_succ(code@, ls@, i as int),
{
    let n = code.len();
    let nl = ls.len();
    let start = ls[i];
    let end = if i + 1 < nl { ls[i + 1] } else { n };
    if start >= end {
        return None;
    }
    let lp = last_instr(code, start, end);
    proof {
        lemma_last_start_bound(code@, start as nat, end as nat, start as nat);
    }
    let op = code[lp];
    if op == bytecode::SJMP && lp + 1 < n {
        let rel = code[lp + 1] as i8;
        if rel >= 0 {
            find_position(ls, lp + 2 + rel as usize)
        } else {
            let back = (0 - (rel as i16)) as usize;
            if lp + 2 >= back {
                find_position(ls, lp + 2 - back)
            } else {
                None
            }
        }
    } else if op != bytecode::RET && op != bytecode::THROW && op != bytecode::TAIL {
        find_position(ls, end)
    } else {
        None
    }
}

proof fn lemma_last_start_bound(code: Seq<u8>, p: nat, end: nat, last: nat)
    requires
        last < end,
        end <= code.len(),
    ensures
        last_start(code, p, end, last) < end,
    decreases end - p,
{
    if p < end && p < code.len() {
        let next = p + lenient_len(code[p as int]);
        if next < end {
            lemma_last_start_bound(code, next, end, p);
        }
    }
}

proof fn lemma_marked_positions_bound(m: Seq<bool>)
    ensures
        forall|j: int| 0 <= j < marked_positions(m).len() ==> marked_positions(m)[j] < m.len(),
    decreases m.len(),
{
    if m.len() > 0 {
        lemma_marked_positions_bound(m.drop_last());
        let p = marked_positions(m.drop_last());
        assert forall|j: int| 0 <= j < marked_positions(m).len() implies marked_positions(m)[j] < m.len() by {
            if j < p.len() {
                assert(marked_positions(m)[j] == p[j]);
            }
        }
    }
}

proof fn lemma_leader_marks_len(code: Seq<u8>, pc: nat, marks: Seq<bool>)
    requires
        marks.len() == code.len(),
    ensures
        leader_marks_from(code, pc, marks).len() == code.len(),
    decreases code.len() - pc,
{
    if pc < code.len() {
        let next = pc + lenient_len(code[pc as int]);
        if next < code.len() {
            lemma_leader_marks_len(code, next, mark_leaders_at(code, pc, marks));
        }
    }
}

/// Blocks among the first `n` whose successor is `s`.
fn preds_of(succ: &Vec<Option<usize>>, s: usize, Ghost(code): Ghost<Seq<u8>>, Ghost(ls): Ghost<Seq<usize>>) -> (r: Vec<usize>)
    requires
        succ@.len() == ls.len(),
        forall|b: int| 0 <= b < ls.len() ==> succ@[b] == block_succ(code, ls, b),
    ensures
        r@ == preds_upto(code, ls, s as int, ls.len()),
{
    let mut out: Vec<usize> = Vec::new();
    let mut b: usize = 0;
    while b < succ.len()
        invariant
            b <= succ@.len(),
            succ@.len() == ls.len(),
            forall|j: int| 0 <= j < ls.len() ==> succ@[j] == block_succ(code, ls, j),
            out@ == preds_upto(code, ls, s as int, b as nat),
        decreases succ@.len() - b,
    {
        if succ[b] == Some(s) {
            out.push(b);
        }
        b += 1;
    }
    out
}

/// Control-flow graph of a function: blocks start at offset 0, at in-range jump targets and
/// after block-ending instructions; each block has at most one successor.
pub fn build(f: &Function) -> (r: Cfg)
    ensures
        blocks_view(r.blocks@) == spec_blocks(f.code@),
        r.entry == 0,
        graph_wf(blocks_view(r.blocks@)),
        r.blocks@.len() > 0 <==> f.code@.len() > 0,
{
    let code = f.code.as_slice();
    let n = crate::bytes::byte_len(code);
    if n == 0 {
        let r = Cfg { blocks: Vec::new(), entry: 0 };
        assert(blocks_view(r.blocks@) =~= spec_blocks(f.code@));
        return r;
    }
    let marks = find_leader_marks(code);
    let ls = positions(&marks);
    proof {
        lemma_leader_marks_len(code@, 0, Seq::new(code@.len(), |p: int| p == 0));
        lemma_marked_positions_bound(marks@);
    }
    let mut succ: Vec<Option<usize>> = Vec::new();
    let mut i: usize = 0;
    while i < ls.len()
        invariant
            i <= ls@.len(),
            n == code@.len(),
            n <= isize::MAX,
            forall|j: int| 0 <= j < ls@.len() ==> ls@[j] < code@.len(),
            succ@.len() == i,
            forall|j: int| 0 <= j < i ==> succ@[j] == block_succ(code@, ls@, j),
        decreases ls@.len() - i,
    {
        let s = successor(code, &ls, i);
        succ.push(s);
        i += 1;
    }
    let mut blocks: Vec<BasicBlock> = Vec::new();
    let mut k: usize = 0;
    while k < ls.len()
        invariant
            k <= ls@.len(),
            n == code@.len(),
            ls@ == leaders(code@),
            succ@.len() == ls@.len(),
            forall|j: int| 0 <= j < ls@.len() ==> succ@[j] == block_succ(code@, ls@, j),
            blocks@.len() == k,
            forall|j: int| 0 <= j < k ==> #[trigger] blocks@[j]@ == (BlockModel {
                id: j as usize,
                start: ls@[j],
                end: block_end(ls@, code@.len(), j),
                succs: opt_seq(block_succ(code@, ls@, j)),
                preds: preds_upto(code@, ls@, j, ls@.len()),
            }),
        decreases ls@.len() - k,
    {
        let end = if k + 1 < ls.len() { ls[k + 1] } else { n };
        let succs = match succ[k] {
            Some(x) => vec![x],
            None => Vec::new(),
        };
        let preds = preds_of(&succ, k, Ghost(code@), Ghost(ls@));
        let blk = BasicBlock { id: k, start: ls[k], end, succs, preds };
        assert(blk@.succs =~= opt_seq(block_succ(code@, ls@, k as int)));
        blocks.push(blk);
        k += 1;
    }
    let r = Cfg { blocks, entry: 0 };
    assert(blocks_view(r.blocks@) =~= spec_blocks(f.code@));
    proof {
        let g = blocks_view(r.blocks@);
        assert forall|b: int, k: int| 0 <= b < g.len() && 0 <= k < g[b].succs.len() implies #[trigger] g[b].succs[k]
            < g.len() by {
            let t = block_succ(code@, ls@, b);
            lemma_position_bound(ls@, choose_target(code@, ls@, b), 0);
            assert(g[b].succs == opt_seq(t));
        }
        assert(marks@[0]) by {
            lemma_first_mark(code@);
        }
        lemma_marked_nonempty(marks@);
    }
    r
}

/// What `block_succ` looks up for block `i`.
pub open spec fn choose_target(code: Seq<u8>, ls: Seq<usize>, i: int) -> int {
    let start = ls[i];
    let end = block_end(ls, code.len(), i);
    let lp = last_start(code, start as nat, end as nat, start as nat);
    if code[lp as int] == bytecode::SJMP && lp + 1 < code.len() { jump_target(code, lp as int) } else { end as int }
}

proof fn lemma_position_bound(s: Seq<usize>, x: int, i: nat)
    ensures
        position_of(s, x, i) matches Some(j) ==> j < s.len(),
    decreases s.len() - i,
{
    if i < s.len() && s[i as int] != x {
        lemma_position_bound(s, x, i + 1);
    }
}

proof fn lemma_marks_keep_first(code: Seq<u8>, pc: nat, marks: Seq<bool>)
    requires
        marks.len() == code.len(),
        marks.len() > 0,
        marks[0],
    ensures
        leader_marks_from(code, pc, marks)[0],
    decreases code.len() - pc,
{
    if pc < code.len() {
        let next = pc + lenient_len(code[pc as int]);
        if next < code.len() {
            lemma_marks_keep_first(code, next, mark_leaders_at(code, pc, marks));
        }
    }
}

proof fn lemma_first_mark(code: Seq<u8>)
    requires
        code.len() > 0,
    ensures
        leader_marks(code)[0],
{
    lemma_marks_keep_first(code, 0, Seq::new(code.len(), |p: int| p == 0));
}

proof fn lemma_marked_nonempty(m: Seq<bool>)
    requires
        m.len() > 0,
        m[0],
    ensures
        marked_positions(m).len() > 0,
    decreases m.len(),
{
    if m.len() > 1 {
        lemma_marked_nonempty(m.drop_last());
    }
}

/// An edge from block `a` to block `b`.
pub open spec fn edge(g: Seq<BlockModel>, a: int, b: int) -> bool {
    0 <= a < g.len() && 0 <= b < g.len() && g[a].succs.contains(b as usize)
}

/// Whether consecutive blocks of `p` are joined by edges.
pub open spec fn is_path(g: Seq<BlockModel>, p: Seq<int>) -> bool {
    p.len() >= 1 && forall|i: int| 0 <= i < p.len() - 1 ==> #[trigger] edge(g, p[i], p[i + 1])
}

/// Whether `b` is reached from `a` along zero or more edges.
pub open spec fn reaches(g: Seq<BlockModel>, a: int, b: int) -> bool {
    exists|p: Seq<int>| #[trigger] is_path(g, p) && p[0] == a && p.last() == b
}

/// Whether `x` is reached from one of `starts`.
pub open spec fn reached_from(g: Seq<BlockModel>, starts: Seq<usize>, x: int) -> bool {
    exists|i: int| 0 <= i < starts.len() && #[trigger] reaches(g, starts[i] as int, x)
}

/// Every successor names a block of the graph.
pub open spec fn graph_wf(g: Seq<BlockModel>) -> bool {
    forall|b: int, k: int| 0 <= b < g.len() && 0 <= k < g[b].succs.len() ==> #[trigger] g[b].succs[k] < g.len()
}

/// Number of unset marks.
pub open spec fn count_unset(s: Seq<bool>) -> nat
    decreases s.len(),
{
    if s.len() == 0 { 0 } else { count_unset(s.drop_last()) + if s.last() { 0nat } else { 1nat } }
}

proof fn lemma_count_unset_set(s: Seq<bool>, i: int)
    requires
        0 <= i < s.len(),
        !s[i],
    ensures
        count_unset(s.update(i, true)) + 1 == count_unset(s),
    decreases s.len(),
{
    let t = s.update(i, true);
    if i < s.len() - 1 {
        assert(t.drop_last() =~= s.drop_last().update(i, true));
        lemma_count_unset_set(s.drop_last(), i);
    } else {
        assert(t.drop_last() =~= s.drop_last());
    }
}

proof fn lemma_count_unset_bound(s: Seq<bool>)
    ensures
        count_unset(s) <= s.len(),
    decreases s.len(),
{
    if s.len() > 0 {
        lemma_count_unset_bound(s.drop_last());
    }
}

proof fn lemma_path_extend(g: Seq<BlockModel>, p: Seq<int>, b: int)
    requires
        is_path(g, p),
        edge(g, p.last(), b),
    ensures
        is_path(g, p.push(b)),
        p.push(b)[0] == p[0],
        p.push(b).last() == b,
{
    let q = p.push(b);
    assert forall|i: int| 0 <= i < q.len() - 1 implies #[trigger] edge(g, q[i], q[i + 1]) by {
        if i < p.len() - 1 {
            assert(q[i] == p[i] && q[i + 1] == p[i + 1]);
        } else {
            assert(q[i] == p.last() && q[i + 1] == b);
        }
    }
}

proof fn lemma_closed_paths(g: Seq<BlockModel>, seen: Seq<bool>, p: Seq<int>, i: int)
    requires
        seen.len() == g.len(),
        g.len() <= usize::MAX,
        is_path(g, p),
        0 <= p[0] < g.len(),
        seen[p[0]],
        forall|x: int, j: int| 0 <= x < g.len() && seen[x] && 0 <= j < g[x].succs.len()
            ==> #[trigger] seen[g[x].succs[j] as int],
        graph_wf(g),
        0 <= i < p.len(),
    ensures
        0 <= p[i] < g.len() && seen[p[i]],
    decreases i,
{
    if i > 0 {
        lemma_closed_paths(g, seen, p, i - 1);
        assert(edge(g, p[i - 1], p[(i - 1) + 1]));
        let c = p[i - 1];
        let j = choose|j: int| 0 <= j < g[c].succs.len() && g[c].succs[j] == p[i] as usize;
        assert(seen[g[c].succs[j] as int]);
        assert(g[c].succs[j] < g.len());
    }
}

/// Marks of the blocks reached from `starts`.
fn reach_marks(cfg: &Cfg, starts: &Vec<usize>) -> (r: Vec<bool>)
    requires
        graph_wf(blocks_view(cfg.blocks@)),
        forall|i: int| 0 <= i < starts@.len() ==> starts@[i] < cfg.blocks@.len(),
    ensures
        r@.len() == cfg.blocks@.len(),
        forall|x: int| 0 <= x < cfg.blocks@.len() ==> (r@[x] <==> reached_from(blocks_view(cfg.blocks@), starts@, x)),
{
    let ghost g = blocks_view(cfg.blocks@);
    let n = cfg.blocks.len();
    let mut seen: Vec<bool> = Vec::new();
    let mut i: usize = 0;
    while i < n
        invariant
            i <= n,
            seen@ == Seq::new(i as nat, |x: int| false),
        decreases n - i,
    {
        seen.push(false);
        i += 1;
        assert(seen@ =~= Seq::new(i as nat, |x: int| false));
    }
    proof {
        lemma_count_unset_all(n as nat);
    }
    let mut unseen: usize = n;
    let mut stack: VecDeque<usize> = VecDeque::new();
    let mut j: usize = 0;
    while j < starts.len()
        invariant
            j <= starts@.len(),
            n == g.len(),
            g == blocks_view(cfg.blocks@),
            graph_wf(g),
            forall|i: int| 0 <= i < starts@.len() ==> starts@[i] < n,
            seen@.len() == n,
            unseen == count_unset(seen@),
            forall|x: int| 0 <= x < n && #[trigger] seen@[x] ==> reached_from(g, starts@, x),
            forall|i: int| 0 <= i < stack@.len() ==> stack@[i] < n && seen@[stack@[i] as int],
            forall|x: int| 0 <= x < n && #[trigger] seen@[x] ==> stack@.contains(x as usize),
            forall|i: int| 0 <= i < j ==> seen@[starts@[i] as int],
        decreases starts@.len() - j,
    {
        let s = starts[j];
        if !seen[s] {
            proof {
                lemma_count_unset_set(seen@, s as int);
                assert(is_path(g, seq![s as int]));
                assert(reaches(g, starts@[j as int] as int, s as int));
            }
            let ghost st0 = stack@;
            seen.set(s, true);
            unseen = unseen - 1;
            stack.push_back(s);
            proof {
                assert forall|x: int| 0 <= x < n && #[trigger] seen@[x] implies stack@.contains(x as usize) by {
                    if x != s {
                        assert(st0.contains(x as usize));
                        let t = choose|t: int| 0 <= t < st0.len() && st0[t] == x as usize;
                        assert(stack@[t] == x as usize);
                    } else {
                        assert(stack@[stack@.len() - 1] == s);
                    }
                }
            }
        }
        j += 1;
    }
    while stack.len() > 0
        invariant
            n == g.len(),
            g == blocks_view(cfg.blocks@),
            graph_wf(g),
            seen@.len() == n,
            unseen == count_unset(seen@),
            forall|x: int| 0 <= x < n && #[trigger] seen@[x] ==> reached_from(g, starts@, x),
            forall|i: int| 0 <= i < stack@.len() ==> stack@[i] < n && seen@[stack@[i] as int],
            forall|x: int, k: int| 0 <= x < n && seen@[x] && !stack@.contains(x as usize) && 0 <= k < g[x].succs.len()
                ==> #[trigger] seen@[g[x].succs[k] as int],
            forall|i: int| 0 <= i < starts@.len() ==> seen@[starts@[i] as int],
            forall|i: int| 0 <= i < starts@.len() ==> starts@[i] < n,
        decreases unseen, stack@.len(),
    {
        let ghost st_before = stack@;
        let b = stack.pop_front().unwrap();
        let ghost u0 = unseen;
        let ghost l0 = stack@.len();
        proof {
            assert(st_before[0] == b && stack@ == st_before.subrange(1, st_before.len() as int));
            assert forall|x: int| 0 <= x < n && x != b && #[trigger] st_before.contains(x as usize) implies stack@.contains(x as usize) by {
                let t = choose|t: int| 0 <= t < st_before.len() && st_before[t] == x as usize;
                assert(t > 0);
                assert(stack@[t - 1] == x as usize);
            }
        }
        assert(cfg.blocks@[b as int]@ == g[b as int]);
        let mut k: usize = 0;
        while k < cfg.blocks[b].succs.len()
            invariant
                n == g.len(),
                g == blocks_view(cfg.blocks@),
                graph_wf(g),
                b < n,
                seen@[b as int],
                cfg.blocks@[b as int]@ == g[b as int],
                k <= g[b as int].succs.len(),
                seen@.len() == n,
                unseen == count_unset(seen@),
                unseen <= u0,
                unseen == u0 ==> stack@.len() == l0,
                forall|x: int| 0 <= x < n && #[trigger] seen@[x] ==> reached_from(g, starts@, x),
                forall|i: int| 0 <= i < stack@.len() ==> stack@[i] < n && seen@[stack@[i] as int],
                forall|x: int, m: int| 0 <= x < n && x != b && seen@[x] && !stack@.contains(x as usize) && 0 <= m
                    < g[x].succs.len() ==> #[trigger] seen@[g[x].succs[m] as int],
                forall|m: int| 0 <= m < k ==> #[trigger] seen@[g[b as int].succs[m] as int],
                forall|i: int| 0 <= i < starts@.len() ==> seen@[starts@[i] as int],
                forall|i: int| 0 <= i < starts@.len() ==> starts@[i] < n,
            decreases g[b as int].succs.len() - k,
        {
            let s = cfg.blocks[b].succs[k];
            assert(s == g[b as int].succs[k as int]);
            if !seen[s] {
                proof {
                    lemma_count_unset_set(seen@, s as int);
                    let i0 = choose|i: int| 0 <= i < starts@.len() && #[trigger] reaches(g, starts@[i] as int, b as int);
                    let p0 = choose|p: Seq<int>| #[trigger] is_path(g, p) && p[0] == starts@[i0] as int && p.last() == b as int;
                    assert(g[b as int].succs[k as int] == s);
                    assert(edge(g, b as int, s as int));
                    lemma_path_extend(g, p0, s as int);
                    assert(reaches(g, starts@[i0] as int, s as int));
                }
                let ghost seen0 = seen@;
                let ghost st0 = stack@;
                seen.set(s, true);
                unseen = unseen - 1;
                stack.push_back(s);
                proof {
                    assert forall|x: int, m: int| 0 <= x < n && x != b && seen@[x] && !stack@.contains(x as usize) && 0 <= m
                        < g[x].succs.len() implies #[trigger] seen@[g[x].succs[m] as int] by {
                        assert(stack@[stack@.len() - 1] == s);
                        assert(x != s);
                        assert(seen0[x]);
                        if st0.contains(x as usize) {
                            let t = choose|t: int| 0 <= t < st0.len() && st0[t] == x as usize;
                            assert(stack@[t] == x as usize);
                        }
                        assert(seen0[g[x].succs[m] as int]);
                    }
                    assert forall|i: int| 0 <= i < starts@.len() implies seen@[starts@[i] as int] by {
                        assert(seen0[starts@[i] as int]);
                    }
                }
            }
            k += 1;
        }
    }
    proof {
        assert forall|x: int| 0 <= x < n implies (seen@[x] <==> reached_from(g, starts@, x)) by {
            if reached_from(g, starts@, x) {
                let i0 = choose|i: int| 0 <= i < starts@.len() && #[trigger] reaches(g, starts@[i] as int, x);
                let p0 = choose|p: Seq<int>| #[trigger] is_path(g, p) && p[0] == starts@[i0] as int && p.last() == x;
                lemma_closed_paths(g, seen@, p0, p0.len() - 1);
            }
        }
    }
    seen
}

proof fn lemma_count_unset_all(m: nat)
    ensures
        count_unset(Seq::new(m, |x: int| false)) == m,
    decreases m,
{
    if m > 0 {
        assert(Seq::new(m, |x: int| false).drop_last() =~= Seq::new((m - 1) as nat, |x: int| false));
        lemma_count_unset_all((m - 1) as nat);
    }
}

/// Blocks reached from the entry.
pub open spec fn reachable_set(g: Seq<BlockModel>, entry: int) -> Set<usize> {
    Set::new(|x: usize| x < g.len() && reaches(g, entry, x as int))
}

/// Blocks reached from the entry, by following successors.
pub fn reachable(cfg: &Cfg) -> (r: BTreeSet<usize>)
    requires
        graph_wf(blocks_view(cfg.blocks@)),
        cfg.entry < cfg.blocks@.len(),
    ensures
        r@ == reachable_set(blocks_view(cfg.blocks@), cfg.entry as int),
{
    let ghost g = blocks_view(cfg.blocks@);
    let starts = vec![cfg.entry];
    let marks = reach_marks(cfg, &starts);
    let mut out: BTreeSet<usize> = BTreeSet::new();
    let mut i: usize = 0;
    while i < marks.len()
        invariant
            i <= marks@.len(),
            marks@.len() == g.len(),
            g == blocks_view(cfg.blocks@),
            forall|x: int| 0 <= x < g.len() ==> (marks@[x] <==> reached_from(g, starts@, x)),
            starts@ == seq![cfg.entry],
            out@ == Set::new(|x: usize| x < i && marks@[x as int]),
        decreases marks@.len() - i,
    {
        if marks[i] {
            out.insert(i);
        }
        i += 1;
        assert(out@ =~= Set::new(|x: usize| x < i && marks@[x as int]));
    }
    assert forall|x: usize| #[trigger] out@.contains(x) == reachable_set(g, cfg.entry as int).contains(x) by {
        if x < g.len() {
            assert(reached_from(g, starts@, x as int) == reaches(g, cfg.entry as int, x as int)) by {
                if reaches(g, cfg.entry as int, x as int) {
                    assert(starts@[0] == cfg.entry);
                }
            }
        }
    }
    assert(out@ =~= reachable_set(g, cfg.entry as int));
    out
}

/// Whether block `b` reaches itself along one or more edges.
pub open spec fn on_cycle(g: Seq<BlockModel>, b: int) -> bool {
    reached_from(g, g[b].succs, b)
}

/// Whether the graph has a cycle.
pub fn has_cycle(cfg: &Cfg) -> (r: bool)
    requires
        graph_wf(blocks_view(cfg.blocks@)),
    ensures
        r == exists|b: int| 0 <= b < cfg.blocks@.len() && #[trigger] on_cycle(blocks_view(cfg.blocks@), b),
{
    let ghost g = blocks_view(cfg.blocks@);
    let n = cfg.blocks.len();
    let mut b: usize = 0;
    while b < n
        invariant
            b <= n,
            n == g.len(),
            g == blocks_view(cfg.blocks@),
            graph_wf(g),
            forall|c: int| 0 <= c < b ==> !#[trigger] on_cycle(g, c),
        decreases n - b,
    {
        assert(cfg.blocks@[b as int]@ == g[b as int]);
        assert forall|i: int| 0 <= i < cfg.blocks@[b as int].succs@.len() implies cfg.blocks@[b as int].succs@[i]
            < cfg.blocks@.len() by {
            assert(g[b as int].succs[i] < g.len());
        }
        let marks = reach_marks(cfg, &cfg.blocks[b].succs);
        if marks[b] {
            assert(on_cycle(g, b as int));
            return true;
        }
        b += 1;
    }
    false
}

/// `cfg blocks=N reachable=R cyclic=C`.
pub open spec fn cfg_summary(g: Seq<BlockModel>, entry: int) -> Seq<char> {
    "cfg blocks="@ + dec_nat(g.len()) + " reachable="@ + dec_nat(reachable_set(g, entry).len())
        + " cyclic="@ + if exists|b: int| 0 <= b < g.len() && #[trigger] on_cycle(g, b) { "true"@ } else { "false"@ }
}

/// One-line summary of a graph.
pub fn summarize(cfg: &Cfg) -> (r: String)
    requires
        graph_wf(blocks_view(cfg.blocks@)),
        cfg.entry < cfg.blocks@.len(),
    ensures
        r@ == cfg_summary(blocks_view(cfg.blocks@), cfg.entry as int),
{
    let reach = reachable(cfg);
    let cyclic = has_cycle(cfg);
    let mut out = String::new();
    out.append("cfg blocks=");
    push_dec(&mut out, cfg.blocks.len() as u64);
    out.append(" reachable=");
    push_dec(&mut out, reach.len() as u64);
    out.append(" cyclic=");
    out.append(if cyclic { "true" } else { "false" });
    out
}


/// Every block of a function's graph ends within the code.
pub proof fn lemma_block_ends(code: Seq<u8>)
    ensures
        forall|b: int| 0 <= b < spec_blocks(code).len() ==> (#[trigger] spec_blocks(code)[b]).end <= code.len()
            || code.len() > usize::MAX,
{
    if code.len() > 0 && code.len() <= usize::MAX {
        lemma_leader_marks_len(code, 0, Seq::new(code.len(), |p: int| p == 0));
        lemma_marked_positions_bound(leader_marks(code));
    }
}


/// Every successor of a function's graph names one of its blocks.
pub proof fn lemma_blocks_wf(code: Seq<u8>)
    ensures
        graph_wf(spec_blocks(code)),
{
    if code.len() > 0 {
        let ls = leaders(code);
        let g = spec_blocks(code);
        assert forall|b: int, k: int| 0 <= b < g.len() && 0 <= k < g[b].succs.len() implies #[trigger] g[b].succs[k]
            < g.len() by {
            let t = block_succ(code, ls, b);
            lemma_position_bound(ls, choose_target(code, ls, b), 0);
            assert(g[b].succs == opt_seq(t));
        }
    }
}


proof fn lemma_marked_increasing(m: Seq<bool>)
    requires
        m.len() <= usize::MAX,
    ensures
        forall|i: int, j: int| 0 <= i < j < marked_positions(m).len()
            ==> marked_positions(m)[i] < marked_positions(m)[j],
    decreases m.len(),
{
    if m.len() > 0 {
        lemma_marked_increasing(m.drop_last());
        lemma_marked_positions_bound(m.drop_last());
        let p = marked_positions(m.drop_last());
        let q = marked_positions(m);
        assert forall|i: int, j: int| 0 <= i < j < q.len() implies q[i] < q[j] by {
            if m.last() {
                assert(q == p.push((m.len() - 1) as usize));
                assert(q[i] == p[i]);
                if j < p.len() {
                    assert(q[j] == p[j]);
                } else {
                    assert(p[i] < m.drop_last().len());
                }
            } else {
                assert(q == p);
            }
        }
    }
}

proof fn lemma_marked_first_zero(m: Seq<bool>)
    requires
        m.len() > 0,
        m[0],
    ensures
        marked_positions(m).len() > 0,
        marked_positions(m)[0] == 0,
    decreases m.len(),
{
    lemma_marked_nonempty(m);
    if m.len() > 1 {
        lemma_marked_first_zero(m.drop_last());
        assert(marked_positions(m)[0] == marked_positions(m.drop_last())[0]);
    }
}

proof fn lemma_marked_len(m: Seq<bool>)
    ensures
        marked_positions(m).len() <= m.len(),
    decreases m.len(),
{
    if m.len() > 0 {
        lemma_marked_len(m.drop_last());
    }
}

proof fn lemma_preds_upto_contains(code: Seq<u8>, ls: Seq<usize>, s: int, n: nat, b: usize)
    requires
        n <= usize::MAX,
    ensures
        preds_upto(code, ls, s, n).contains(b) <==> (b < n && block_succ(code, ls, b as int) == Some(s as usize)),
    decreases n,
{
    if n > 0 {
        lemma_preds_upto_contains(code, ls, s, (n - 1) as nat, b);
        let p = preds_upto(code, ls, s, (n - 1) as nat);
        if block_succ(code, ls, n - 1) == Some(s as usize) {
            let q = p.push((n - 1) as usize);
            if p.contains(b) {
                let k = choose|k: int| 0 <= k < p.len() && p[k] == b;
                assert(q[k] == b);
            }
            if q.contains(b) && b != n - 1 {
                let k = choose|k: int| 0 <= k < q.len() && q[k] == b;
                assert(k < p.len());
                assert(p[k] == b);
            }
            if b == n - 1 {
                assert(q[p.len() as int] == b);
            }
        }
    }
}

/// The basic blocks of a function partition its code: for non-empty code the first block
/// starts at offset 0, the last ends at the end of the code, each block is non-empty and
/// ends where the next begins, block `i` has id `i`; and the successor and predecessor
/// lists agree: `s` is a successor of `b` exactly when `b` is a predecessor of `s`.
pub proof fn law_blocks_partition(code: Seq<u8>)
    requires
        code.len() <= usize::MAX,
    ensures
        code.len() == 0 <==> spec_blocks(code).len() == 0,
        spec_blocks(code).len() <= code.len(),
        forall|i: int, j: int| 0 <= i < j < spec_blocks(code).len()
            ==> (#[trigger] spec_blocks(code)[i]).start < (#[trigger] spec_blocks(code)[j]).start,
        code.len() > 0 ==> spec_blocks(code)[0].start == 0,
        code.len() > 0 ==> spec_blocks(code).last().end == code.len(),
        forall|i: int| 0 <= i < spec_blocks(code).len() ==> {
            &&& (#[trigger] spec_blocks(code)[i]).id == i
            &&& spec_blocks(code)[i].start < spec_blocks(code)[i].end
            &&& i + 1 < spec_blocks(code).len() ==> spec_blocks(code)[i].end == spec_blocks(code)[i + 1].start
        },
        forall|b: int, t: int| 0 <= b < spec_blocks(code).len() && 0 <= t < spec_blocks(code).len() ==>
            ((#[trigger] spec_blocks(code)[b]).succs.contains(t as usize)
                <==> (#[trigger] spec_blocks(code)[t]).preds.contains(b as usize)),
{
    if code.len() > 0 {
        let m = leader_marks(code);
        let ls = leaders(code);
        let g = spec_blocks(code);
        lemma_leader_marks_len(code, 0, Seq::new(code.len(), |p: int| p == 0));
        lemma_first_mark(code);
        lemma_marked_first_zero(m);
        lemma_marked_increasing(m);
        lemma_marked_positions_bound(m);
        lemma_marked_len(m);
        assert(g.len() == ls.len());
        assert forall|i: int| 0 <= i < g.len() implies {
            &&& (#[trigger] g[i]).id == i
            &&& g[i].start < g[i].end
            &&& i + 1 < g.len() ==> g[i].end == g[i + 1].start
        } by {
            assert(g[i].id == i);
            assert(g[i].start == ls[i]);
            assert(ls[i] < code.len());
            if i + 1 < ls.len() {
                assert(ls[i] < ls[i + 1]);
                assert(g[i].end == ls[i + 1]);
                assert(g[i + 1].start == ls[i + 1]);
            } else {
                assert(g[i].end == code.len());
            }
        }
        assert forall|b: int, t: int| 0 <= b < g.len() && 0 <= t < g.len() implies
            ((#[trigger] g[b]).succs.contains(t as usize) <==> (#[trigger] g[t]).preds.contains(b as usize)) by {
            lemma_preds_upto_contains(code, ls, t, ls.len(), b as usize);
            let o = block_succ(code, ls, b);
            if g[b].succs.contains(t as usize) {
                assert(o == Some(t as usize));
            }
            if o == Some(t as usize) {
                assert(opt_seq(o)[0] == t as usize);
            }
        }
    }
}


proof fn lemma_position_of_increasing(s: Seq<usize>, j: int, k: nat)
    requires
        0 <= k <= j < s.len(),
        forall|a: int, b: int| 0 <= a < b < s.len() ==> s[a] < s[b],
    ensures
        position_of(s, s[j] as int, k) == Some(j as usize),
    decreases j - k,
{
    if k < j {
        assert(s[k as int] < s[j]);
        lemma_position_of_increasing(s, j, k + 1);
    }
}

/// How a block's last instruction decides its successors: a block ending in `ret`, `throw`
/// or `tail` has no successor; a block ending in any other instruction but `sjmp` falls
/// through to the next block, its only successor.
pub proof fn law_block_exits(code: Seq<u8>)
    requires
        code.len() <= usize::MAX,
    ensures
        forall|i: int| 0 <= i < spec_blocks(code).len() ==> {
            let b = #[trigger] spec_blocks(code)[i];
            let op = code[last_start(code, b.start as nat, b.end as nat, b.start as nat) as int];
            &&& (op == bytecode::RET || op == bytecode::THROW || op == bytecode::TAIL) ==> b.succs.len() == 0
            &&& (op != bytecode::SJMP && op != bytecode::RET && op != bytecode::THROW && op != bytecode::TAIL
                && i + 1 < spec_blocks(code).len()) ==> b.succs == seq![(i + 1) as usize]
        },
{
    if code.len() > 0 {
        let m = leader_marks(code);
        let ls = leaders(code);
        let g = spec_blocks(code);
        lemma_leader_marks_len(code, 0, Seq::new(code.len(), |p: int| p == 0));
        lemma_marked_increasing(m);
        lemma_marked_positions_bound(m);
        lemma_marked_len(m);
        assert forall|i: int| 0 <= i < g.len() implies {
            let b = #[trigger] g[i];
            let op = code[last_start(code, b.start as nat, b.end as nat, b.start as nat) as int];
            &&& (op == bytecode::RET || op == bytecode::THROW || op == bytecode::TAIL) ==> b.succs.len() == 0
            &&& (op != bytecode::SJMP && op != bytecode::RET && op != bytecode::THROW && op != bytecode::TAIL
                && i + 1 < g.len()) ==> b.succs == seq![(i + 1) as usize]
        } by {
            let b = g[i];
            assert(b.start == ls[i] && b.end == block_end(ls, code.len(), i));
            if i + 1 < ls.len() {
                assert(ls[i] < ls[i + 1]);
                lemma_position_of_increasing(ls, i + 1, 0);
            }
            assert(b.succs == opt_seq(block_succ(code, ls, i)));
        }
    }
}


proof fn lemma_position_found(s: Seq<usize>, x: int, i: nat)
    requires
        s.len() <= usize::MAX,
    ensures
        position_of(s, x, i) matches Some(j) ==> j < s.len() && s[j as int] == x,
    decreases s.len() - i,
{
    if i < s.len() && s[i as int] != x {
        lemma_position_found(s, x, i + 1);
    }
}

/// A block ending in `sjmp` has at most one successor, and that successor is the block that
/// starts exactly at the jump's target, `pc + 2` plus the signed operand byte.
pub proof fn law_jump_successor_starts_at_target(code: Seq<u8>)
    requires
        code.len() <= usize::MAX,
    ensures
        forall|i: int| 0 <= i < spec_blocks(code).len() ==> {
            let b = #[trigger] spec_blocks(code)[i];
            let lp = last_start(code, b.start as nat, b.end as nat, b.start as nat) as int;
            code[lp] == bytecode::SJMP && lp + 1 < code.len() ==> b.succs.len() <= 1 && (b.succs.len() == 1 ==> {
                let t = b.succs[0] as int;
                &&& 0 <= t < spec_blocks(code).len()
                &&& spec_blocks(code)[t].start as int
                    == lp + 2 + (if code[lp + 1] < 128 { code[lp + 1] as int } else { code[lp + 1] as int - 256 })
            })
        },
{
    if code.len() > 0 {
        let ls = leaders(code);
        let g = spec_blocks(code);
        lemma_leader_marks_len(code, 0, Seq::new(code.len(), |p: int| p == 0));
        lemma_marked_len(leader_marks(code));
        assert forall|i: int| 0 <= i < g.len() implies {
            let b = #[trigger] g[i];
            let lp = last_start(code, b.start as nat, b.end as nat, b.start as nat) as int;
            code[lp] == bytecode::SJMP && lp + 1 < code.len() ==> b.succs.len() <= 1 && (b.succs.len() == 1 ==> {
                let t = b.succs[0] as int;
                &&& 0 <= t < g.len()
                &&& g[t].start as int == lp + 2 + (if code[lp + 1] < 128 { code[lp + 1] as int } else { code[lp + 1] as int - 256 })
            })
        } by {
            let b = g[i];
            assert(b.start == ls[i] && b.end == block_end(ls, code.len(), i));
            let lp = last_start(code, b.start as nat, b.end as nat, b.start as nat) as int;
            if code[lp] == bytecode::SJMP && lp + 1 < code.len() {
                let x = code[lp + 1];
                assert((x as i8) as int == (if x < 128 { x as int } else { x as int - 256 })) by (bit_vector);
                lemma_position_found(ls, jump_target(code, lp), 0);
                assert(b.succs == opt_seq(block_succ(code, ls, i)));
            }
        }
    }
}


proof fn lemma_mark_at_keeps(code: Seq<u8>, pc: nat, marks: Seq<bool>, x: int)
    requires
        pc < code.len(),
        marks.len() == code.len(),
        0 <= x < marks.len(),
        marks[x],
    ensures
        mark_leaders_at(code, pc, marks)[x],
        mark_leaders_at(code, pc, marks).len() == marks.len(),
{
}

proof fn lemma_marks_keep(code: Seq<u8>, pc: nat, marks: Seq<bool>, x: int)
    requires
        marks.len() == code.len(),
        0 <= x < marks.len(),
        marks[x],
    ensures
        leader_marks_from(code, pc, marks)[x],
    decreases code.len() - pc,
{
    if pc < code.len() {
        let next = pc + lenient_len(code[pc as int]);
        lemma_mark_at_keeps(code, pc, marks, x);
        if next < code.len() {
            lemma_marks_keep(code, next, mark_leaders_at(code, pc, marks), x);
        }
    }
}

proof fn lemma_walk_marks_targets(code: Seq<u8>, pc: nat, marks: Seq<bool>, i: int)
    requires
        marks.len() == code.len(),
        code.len() <= usize::MAX,
        0 <= i < bytecode::spec_lenient_walk(code, pc).len(),
    ensures
        ({
            let e = bytecode::spec_lenient_walk(code, pc)[i];
            let t = jump_target(code, e.0 as int);
            &&& e.1 == bytecode::SJMP && e.0 + 1 < code.len() && 0 <= t < code.len()
                ==> leader_marks_from(code, pc, marks)[t]
            &&& (e.1 == bytecode::SJMP || isa::table_branch(e.1)) && e.0 + lenient_len(e.1) < code.len()
                ==> leader_marks_from(code, pc, marks)[e.0 + lenient_len(e.1)]
        }),
    decreases code.len() - pc,
{
    let w = bytecode::spec_lenient_walk(code, pc);
    let next = pc + lenient_len(code[pc as int]);
    let m1 = mark_leaders_at(code, pc, marks);
    if next < code.len() {
        assert(w =~= seq![(pc as usize, code[pc as int])] + bytecode::spec_lenient_walk(code, next));
    } else {
        assert(w =~= seq![(pc as usize, code[pc as int])]);
    }
    let e = w[i];
    let t = jump_target(code, e.0 as int);
    let nx = e.0 + lenient_len(e.1);
    if i == 0 {
        assert(e == (pc as usize, code[pc as int]));
        if e.1 == bytecode::SJMP && e.0 + 1 < code.len() && 0 <= t < code.len() {
            assert(m1[t]);
            if next < code.len() {
                lemma_marks_keep(code, next, m1, t);
            }
        }
        if (e.1 == bytecode::SJMP || isa::table_branch(e.1)) && nx < code.len() {
            assert(m1[nx]);
            lemma_marks_keep(code, next, m1, nx);
        }
    } else {
        assert(w[i] == bytecode::spec_lenient_walk(code, next)[i - 1]);
        lemma_walk_marks_targets(code, next, m1, i - 1);
    }
}

proof fn lemma_marked_contains(m: Seq<bool>, x: int)
    requires
        0 <= x < m.len(),
        m[x],
        m.len() <= usize::MAX,
    ensures
        marked_positions(m).contains(x as usize),
    decreases m.len(),
{
    if x < m.len() - 1 {
        lemma_marked_contains(m.drop_last(), x);
        let p = marked_positions(m.drop_last());
        let k = choose|k: int| 0 <= k < p.len() && p[k] == x as usize;
        assert(marked_positions(m)[k] == x as usize);
    } else {
        assert(marked_positions(m).last() == x as usize);
    }
}

/// Every in-range target of a `sjmp` met while walking the code starts a basic block, and
/// so does the instruction after any block-ending instruction (a `sjmp` or one the ISA
/// table marks as a branch).
pub proof fn law_jump_targets_start_blocks(code: Seq<u8>)
    requires
        code.len() <= usize::MAX,
    ensures
        forall|i: int| 0 <= i < bytecode::spec_lenient_walk(code, 0).len() ==> {
            let e = #[trigger] bytecode::spec_lenient_walk(code, 0)[i];
            let t = jump_target(code, e.0 as int);
            &&& e.1 == bytecode::SJMP && e.0 + 1 < code.len() && 0 <= t < code.len()
                ==> exists|j: int| 0 <= j < spec_blocks(code).len() && #[trigger] spec_blocks(code)[j].start == t
            &&& (e.1 == bytecode::SJMP || isa::table_branch(e.1)) && e.0 + lenient_len(e.1) < code.len()
                ==> exists|j: int| 0 <= j < spec_blocks(code).len()
                    && #[trigger] spec_blocks(code)[j].start == e.0 + lenient_len(e.1)
        },
{
    let init = Seq::new(code.len(), |p: int| p == 0);
    assert forall|i: int| 0 <= i < bytecode::spec_lenient_walk(code, 0).len() implies {
        let e = #[trigger] bytecode::spec_lenient_walk(code, 0)[i];
        let t = jump_target(code, e.0 as int);
        &&& e.1 == bytecode::SJMP && e.0 + 1 < code.len() && 0 <= t < code.len()
            ==> exists|j: int| 0 <= j < spec_blocks(code).len() && #[trigger] spec_blocks(code)[j].start == t
        &&& (e.1 == bytecode::SJMP || isa::table_branch(e.1)) && e.0 + lenient_len(e.1) < code.len()
            ==> exists|j: int| 0 <= j < spec_blocks(code).len()
                && #[trigger] spec_blocks(code)[j].start == e.0 + lenient_len(e.1)
    } by {
        let e = bytecode::spec_lenient_walk(code, 0)[i];
        let t = jump_target(code, e.0 as int);
        let nx = e.0 + lenient_len(e.1);
        lemma_walk_marks_targets(code, 0, init, i);
        lemma_leader_marks_len(code, 0, init);
        let ls = leaders(code);
        if e.1 == bytecode::SJMP && e.0 + 1 < code.len() && 0 <= t < code.len() {
            lemma_marked_contains(leader_marks(code), t);
            let j = choose|j: int| 0 <= j < ls.len() && ls[j] == t as usize;
            assert(spec_blocks(code)[j].start == t);
        }
        if (e.1 == bytecode::SJMP || isa::table_branch(e.1)) && nx < code.len() {
            lemma_marked_contains(leader_marks(code), nx);
            let j = choose|j: int| 0 <= j < ls.len() && ls[j] == nx as usize;
            assert(spec_blocks(code)[j].start == nx);
        }
    }
}


/// The blocks reached from the entry include the entry itself and are closed under
/// successors: every successor of a reached block is reached.
pub proof fn law_reachable_closed(g: Seq<BlockModel>, entry: int)
    requires
        0 <= entry < g.len(),
        g.len() <= usize::MAX,
        graph_wf(g),
    ensures
        reachable_set(g, entry).contains(entry as usize),
        forall|b: usize, k: int| reachable_set(g, entry).contains(b) && 0 <= k < g[b as int].succs.len()
            ==> reachable_set(g, entry).contains(#[trigger] g[b as int].succs[k]),
{
    assert(is_path(g, seq![entry]));
    assert(reaches(g, entry, entry));
    assert forall|b: usize, k: int| reachable_set(g, entry).contains(b) && 0 <= k < g[b as int].succs.len()
        implies reachable_set(g, entry).contains(#[trigger] g[b as int].succs[k]) by {
        let s = g[b as int].succs[k];
        let p = choose|p: Seq<int>| #[trigger] is_path(g, p) && p[0] == entry && p.last() == b as int;
        assert(g[b as int].succs.contains(s));
        assert(edge(g, b as int, s as int));
        lemma_path_extend(g, p, s as int);
        assert(reaches(g, entry, s as int));
    }
}

} // verus!
