//! Constant-folding planner: scores a function by how many immediates it loads.
use vstd::prelude::*;
use crate::analysis::{
    block_span, edge_counts_fit, explain_text, first_indices, is_ranking, metric_of, metric_value,
    rank_weights, render_explain, render_summary, summary_text, take_indices, weights_of,
    weights_of_blocks,
};
use crate::cfg;
use crate::cfg::{BlockModel, blocks_view, spec_blocks};
use crate::ir;
use crate::ir::{IrInst, IrOp, lower_from};
use crate::module::{FnModel, Function, strings_view};
use crate::text::{dec_nat, push_dec};

verus! {

#[derive(Clone, Debug, Default)]
pub struct FoldingReport {
    pub score: i32,
    pub notes: Vec<String>,
    pub hot_blocks: Vec<usize>,
}

/// Whether a lowered operation loads an immediate (`Push` or `LoadK`).
pub open spec fn is_imm(op: IrOp) -> bool {
    op is Push || op is LoadK
}

/// Number of entries that load an immediate.
pub open spec fn count_imms(ir: Seq<IrInst>) -> nat
    decreases ir.len(),
{
    if ir.len() == 0 {
        0
    } else {
        count_imms(ir.drop_last()) + if is_imm(ir.last().op) { 1nat } else { 0nat }
    }
}

/// Immediate loads in the whole function.
pub open spec fn imm_count(f: FnModel) -> nat {
    count_imms(lower_from(f.code, 0))
}

/// Number of blocks of the function's graph.
pub open spec fn block_count(f: FnModel) -> nat {
    spec_blocks(f.code).len()
}

/// Sum over the blocks of three times `imms` plus the block's span.
pub open spec fn fold_total(g: Seq<BlockModel>, imms: int) -> int
    decreases g.len(),
{
    if g.len() == 0 {
        0
    } else {
        fold_total(g.drop_last(), imms) + imms * 3 + block_span(g.last())
    }
}

/// The folding score: each block adds three per immediate load of the function plus its span.
pub open spec fn folding_score(f: FnModel) -> int {
    fold_total(spec_blocks(f.code), imm_count(f) as int)
}

/// Whether the score fits in an `i32` (so no running total overflows).
pub open spec fn folding_fits(f: FnModel) -> bool {
    folding_score(f) <= i32::MAX
}

/// The note for an immediate-heavy block.
pub open spec fn heavy_note(bi: nat) -> Seq<char> {
    "folding: block "@ + dec_nat(bi) + " imm-heavy"@
}

/// With more than two immediate loads, every block is noted.
pub open spec fn folding_notes(f: FnModel) -> Seq<Seq<char>> {
    if imm_count(f) > 2 {
        Seq::new(block_count(f), |i: int| heavy_note(i as nat))
    } else {
        Seq::empty()
    }
}

/// The blocks noted, in order.
pub open spec fn folding_hot(f: FnModel) -> Seq<usize> {
    if imm_count(f) > 2 {
        Seq::new(block_count(f), |i: int| i as usize)
    } else {
        Seq::empty()
    }
}

/// The report of `analyze`.
pub open spec fn report_matches(r: FoldingReport, f: FnModel) -> bool {
    &&& r.score == folding_score(f)
    &&& strings_view(r.notes@) == folding_notes(f)
    &&& r.hot_blocks@ == folding_hot(f)
}

proof fn lemma_fold_prefix(g: Seq<BlockModel>, k: int, imms: int)
    requires
        0 <= k <= g.len(),
        imms >= 0,
    ensures
        0 <= fold_total(g.subrange(0, k), imms) <= fold_total(g, imms),
    decreases g.len() - k,
{
    if k < g.len() {
        lemma_fold_prefix(g, k + 1, imms);
        assert(g.subrange(0, k + 1).drop_last() =~= g.subrange(0, k));
    } else {
        assert(g.subrange(0, k) =~= g);
    }
    lemma_fold_nonneg(g.subrange(0, k), imms);
}

proof fn lemma_fold_nonneg(g: Seq<BlockModel>, imms: int)
    requires
        imms >= 0,
    ensures
        fold_total(g, imms) >= 0,
    decreases g.len(),
{
    if g.len() > 0 {
        lemma_fold_nonneg(g.drop_last(), imms);
    }
}

fn count_imm_loads(ir: &Vec<IrInst>) -> (r: usize)
    ensures
        r == count_imms(ir@),
{
    let mut n: usize = 0;
    let mut i: usize = 0;
    assert(ir@.subrange(0, 0) =~= Seq::<IrInst>::empty());
    while i < ir.len()
        invariant
            i <= ir@.len(),
            n <= i,
            n == count_imms(ir@.subrange(0, i as int)),
        decreases ir@.len() - i,
    {
        assert(ir@.subrange(0, i + 1).drop_last() =~= ir@.subrange(0, i as int));
        match ir[i].op {
            IrOp::Push(_) | IrOp::LoadK(_) => n += 1,
            _ => {},
        }
        i += 1;
    }
    assert(ir@.subrange(0, i as int) =~= ir@);
    n
}

/// Scores the function: each block adds three per immediate load in the function plus
/// its span; with more than two immediate loads every block is noted.
pub fn analyze(f: &Function) -> (r: FoldingReport)
    requires
        folding_fits(f@),
    ensures
        report_matches(r, f@),
{
    let g = cfg::build(f);
    let lowered = ir::lower(f);
    let imms_total = count_imm_loads(&lowered);
    let ghost gm = spec_blocks(f.code@);
    let ghost n = block_count(f@);
    let ghost k = imm_count(f@) as int;
    assert(blocks_view(g.blocks@).len() == g.blocks@.len());
    let mut score: i32 = 0;
    let mut notes: Vec<String> = Vec::new();
    let mut hot_blocks: Vec<usize> = Vec::new();
    let mut bi: usize = 0;
    while bi < g.blocks.len()
        invariant
            blocks_view(g.blocks@) == gm,
            gm == spec_blocks(f.code@),
            g.blocks@.len() == n,
            n == block_count(f@),
            k == imm_count(f@),
            imms_total == k,
            folding_fits(f@),
            bi <= n,
            score == fold_total(gm.subrange(0, bi as int), k),
            k > 2 ==> strings_view(notes@) == Seq::new(bi as nat, |i: int| heavy_note(i as nat)),
            k > 2 ==> hot_blocks@ == Seq::new(bi as nat, |i: int| i as usize),
            k <= 2 ==> notes@.len() == 0 && hot_blocks@.len() == 0,
        decreases n - bi,
    {
        let b = &g.blocks[bi];
        proof {
            assert(gm[bi as int] == b@);
            lemma_fold_prefix(gm, bi + 1, k);
            assert(gm.subrange(0, bi + 1).drop_last() =~= gm.subrange(0, bi as int));
            lemma_fold_nonneg(gm.subrange(0, bi as int), k);
        }
        let span = b.end.saturating_sub(b.start) as i32;
        let imms = imms_total as i32;
        score = score + (imms * 3 + span);
        if imms_total > 2 {
            let mut note = String::new();
            note.append("folding: block ");
            push_dec(&mut note, bi as u64);
            note.append(" imm-heavy");
            assert(note@ == heavy_note(bi as nat));
            let ghost sv = strings_view(notes@);
            notes.push(note);
            hot_blocks.push(bi);
            assert(strings_view(notes@) == sv.push(heavy_note(bi as nat)));
            assert(strings_view(notes@) =~= Seq::new((bi + 1) as nat, |i: int| heavy_note(i as nat)));
            assert(hot_blocks@ =~= Seq::new((bi + 1) as nat, |i: int| i as usize));
        }
        bi += 1;
    }
    assert(gm.subrange(0, bi as int) =~= gm);
    let r = FoldingReport { score, notes, hot_blocks };
    proof {
        if k <= 2 {
            assert(strings_view(r.notes@) =~= folding_notes(f@));
            assert(r.hot_blocks@ =~= folding_hot(f@));
        }
    }
    r
}

/// Whether the score exceeds twelve.
pub fn is_profitable(f: &Function) -> (r: bool)
    requires
        folding_fits(f@),
    ensures
        r == (folding_score(f@) > 12),
{
    analyze(f).score > 12
}

/// `folding score=<s> notes=<n> hot=[..]`.
pub fn summarize(f: &Function) -> (r: String)
    requires
        folding_fits(f@),
    ensures
        r@ == summary_text("folding"@, folding_score(f@), folding_notes(f@).len(), folding_hot(f@)),
{
    let r = analyze(f);
    assert(r.notes@.len() == strings_view(r.notes@).len());
    render_summary("folding", r.score, r.notes.len(), &r.hot_blocks)
}

pub fn metric_0(f: &Function) -> (r: i64)
    ensures
        r == metric_value(block_count(f@), f.code@.len(), 21, 39),
{
    metric_of(f, 21, 39)
}

pub fn metric_1(f: &Function) -> (r: i64)
    ensures
        r == metric_value(block_count(f@), f.code@.len(), 38, 40),
{
    metric_of(f, 38, 40)
}

pub fn metric_2(f: &Function) -> (r: i64)
    ensures
        r == metric_value(block_count(f@), f.code@.len(), 55, 43),
{
    metric_of(f, 55, 43)
}

pub fn metric_3(f: &Function) -> (r: i64)
    ensures
        r == metric_value(block_count(f@), f.code@.len(), 72, 48),
{
    metric_of(f, 72, 48)
}

pub fn metric_4(f: &Function) -> (r: i64)
    ensures
        r == metric_value(block_count(f@), f.code@.len(), 89, 55),
{
    metric_of(f, 89, 55)
}

pub fn metric_5(f: &Function) -> (r: i64)
    ensures
        r == metric_value(block_count(f@), f.code@.len(), 106, 64),
{
    metric_of(f, 106, 64)
}

pub fn metric_6(f: &Function) -> (r: i64)
    ensures
        r == metric_value(block_count(f@), f.code@.len(), 123, 75),
{
    metric_of(f, 123, 75)
}

pub fn metric_7(f: &Function) -> (r: i64)
    ensures
        r == metric_value(block_count(f@), f.code@.len(), 140, 88),
{
    metric_of(f, 140, 88)
}

pub fn metric_8(f: &Function) -> (r: i64)
    ensures
        r == metric_value(block_count(f@), f.code@.len(), 157, 103),
{
    metric_of(f, 157, 103)
}

pub fn metric_9(f: &Function) -> (r: i64)
    ensures
        r == metric_value(block_count(f@), f.code@.len(), 174, 120),
{
    metric_of(f, 174, 120)
}

/// Weight of each block: span times one plus its edge count, saturated.
pub fn block_weights(f: &Function) -> (r: Vec<i32>)
    requires
        edge_counts_fit(spec_blocks(f.code@)),
    ensures
        r@ == weights_of(spec_blocks(f.code@)),
{
    weights_of_blocks(f)
}

/// (block, weight) pairs, heaviest first; equal weights keep block order.
pub fn rank_blocks(f: &Function) -> (r: Vec<(usize, i32)>)
    requires
        edge_counts_fit(spec_blocks(f.code@)),
    ensures
        is_ranking(weights_of(spec_blocks(f.code@)), r@),
{
    let w = block_weights(f);
    rank_weights(&w)
}

/// The `k` heaviest blocks, in rank order.
pub fn top_k(f: &Function, k: usize) -> (r: Vec<usize>)
    requires
        edge_counts_fit(spec_blocks(f.code@)),
    ensures
        exists|rk: Seq<(usize, i32)>| is_ranking(weights_of(spec_blocks(f.code@)), rk)
            && r@ == first_indices(rk, k as nat),
{
    let ranked = rank_blocks(f);
    take_indices(&ranked, k)
}

/// Difference of the two functions' scores.
pub fn compare(a: &Function, b: &Function) -> (r: i32)
    requires
        folding_fits(a@),
        folding_fits(b@),
        i32::MIN <= folding_score(a@) - folding_score(b@) <= i32::MAX,
    ensures
        r == folding_score(a@) - folding_score(b@),
{
    analyze(a).score - analyze(b).score
}

/// The score of each function, in order.
pub fn batch_scores(fs: &[&Function]) -> (r: Vec<i32>)
    requires
        forall|i: int| 0 <= i < fs@.len() ==> folding_fits((#[trigger] fs@[i])@),
    ensures
        r@.len() == fs@.len(),
        forall|i: int| 0 <= i < fs@.len() ==> r@[i] == folding_score((#[trigger] fs@[i])@),
{
    let mut out: Vec<i32> = Vec::new();
    let mut i: usize = 0;
    while i < fs.len()
        invariant
            i <= fs@.len(),
            forall|j: int| 0 <= j < fs@.len() ==> folding_fits((#[trigger] fs@[j])@),
            out@.len() == i,
            forall|j: int| 0 <= j < i ==> out@[j] == folding_score((#[trigger] fs@[j])@),
        decreases fs@.len() - i,
    {
        out.push(analyze(fs[i]).score);
        i += 1;
    }
    out
}

/// `folding total=<s>` and a line per note.
pub fn explain(f: &Function) -> (r: String)
    requires
        folding_fits(f@),
    ensures
        r@ == explain_text("folding"@, folding_score(f@), folding_notes(f@)),
{
    let r = analyze(f);
    render_explain("folding", r.score, &r.notes)
}

} // verus!
