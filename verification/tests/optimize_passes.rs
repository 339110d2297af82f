use cellvm::cfg::build;
use cellvm::module::{Function, Module};
use cellvm::optimize::constfold::{self, Folded};
use cellvm::optimize::{deadcode, peephole};
use cellvm::passes::{coverage, metrics, normalize};

fn func(code: Vec<u8>, consts: Vec<i64>) -> Function {
    Function {
        code,
        max_locals: 2,
        frame_size: 8,
        consts,
        string_pool: vec![],
        upvalues: vec![],
        name: "f".to_string(),
    }
}

#[test]
fn straight_line_folding() {
    // push8 -3; loadk 0; loadk 5; ret
    let f = func(vec![0x01, 0xFD, 0x30, 0, 0, 0x30, 5, 0, 0xFF], vec![42]);
    let r = constfold::eval_straight_line(&f);
    assert_eq!(r.len(), 4);
    assert_eq!(r[0].0, 0);
    assert!(matches!(r[0].1, Folded::Imm(-3)));
    assert_eq!(r[1].0, 2);
    assert!(matches!(r[1].1, Folded::Imm(42)));
    assert_eq!(r[2].0, 5);
    assert!(matches!(r[2].1, Folded::Unknown));
    assert!(matches!(r[3].1, Folded::Unknown));
    assert_eq!(constfold::known_imm_count(&f), 2);
}

#[test]
fn const_digest_of_empty_function() {
    let f = func(vec![], vec![]);
    assert_eq!(constfold::const_digest(&f), 0xcbf29ce484222325);
}

#[test]
fn const_digest_mixes_constants() {
    let f = func(vec![0xFF], vec![1]);
    let expected = (0xcbf29ce484222325u64 ^ 1).wrapping_mul(0x100000001b3);
    assert_eq!(constfold::const_digest(&f), expected);
}

#[test]
fn strip_nops_removes_only_nops() {
    let (code, st) = peephole::strip_nops(&[0x00, 0x01, 7, 0x00, 0xFF]);
    assert_eq!(code, vec![0x01, 7, 0xFF]);
    assert_eq!(st.nops_removed, 2);
    assert_eq!(st.push_pop_pairs, 0);
}

#[test]
fn strip_nops_keeps_partial_final_instruction() {
    let (code, st) = peephole::strip_nops(&[0x00, 0x30, 1]);
    assert_eq!(code, vec![0x30, 1]);
    assert_eq!(st.nops_removed, 1);
}

#[test]
fn redundant_windows_and_hotness() {
    // window 1; window 2; window 3; ret
    assert_eq!(peephole::count_redundant_windows(&[0x02, 1, 0x02, 2, 0x02, 3, 0xFF]), 2);
    // call 0; sjmp 0; loadlocal 0; ret
    assert_eq!(peephole::estimate_hotness(&[0x35, 0, 0, 0x20, 0, 0x31, 0, 0, 0xFF]), 4 + 2 + 1);
}

#[test]
fn deadcode_plan_drops_unreached_block() {
    // sjmp +2 skips push8 1; ret
    let f = func(vec![0x20, 0x02, 0x01, 1, 0xFF], vec![]);
    let p = deadcode::plan(&f);
    assert_eq!(p.keep.iter().copied().collect::<Vec<_>>(), vec![0, 2]);
    assert_eq!(p.drop_pcs.iter().copied().collect::<Vec<_>>(), vec![2, 3]);
    assert_eq!(deadcode::unreachable_byte_count(&f), 2);
    let g = build(&f);
    assert!(!deadcode::is_trivial(&g));
}

#[test]
fn single_block_is_trivial() {
    let f = func(vec![0x01, 1, 0xFF], vec![]);
    let g = build(&f);
    assert!(deadcode::is_trivial(&g));
    assert_eq!(deadcode::unreachable_byte_count(&f), 0);
}

#[test]
fn coverage_and_missing_opcodes() {
    let m = Module { functions: vec![func(vec![0x01, 1, 0xFF], vec![]), func(vec![0x00, 0xFF], vec![])] };
    let cov = coverage::opcode_coverage(&m);
    assert_eq!(cov.iter().copied().collect::<Vec<_>>(), vec![0x00, 0x01, 0xFF]);
    let missing = coverage::missing_opcodes(&m);
    assert_eq!(missing.len(), 16);
    assert_eq!(missing[0], "window");
    assert!(!missing.contains(&"nop"));
    assert!(!missing.contains(&"ret"));
}

#[test]
fn metric_vectors() {
    // call 0; sjmp +0; window 1; ret
    let f = func(vec![0x35, 0, 0, 0x20, 0, 0x02, 1, 0xFF], vec![]);
    let v = metrics::function_metric_vector(&f);
    assert_eq!(v, vec![8, 2, 2, 0, 1, 0, 6, 1]);
    let m = Module { functions: vec![f.clone(), f] };
    assert_eq!(metrics::module_metric_vector(&m), vec![16, 4, 4, 0, 2, 0, 12, 2]);
}

#[test]
fn normalized_code_and_hash() {
    assert_eq!(normalize::normalized_code(&[0x00, 0xFF]), vec![0xFF]);
    let a = Module { functions: vec![func(vec![0x00, 0xFF], vec![])] };
    let b = Module { functions: vec![func(vec![0xFF], vec![])] };
    assert_eq!(normalize::normalized_hash(&a), normalize::normalized_hash(&b));
    let empty = Module { functions: vec![] };
    assert_eq!(normalize::normalized_hash(&empty), 0x9e3779b97f4a7c15);
    assert_eq!(normalize::fingerprint(&empty), "9e3779b97f4a7c15");
    let mut h = 0x9e3779b97f4a7c15u64;
    h ^= 0xFF;
    h = h.wrapping_mul(0xbf58476d1ce4e5b9);
    h ^= 8;
    h = h.rotate_left(7);
    assert_eq!(normalize::normalized_hash(&b), h);
}
