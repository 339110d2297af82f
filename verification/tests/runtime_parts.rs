use cellvm::error::Error;
use cellvm::exec;
use cellvm::module::Function;
use cellvm::reloc::{self, RelocKind, RelocTable};
use cellvm::runtime::frame::{CallFrame, CallStack};
use cellvm::runtime::guard::{self, GuardState};
use cellvm::runtime::intern_cache;
use cellvm::runtime::slots;

#[test]
fn guard_counters_and_mixing() {
    let mut g = GuardState::default();
    g.note_hit(5);
    g.note_miss(6);
    g.note_hit(7);
    assert_eq!((g.hits, g.misses, g.last), (2, 1, 7));
    assert_eq!(guard::helper_guard_0(1, 2), 3 + 4 + 531);
    assert_eq!(guard::helper_guard_0(0, 0x8000_0000), 1 + 531);
    assert_eq!(guard::validate_guard_index(3, 3), Err(Error::VerifyFailed("index")));
    assert_eq!(guard::validate_guard_index(2, 3), Ok(()));
    assert_eq!(intern_cache::helper_intern_cache_0(1, 2), 3 + 4 + 254);
    assert_eq!(slots::helper_slots_1(1, 1), 4 + 4 + 578);
}

#[test]
fn call_stack_operations() {
    let mut s = CallStack::new();
    assert_eq!(s.depth(), 0);
    assert!(s.top().is_none());
    assert_eq!(s.push(CallFrame::new(1, 10, 0)), 0);
    assert_eq!(s.push(CallFrame::new(2, 20, 4)), 1);
    assert_eq!(s.top().map(|f| f.func_idx), Some(2));
    assert_eq!(s.get(0).map(|f| (f.return_pc, f.locals_base)), Some((10, 0)));
    assert!(s.set(0, CallFrame::new(9, 11, 1)));
    assert_eq!(s.get(0).map(|f| f.func_idx), Some(9));
    assert!(!s.set(5, CallFrame::new(9, 11, 1)));
    assert_eq!(s.pop().map(|f| f.func_idx), Some(2));
    assert_eq!(s.depth(), 1);
    assert!(s.capacity() >= 1);
    s.clear();
    assert_eq!(s.depth(), 0);
}

#[test]
fn relocation_table() {
    let mut t = RelocTable::default();
    assert!(t.is_empty());
    t.push(3, RelocKind::JumpI8, 7);
    t.push(5, RelocKind::FuncIndex, 1);
    t.push(9, RelocKind::JumpI8, 2);
    assert_eq!(t.len(), 3);
    let j: Vec<u32> = t.jumps().iter().map(|r| r.at).collect();
    assert_eq!(j, vec![3, 9]);
    assert_eq!(reloc::encode_tag_jump(1, 0x0102), [1, 0, 0, 0, 2, 1, 0, 0]);
}

#[test]
fn safe_runs() {
    let f = Function {
        code: vec![0x01, 1, 0xFF],
        max_locals: 2,
        frame_size: 8,
        consts: vec![],
        string_pool: vec![],
        upvalues: vec![],
        name: "main".to_string(),
    };
    assert_eq!(exec::run_safe(&f), Ok(()));
    let bad = Function { code: vec![0x30, 9, 0, 0xFF], ..f.clone() };
    assert_eq!(exec::run_function(&bad), Err(Error::VerifyFailed("constant index out of range")));
}

#[test]
fn call_stack_updates_in_place() {
    let mut s = CallStack::new();
    assert!(s.top_mut().is_none());
    assert!(s.get_mut(0).is_none());
    s.push(CallFrame::new(1, 10, 0));
    s.push(CallFrame::new(2, 20, 4));
    s.top_mut().unwrap().return_pc = 99;
    s.get_mut(0).unwrap().closed = true;
    assert_eq!(s.top().map(|f| f.return_pc), Some(99));
    assert_eq!(s.get(0).map(|f| f.closed), Some(true));
    assert_eq!(s.get(1).map(|f| f.func_idx), Some(2));
    assert!(s.get_mut(2).is_none());
    assert_eq!(s.depth(), 2);
}
