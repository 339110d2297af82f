use cellvm::bitvec::{self, BitSet};
use cellvm::builtins::{self, BuiltinRegistry};
use cellvm::deser;
use cellvm::error::Error;
use cellvm::heap::Registry;
use cellvm::liveness;
use cellvm::module::{Function, Module};
use cellvm::pipeline;

fn func(code: Vec<u8>, locals: u16) -> Function {
    Function {
        code,
        max_locals: locals,
        frame_size: 0,
        consts: vec![],
        string_pool: vec![],
        upvalues: vec![],
        name: "h".to_string(),
    }
}

#[test]
fn bitset_set_clear_count() {
    let mut s = BitSet::with_len(70);
    assert_eq!(s.len(), 70);
    s.set(3);
    s.set(65);
    s.set(500);
    assert!(s.get(3) && s.get(65));
    assert!(!s.get(4) && !s.get(500));
    assert_eq!(s.count_ones(), 2);
    assert_eq!(s.iter_ones(), vec![3, 65]);
    s.clear(3);
    assert_eq!(s.count_ones(), 1);
    assert_eq!(s.iter_ones(), vec![65]);
}

#[test]
fn bitset_union_and_intersection() {
    let mut a = BitSet::with_len(10);
    a.set(1);
    let mut b = BitSet::with_len(10);
    b.set(1);
    b.set(2);
    assert!(a.union_with(&b));
    assert!(!a.union_with(&b));
    assert_eq!(a.iter_ones(), vec![1, 2]);
    let mut c = BitSet::with_len(10);
    c.set(2);
    c.set(7);
    c.intersect_with(&a);
    assert_eq!(c.iter_ones(), vec![2]);
    let u = bitvec::live_union(&[a, c]);
    assert_eq!(u.len(), 10);
    assert_eq!(u.iter_ones(), vec![1, 2]);
    assert_eq!(bitvec::live_union(&[]).len(), 0);
}

#[test]
fn liveness_of_single_block() {
    // loadlocal 0; storelocal 1; ret
    let f = func(vec![0x31, 0, 0, 0x32, 1, 0, 0xFF], 2);
    let l = liveness::analyze(&f);
    assert_eq!(l.live_in.len(), 1);
    assert_eq!(l.live_in[0].iter_ones(), vec![0]);
    assert_eq!(l.live_out[0].iter_ones(), Vec::<usize>::new());
    assert_eq!(liveness::max_live(&f), 1);
}

#[test]
fn liveness_flows_backwards_across_blocks() {
    // storelocal 0; sjmp +0; loadlocal 1; loadlocal 0; ret
    let f = func(vec![0x32, 0, 0, 0x20, 0, 0x31, 1, 0, 0x31, 0, 0, 0xFF], 2);
    let l = liveness::analyze(&f);
    assert_eq!(l.live_in.len(), 2);
    assert_eq!(l.live_in[1].iter_ones(), vec![0, 1]);
    assert_eq!(l.live_out[0].iter_ones(), vec![0, 1]);
    assert_eq!(l.live_in[0].iter_ones(), vec![1]);
    assert_eq!(liveness::max_live(&f), 2);
}

#[test]
fn builtin_registry() {
    let r = BuiltinRegistry::standard();
    assert_eq!(r.len(), 25);
    assert_eq!(r.lookup("add"), Some((4, 2)));
    assert_eq!(r.lookup("id"), Some((24, 1)));
    assert_eq!(r.lookup("nope"), None);
    assert_eq!(r.arity_of(21), Some(3));
    assert_eq!(r.arity_of(25), None);
    assert_eq!(r.names()[0], "print");
    let mut d = BuiltinRegistry::default();
    d.register("a", 1);
    d.register("b", 2);
    d.register("a", 3);
    assert_eq!(d.len(), 2);
    assert_eq!(builtins::summarize_builtins(&d), "builtins=2\n  [0] a/1\n  [1] b/2\n");
}

#[test]
fn binary_operators() {
    assert_eq!(builtins::binary_int("add", i64::MAX, 1), Ok(i64::MIN));
    assert_eq!(builtins::binary_int("div", -7, 2), Ok(-3));
    assert_eq!(builtins::binary_int("mod", -7, 2), Ok(-1));
    assert_eq!(builtins::binary_int("div", i64::MIN, -1), Ok(i64::MIN));
    assert_eq!(builtins::binary_int("mod", i64::MIN, -1), Ok(0));
    assert_eq!(builtins::binary_int("div", 1, 0), Err(Error::VerifyFailed("div0")));
    assert_eq!(builtins::binary_int("mod", 1, 0), Err(Error::VerifyFailed("mod0")));
    assert_eq!(builtins::binary_int("shl", 1, 65), Ok(2));
    assert_eq!(builtins::binary_int("shr", -1, 60), Ok(15));
    assert_eq!(builtins::binary_int("lt", 1, 2), Ok(1));
    assert_eq!(builtins::binary_int("gte", 1, 2), Ok(0));
    assert_eq!(builtins::binary_int("xor", 6, 3), Ok(5));
    assert_eq!(builtins::binary_int("pow", 1, 2), Err(Error::VerifyFailed("unknown binary")));
}

#[test]
fn unary_operators() {
    assert_eq!(builtins::unary_int("ctz", 8), Ok(3));
    assert_eq!(builtins::unary_int("ctz", 0), Ok(64));
    assert_eq!(builtins::unary_int("clz", 1), Ok(63));
    assert_eq!(builtins::unary_int("clz", -1), Ok(0));
    assert_eq!(builtins::unary_int("popcnt", -1), Ok(64));
    assert_eq!(builtins::unary_int("neg", i64::MIN), Ok(i64::MIN));
    assert_eq!(builtins::unary_int("abs", -5), Ok(5));
    assert_eq!(builtins::unary_int("not", 0), Ok(1));
    assert_eq!(builtins::unary_int("sqrt", 4), Err(Error::VerifyFailed("unknown unary")));
}

#[test]
fn hashes_and_const_expressions() {
    let mut x = 5u64;
    x = x.wrapping_mul(0x9E3779B97F4A7C15).wrapping_add(0x85EBCA77C2B2AE63);
    x ^= x >> 33;
    x = x.wrapping_mul(0xFF51AFD7ED558CCD);
    x ^= x >> 33;
    assert_eq!(builtins::hash_i64(5), x);
    assert_eq!(builtins::hash_bytes(b""), 0xcbf29ce484222325);
    assert_eq!(builtins::hash_bytes(b"a"), (0xcbf29ce484222325u64 ^ 0x61).wrapping_mul(0x100000001b3));
    assert_eq!(builtins::eval_const_expr("hash", &[5]), Ok(x as i64));
    assert_eq!(builtins::eval_const_expr("add", &[1]), Err(Error::VerifyFailed("bad const expr")));
    assert_eq!(builtins::eval_const_expr("neg", &[3]), Ok(-3));
    let ok = builtins::fold_const_list(&[("add", vec![1, 2]), ("neg", vec![3])]);
    assert_eq!(ok, Ok(vec![3, -3]));
    let bad = builtins::fold_const_list(&[("add", vec![1, 2]), ("div", vec![1, 0]), ("nope", vec![])]);
    assert_eq!(bad, Err(Error::VerifyFailed("div0")));
}

#[test]
fn module_helpers() {
    let m = Module { functions: vec![func(vec![0xFF], 12), func(vec![0xFF], 3)] };
    assert_eq!(builtins::module_exports(&m), vec!["h".to_string(), "h".to_string()]);
    assert_eq!(builtins::function_arity_hint(&m.functions[0]), 8);
    assert_eq!(builtins::function_arity_hint(&m.functions[1]), 3);
}

#[test]
fn blob_roundtrip_registers_every_node() {
    let n1 = deser::build_node(7, 3, 1, &[1, 2]);
    let n2 = deser::build_node(9, 0, 0, &[]);
    let blob = deser::build_blob(&[n1, n2]);
    let mut reg = Registry::new();
    assert_eq!(deser::deserialize_into(&blob, &mut reg), Ok(()));
    assert_eq!(reg.len(), 2);
    assert_eq!(reg.get(0).map(|o| (o.kind, o.mark)), Some((7, 0)));
    assert_eq!(reg.get(1).map(|o| (o.kind, o.mark)), Some((9, 0)));
    assert_eq!(pipeline::deser_teardown(&blob), Ok(()));
    assert_eq!(pipeline::deser_teardown(&blob[..6]), Err(Error::DeserFailed("short header")));
}
