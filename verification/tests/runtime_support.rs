use cellvm::arena::Arena;
use cellvm::docs;
use cellvm::gc;
use cellvm::heap::Registry;
use cellvm::host::{self, HostTable};
use cellvm::mirror;
use cellvm::module::{Function, Module};
use cellvm::profile::Counters;
use cellvm::value::Obj;

fn func(code: Vec<u8>) -> Function {
    Function {
        code,
        max_locals: 3,
        frame_size: 12,
        consts: vec![-1, 7],
        string_pool: vec!["hi".to_string()],
        upvalues: vec![(true, 1)],
        name: "g".to_string(),
    }
}

fn fingerprint_oracle(f: &Function) -> u64 {
    let mut h = 0x811c9dc5u64;
    for b in &f.code {
        h ^= *b as u64;
        h = h.wrapping_mul(0x01000193);
    }
    h ^= f.frame_size as u64;
    h = h.wrapping_mul(0x01000193);
    h ^= f.max_locals as u64;
    for c in &f.consts {
        h ^= *c as u64;
        h = h.rotate_left(5);
    }
    for s in &f.string_pool {
        for b in s.bytes() {
            h ^= b as u64;
            h = h.wrapping_mul(0x01000193);
        }
    }
    h
}

#[test]
fn fingerprints() {
    let f = func(vec![0x01, 2, 0xFF]);
    assert_eq!(mirror::function_fingerprint(&f), fingerprint_oracle(&f));
    let m = Module { functions: vec![f.clone()] };
    assert_eq!(mirror::module_fingerprint(&m), fingerprint_oracle(&f).rotate_left(11));
    assert_eq!(mirror::module_fingerprint(&Module { functions: vec![] }), 0);
}

#[test]
fn structural_equality_and_copies() {
    let f = func(vec![0x01, 2, 0xFF]);
    let mut g = mirror::clone_trimmed(&f);
    assert!(mirror::functions_equal(&f, &g));
    assert_eq!(g.name, "g");
    assert_eq!(g.upvalues, vec![(true, 1)]);
    g.string_pool.push("x".to_string());
    assert!(!mirror::functions_equal(&f, &g));
    let t = mirror::strip_trailing_nops(&func(vec![1, 2, 0, 0]));
    assert_eq!(t.code, vec![1, 2]);
    assert_eq!(mirror::strip_trailing_nops(&func(vec![0, 0])).code, vec![0]);
}

#[test]
fn diff_summary() {
    let a = func(vec![0xFF]);
    let b = Function { max_locals: 4, ..func(vec![0xFF]) };
    let s = mirror::summarize_diff(&a, &b);
    assert_eq!(
        s,
        format!(
            "code_eq=true locals_eq=false frame_eq=true consts_eq=true fp_a={:016x} fp_b={:016x}",
            fingerprint_oracle(&a),
            fingerprint_oracle(&b)
        )
    );
}

#[test]
fn standard_host_table() {
    let t = host::standard_hosts();
    assert_eq!(t.len(), 7);
    let e = t.lookup("len").unwrap();
    assert_eq!((e.name.as_str(), e.arity, e.tag), ("len", 1, 3));
    assert_eq!(t.lookup_tag(6), Some("read"));
    assert!(t.lookup("nope").is_none());
    assert!(t.lookup_tag(99).is_none());
}

#[test]
fn host_registration_replaces() {
    let mut t = HostTable::default();
    t.register("f", 1, 10);
    t.register("f", 2, 11);
    assert_eq!(t.len(), 1);
    assert_eq!(t.lookup("f").unwrap().arity, 2);
    assert_eq!(t.lookup_tag(10), Some("f"));
    t.register("g", 0, 11);
    assert_eq!(t.lookup_tag(11), Some("g"));
    assert_eq!(host::encode_host_stub(0x0102_0304, 2), vec![4, 3, 2, 1, 2, 0, 0, 0]);
}

#[test]
fn gc_marks_and_counts() {
    let mut reg = Registry::new();
    reg.register(Registry::alloc_obj(1));
    reg.register(Registry::alloc_obj(2));
    reg.register(Registry::alloc_obj(3));
    let m = gc::mark_from_roots(&reg, &[0, 2, 9]);
    assert_eq!(m, vec![true, false, true]);
    assert_eq!(gc::count_live(&m), 2);
    let st = gc::summarize_heap(&reg);
    assert_eq!((st.marked, st.swept, st.bytes_reclaimed), (3, 0, 0));
    assert_eq!(gc::estimate_bytes(&Obj { kind: 1, mark: 0 }), std::mem::size_of::<Obj>());
    assert_eq!(gc::nursery_threshold(10), 64);
    assert_eq!(gc::nursery_threshold(100), 200);
    assert_eq!(gc::nursery_threshold(5000), 4096);
}

#[test]
fn arena_bumps_and_resets() {
    let mut a = Arena::with_chunk(8);
    assert_eq!(a.alloc_bytes(5), (0, 0));
    assert_eq!(a.alloc_bytes(2), (0, 5));
    assert_eq!(a.alloc_bytes(4), (1, 0));
    assert_eq!(a.alloc_bytes(20), (2, 0));
    assert_eq!(a.used(), 31);
    a.reset();
    assert_eq!(a.used(), 0);
    assert_eq!(a.alloc_bytes(8), (0, 0));
    let mut d = Arena::default();
    assert_eq!(d.alloc_bytes(4096), (0, 0));
    assert_eq!(d.alloc_bytes(1), (1, 0));
}

#[test]
fn docs_and_stages() {
    assert_eq!(docs::stage_name(0), "load");
    assert_eq!(docs::stage_name(3), "execute");
    assert_eq!(docs::stage_name(9), "unknown");
    assert_eq!(docs::stage_count(), 4);
    let all = docs::all_docs();
    assert!(all.starts_with(docs::pipeline_overview()));
    assert!(all.ends_with(docs::fuzz_notes()));
    assert_eq!(
        all.len(),
        docs::pipeline_overview().len() + docs::loader_notes().len() + docs::verifier_notes().len()
            + docs::executor_notes().len() + docs::format_notes().len() + docs::fuzz_notes().len()
    );
}

#[test]
fn profile_counters() {
    let mut c = Counters::default();
    c.bump_op();
    c.bump_op();
    c.bump_call();
    c.bump_jump();
    assert_eq!(c.snapshot(), (2, 1, 0, 0, 1));
    assert_eq!(c.render(), "ops=2 calls=1 throws=0 interns=0 jumps=1");
}
