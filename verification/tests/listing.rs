use cellvm::debug::{self, TraceBuf};
use cellvm::disasm;
use cellvm::error::Error;
use cellvm::module::{Function, Module};
use cellvm::pretty;
use cellvm::report::{self, Diagnostic};
use cellvm::value::Obj;

fn sample() -> Function {
    Function {
        // push8 -3; sjmp -2; loadlocal 1; getfield 0x001234; ret
        code: vec![0x01, 0xFD, 0x20, 0xFE, 0x31, 1, 0, 0x41, 0x34, 0x12, 0x00, 0xFF],
        max_locals: 2,
        frame_size: 8,
        consts: vec![],
        string_pool: vec!["ab".to_string(), "\u{e9}".to_string()],
        upvalues: vec![],
        name: "main".to_string(),
    }
}

#[test]
fn disassembled_lines() {
    let lines = disasm::disassemble_function(&sample());
    let texts: Vec<&str> = lines.iter().map(|l| l.text.as_str()).collect();
    assert_eq!(texts, vec!["push8 -3", "sjmp -2 ; -> 2", "loadlocal 1", "getfield 0x001234", "ret"]);
    let pcs: Vec<usize> = lines.iter().map(|l| l.pc).collect();
    assert_eq!(pcs, vec![0, 2, 4, 7, 11]);
    assert_eq!(lines[3].bytes, vec![0x41, 0x34, 0x12, 0x00]);
}

#[test]
fn window_and_truncated_operands() {
    let f = Function { code: vec![0x02, 3, 0x02, 0xFF, 0x30], ..sample() };
    let texts: Vec<String> = disasm::disassemble_function(&f).into_iter().map(|l| l.text).collect();
    assert_eq!(texts, vec!["window +3", "window -1", "loadk"]);
    let g = Function { code: vec![0x38, 7, 0x01], ..sample() };
    let texts: Vec<String> = disasm::disassemble_function(&g).into_iter().map(|l| l.text).collect();
    // a two-byte index instruction takes the next byte as its high half
    assert_eq!(texts, vec!["getupval 263", "push8"]);
}

#[test]
fn rendered_listing() {
    let s = disasm::render(&sample());
    let mut lines = s.lines();
    assert_eq!(lines.next(), Some("; function main locals=2 frame=8"));
    assert_eq!(lines.next(), Some("     0: 01 FD         push8 -3"));
    assert_eq!(lines.next(), Some("     2: 20 FE         sjmp -2 ; -> 2"));
    assert_eq!(lines.next(), Some("     4: 31 01 00      loadlocal 1"));
    assert_eq!(lines.next(), Some("     7: 41 34 12 00   getfield 0x001234"));
    assert_eq!(lines.next(), Some("     B: FF            ret"));
    assert_eq!(lines.next(), None);
    assert!(s.ends_with('\n'));
    let both = disasm::render_module(&[sample(), sample()]);
    assert_eq!(both, format!("{}\n{}", s, s));
}

#[test]
fn find_ops_and_size() {
    assert_eq!(disasm::find_ops(&sample(), 0x20), vec![2]);
    assert_eq!(disasm::find_ops(&sample(), 0x30), Vec::<usize>::new());
    // 12 code bytes, no constants, "ab" and a two-byte character
    assert_eq!(disasm::approx_size(&sample()), 12 + 2 + 2);
}

#[test]
fn dry_run_stops_at_ret() {
    let f = Function { code: vec![0x01, 5, 0x00, 0xFF, 0x01, 1], ..sample() };
    let t = debug::dry_run_trace(&f, 10);
    let pcs: Vec<usize> = t.events.iter().map(|e| e.pc).collect();
    assert_eq!(pcs, vec![0, 2, 3]);
    assert_eq!(t.render(), "   0 push8\n   2 nop\n   3 ret");
    let short = debug::dry_run_trace(&f, 2);
    assert_eq!(short.events.len(), 2);
    assert_eq!(short.max, 2);
}

#[test]
fn trace_buffer_is_bounded() {
    let mut b = TraceBuf::new(1);
    b.record(0, 0x01);
    b.record(2, 0x99);
    assert_eq!(b.events.len(), 1);
    assert_eq!(b.events[0].name, "push8");
    let mut c = TraceBuf::new(4);
    c.record(16, 0x99);
    assert_eq!(c.render(), "  10 ???");
}

#[test]
fn histogram_orders_by_count_then_opcode() {
    let f = Function { code: vec![0x00, 0x00, 0x01, 5, 0xFF, 0x00], ..sample() };
    assert_eq!(debug::opcode_histogram(&f), vec![(0x00, 3), (0x01, 1), (0xFF, 1)]);
}

#[test]
fn pretty_function_and_module() {
    let s = pretty::function(&sample());
    assert!(s.starts_with("fn main // max_locals=2 frame_size=8 consts=0 strings=2 upvalues=0\n; function main"));
    let m = Module { functions: vec![sample(), sample()] };
    assert_eq!(pretty::module(&m), format!("{}\n{}", s, s));
    assert_eq!(pretty::obj(&Obj { kind: 3, mark: 1 }), "Obj{kind=3, mark=1}");
    assert_eq!(pretty::hex_preview(&[1, 2, 255], 2), "01 02 ...");
    assert_eq!(pretty::hex_preview(&[1], 4), "01");
}

#[test]
fn error_text_matches_debug() {
    let errs = vec![
        Error::Truncated { at: "code" },
        Error::BadMagic,
        Error::UnknownOpcode { pc: 3, op: 0x99 },
        Error::OffsetTruncation { rel: -5 },
        Error::VerifyFailed("a\"b\\c\n"),
        Error::DeserFailed("x"),
        Error::Thrown,
        Error::InternMiss { id: 7 },
    ];
    for e in errs {
        assert_eq!(e.describe(), format!("{:?}", e));
    }
}

#[test]
fn diagnostics() {
    let d = Diagnostic::from_error(&Error::UnknownOpcode { pc: 3, op: 0x99 });
    assert_eq!(d.code, "E_OPCODE");
    assert_eq!(d.render(), "[E_OPCODE] UnknownOpcode { pc: 3, op: 153 } @3..4");
    let d2 = Diagnostic::from_error(&Error::LocalOutOfRange { pc: 5, slot: 9 }).note("check frame");
    assert_eq!(d2.render(), "[E_LOCAL] LocalOutOfRange { pc: 5, slot: 9 } @5..8\n  note: check frame");
    let d3 = Diagnostic::from_error(&Error::TargetNotBoundary { target: 4 });
    assert_eq!(d3.code, "E_TARGET");
    assert!(d3.span.is_none());
    let d4 = Diagnostic::from_error(&Error::Thrown);
    assert_eq!(d4.code, "E_GENERIC");
    assert_eq!(report::render_many(&[d4.clone(), d4]), "[E_GENERIC] Thrown\n[E_GENERIC] Thrown");
}
