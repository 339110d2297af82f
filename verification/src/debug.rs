//! Execution tracing: a bounded event buffer and a dry run that records instructions in order.
use vstd::prelude::*;
use crate::bytecode;
use crate::bytecode::{count_op, lenient_len, lenient_instr_len, lenient_walk, spec_lenient_walk};
use crate::disasm::op_name;
use crate::isa;
use crate::module::Function;
use crate::text::{numeral, pad_left, push_numeral, push_padded_left};

verus! {

#[derive(Clone, Debug, Default)]
pub struct TraceEvent {
    pub pc: usize,
    pub op: u8,
    pub name: &'static str,
}

#[derive(Clone, Debug, Default)]
pub struct TraceBuf {
    pub events: Vec<TraceEvent>,
    pub max: usize,
}

/// (offset, opcode) of each recorded event.
pub open spec fn event_keys(events: Seq<TraceEvent>) -> Seq<(usize, u8)> {
    events.map_values(|e: TraceEvent| (e.pc, e.op))
}

/// Every event carries the name of its opcode.
pub open spec fn events_named(events: Seq<TraceEvent>) -> bool {
    forall|i: int| 0 <= i < events.len() ==> (#[trigger] events[i]).name@ == op_name(events[i].op)
}

/// One rendered event: the offset in upper-case hex right-aligned to four, a space, the name.
pub open spec fn event_text(e: TraceEvent) -> Seq<char> {
    pad_left(numeral(e.pc as nat, 16, true), 4, ' ') + " "@ + e.name@
}

/// The rendered events, one per line.
pub open spec fn events_text(events: Seq<TraceEvent>) -> Seq<char>
    decreases events.len(),
{
    if events.len() == 0 {
        Seq::empty()
    } else if events.len() == 1 {
        event_text(events[0])
    } else {
        events_text(events.drop_last()) + "\n"@ + event_text(events.last())
    }
}

/// The instructions a dry run visits from `pc` with `steps` steps left: it stops after a
/// `ret` or `throw`, at the end of the code, or when the steps run out.
pub open spec fn trace_from(code: Seq<u8>, pc: nat, steps: nat) -> Seq<(usize, u8)>
    decreases steps,
{
    if pc >= code.len() || steps == 0 {
        Seq::empty()
    } else {
        let op = code[pc as int];
        if op == bytecode::RET || op == bytecode::THROW {
            seq![(pc as usize, op)]
        } else {
            seq![(pc as usize, op)] + trace_from(code, pc + lenient_len(op), (steps - 1) as nat)
        }
    }
}

impl TraceBuf {
    /// An empty buffer that keeps at most `max` events.
    pub fn new(max: usize) -> (r: Self)
        ensures
            r.events@.len() == 0,
            r.max == max,
    {
        TraceBuf { events: Vec::new(), max }
    }

    /// Records an event unless the buffer is full.
    pub fn record(&mut self, pc: usize, op: u8)
        ensures
            final(self).max == old(self).max,
            old(self).events@.len() >= old(self).max ==> final(self).events@ == old(self).events@,
            old(self).events@.len() < old(self).max ==> final(self).events@ == old(self).events@.push(
                TraceEvent { pc, op, name: final(self).events@.last().name },
            ),
            old(self).events@.len() < old(self).max ==> final(self).events@.last().name@ == op_name(op),
    {
        if self.events.len() >= self.max {
            return;
        }
        let name: &'static str = match isa::name_of(op) {
            Some(n) => n,
            None => "???",
        };
        self.events.push(TraceEvent { pc, op, name });
    }

    /// One line per event: the offset in hex, right-aligned to four, then the name.
    pub fn render(&self) -> (r: String)
        ensures
            r@ == events_text(self.events@),
    {
        proof {
            reveal_strlit(" ");
            reveal_strlit("\n");
        }
        let ghost es = self.events@;
        let mut s = String::new();
        let mut i: usize = 0;
        assert(es.subrange(0, 0) =~= Seq::<TraceEvent>::empty());
        while i < self.events.len()
            invariant
                es == self.events@,
                i <= es.len(),
                s@ == events_text(es.subrange(0, i as int)),
            decreases es.len() - i,
        {
            assert(es.subrange(0, i + 1).drop_last() =~= es.subrange(0, i as int));
            if i > 0 {
                s.append("\n");
            }
            let e = &self.events[i];
            let mut hexpc = String::new();
            push_numeral(&mut hexpc, e.pc as u64, 16, true);
            push_padded_left(&mut s, hexpc.as_str(), 4);
            s.append(" ");
            s.append(e.name);
            proof {
                if i == 0 {
                    assert(es.subrange(0, 1) =~= seq![es[0]]);
                }
            }
            i += 1;
            assert(s@ =~= events_text(es.subrange(0, i as int)));
        }
        assert(es.subrange(0, i as int) =~= es);
        s
    }
}

/// Records instructions from offset zero, in code order, until a `ret` or `throw` (recorded),
/// the end of the code, or `max_steps` events.
pub fn dry_run_trace(f: &Function, max_steps: usize) -> (r: TraceBuf)
    ensures
        r.max == max_steps,
        event_keys(r.events@) == trace_from(f.code@, 0, max_steps as nat),
        events_named(r.events@),
{
    let n = crate::bytes::byte_len(f.code.as_slice());
    let mut buf = TraceBuf::new(max_steps);
    let mut pc: usize = 0;
    let mut steps: usize = 0;
    assert(event_keys(buf.events@) =~= Seq::<(usize, u8)>::empty());
    while pc < n && steps < max_steps
        invariant
            n == f.code@.len(),
            n <= isize::MAX,
            pc <= n + 3,
            steps <= max_steps,
            buf.max == max_steps,
            buf.events@.len() == steps,
            events_named(buf.events@),
            event_keys(buf.events@) + trace_from(f.code@, pc as nat, (max_steps - steps) as nat) == trace_from(
                f.code@,
                0,
                max_steps as nat,
            ),
        decreases n + 3 - pc,
    {
        let op = f.code[pc];
        let ghost before = event_keys(buf.events@);
        buf.record(pc, op);
        assert(event_keys(buf.events@) =~= before.push((pc, op)));
        if op == bytecode::RET || op == bytecode::THROW {
            assert(event_keys(buf.events@) =~= trace_from(f.code@, 0, max_steps as nat));
            return buf;
        }
        let next = pc + lenient_instr_len(op);
        assert(event_keys(buf.events@) + trace_from(f.code@, next as nat, (max_steps - steps - 1) as nat)
            =~= before + trace_from(f.code@, pc as nat, (max_steps - steps) as nat));
        pc = next;
        steps += 1;
    }
    assert(trace_from(f.code@, pc as nat, (max_steps - steps) as nat) =~= Seq::<(usize, u8)>::empty());
    assert(event_keys(buf.events@) =~= trace_from(f.code@, 0, max_steps as nat));
    buf
}

/// Whether `a` comes before `b` in a histogram: more frequent first, then lower opcode.
pub open spec fn hist_before(a: (u8, usize), b: (u8, usize)) -> bool {
    a.1 > b.1 || (a.1 == b.1 && a.0 < b.0)
}

/// `r` lists each opcode met by the walk once with its count, most frequent first,
/// equal counts by opcode.
pub open spec fn is_histogram(walk: Seq<(usize, u8)>, r: Seq<(u8, usize)>) -> bool {
    &&& forall|i: int| 0 <= i < r.len() ==> (#[trigger] r[i]).1 == count_op(walk, r[i].0) && r[i].1 > 0
    &&& forall|op: u8| count_op(walk, op) > 0 ==> exists|i: int| 0 <= i < r.len() && (#[trigger] r[i]).0 == op
    &&& forall|i: int, j: int| 0 <= i < j < r.len() ==> hist_before(#[trigger] r[i], #[trigger] r[j])
}

/// How many times each opcode is met walking the function, most frequent first; equal
/// counts keep opcode order.
pub fn opcode_histogram(f: &Function) -> (r: Vec<(u8, usize)>)
    ensures
        is_histogram(spec_lenient_walk(f.code@, 0), r@),
{
    let walk = lenient_walk(f.code.as_slice());
    let ghost w = walk@;
    let mut counts: Vec<usize> = Vec::new();
    let mut z: usize = 0;
    while z < 256
        invariant
            z <= 256,
            counts@.len() == z,
            forall|o: int| 0 <= o < z ==> counts@[o] == 0,
        decreases 256 - z,
    {
        counts.push(0);
        z += 1;
    }
    let mut i: usize = 0;
    assert(w.subrange(0, 0) =~= Seq::<(usize, u8)>::empty());
    while i < walk.len()
        invariant
            w == walk@,
            i <= w.len(),
            counts@.len() == 256,
            forall|o: int| 0 <= o < 256 ==> #[trigger] counts@[o] == count_op(w.subrange(0, i as int), o as u8),
        decreases w.len() - i,
    {
        let ghost pre = w.subrange(0, i as int);
        let ghost post = w.subrange(0, i + 1);
        assert(post.drop_last() =~= pre);
        let op = walk[i].1;
        proof {
            crate::bytecode::lemma_count_op_bound(pre, op);
        }
        let c = counts[op as usize];
        counts.set(op as usize, c + 1);
        i += 1;
        assert forall|o: int| 0 <= o < 256 implies #[trigger] counts@[o] == count_op(w.subrange(0, i as int), o as u8) by {
            assert(count_op(post, o as u8) == count_op(pre, o as u8) + if op == o as u8 { 1nat } else { 0nat });
        }
    }
    assert(w.subrange(0, i as int) =~= w);
    let mut out: Vec<(u8, usize)> = Vec::new();
    let mut o: usize = 0;
    while o < 256
        invariant
            o <= 256,
            counts@.len() == 256,
            forall|x: int| 0 <= x < 256 ==> #[trigger] counts@[x] == count_op(w, x as u8),
            forall|k: int| 0 <= k < out@.len() ==> (#[trigger] out@[k]).0 < o && out@[k].1 == count_op(w, out@[k].0)
                && out@[k].1 > 0,
            forall|x: int| 0 <= x < o && #[trigger] count_op(w, x as u8) > 0 ==> exists|k: int| 0 <= k < out@.len()
                && (#[trigger] out@[k]).0 == x as u8,
            forall|a: int, b: int| 0 <= a < b < out@.len() ==> hist_before(#[trigger] out@[a], #[trigger] out@[b]),
        decreases 256 - o,
    {
        let c = counts[o];
        if c > 0 {
            let mut p: usize = 0;
            while p < out.len() && out[p].1 >= c
                invariant
                    p <= out@.len(),
                    forall|k: int| 0 <= k < p ==> (#[trigger] out@[k]).1 >= c,
                decreases out@.len() - p,
            {
                p += 1;
            }
            let ghost old_out = out@;
            proof {
                assert forall|k: int| p <= k < old_out.len() implies (#[trigger] old_out[k]).1 < c by {
                    if k > p {
                        assert(hist_before(old_out[p as int], old_out[k]));
                    }
                }
            }
            out.insert(p, (o as u8, c));
            proof {
                let s = out@;
                assert forall|k: int| 0 <= k < s.len() implies (#[trigger] s[k]).0 < o + 1 && s[k].1 == count_op(
                    w,
                    s[k].0,
                ) && s[k].1 > 0 by {
                    if k < p {
                        assert(s[k] == old_out[k]);
                    } else if k > p {
                        assert(s[k] == old_out[k - 1]);
                    }
                }
                assert forall|x: int| 0 <= x < o + 1 && #[trigger] count_op(w, x as u8) > 0 implies exists|k: int| 0 <= k < s.len()
                    && (#[trigger] s[k]).0 == x as u8 by {
                    if x == o {
                        assert(s[p as int].0 == x as u8);
                    } else {
                        let k = choose|k: int| 0 <= k < old_out.len() && (#[trigger] old_out[k]).0 == x as u8;
                        if k < p {
                            assert(s[k] == old_out[k]);
                        } else {
                            assert(s[k + 1] == old_out[k]);
                        }
                    }
                }
                assert forall|a: int, b: int| 0 <= a < b < s.len() implies hist_before(#[trigger] s[a], #[trigger] s[b]) by {
                    if b < p {
                        assert(s[a] == old_out[a] && s[b] == old_out[b]);
                    } else if b == p {
                        assert(s[a] == old_out[a]);
                    } else if a < p {
                        assert(s[a] == old_out[a] && s[b] == old_out[b - 1]);
                        assert(hist_before(old_out[a], old_out[b - 1]));
                    } else if a == p {
                        assert(s[b] == old_out[b - 1]);
                    } else {
                        assert(s[a] == old_out[a - 1] && s[b] == old_out[b - 1]);
                        assert(hist_before(old_out[a - 1], old_out[b - 1]));
                    }
                }
            }
        }
        o += 1;
    }
    proof {
        assert forall|op: u8| count_op(w, op) > 0 implies exists|k: int| 0 <= k < out@.len() && (#[trigger] out@[k]).0
            == op by {
            let x: int = op as int;
            assert(0 <= x < 256);
            assert(x as u8 == op);
        }
    }
    out
}

} // verus!
