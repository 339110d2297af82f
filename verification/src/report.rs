//! Structured diagnostic reports for verify and load failures.
use vstd::prelude::*;
use crate::error::{Error, error_text};
use crate::module::strings_view;
use crate::span::Span;
use crate::text::{dec_nat, push_dec};

verus! {

#[derive(Clone, Debug)]
pub struct Diagnostic {
    pub code: &'static str,
    pub message: String,
    pub span: Option<Span>,
    pub notes: Vec<String>,
}

/// Mathematical content of a diagnostic.
pub struct DiagnosticModel {
    pub code: Seq<char>,
    pub message: Seq<char>,
    pub span: Option<Span>,
    pub notes: Seq<Seq<char>>,
}

impl View for Diagnostic {
    type V = DiagnosticModel;

    open spec fn view(&self) -> DiagnosticModel {
        DiagnosticModel { code: self.code@, message: self.message@, span: self.span, notes: strings_view(self.notes@) }
    }
}

/// The diagnostic code of an error.
pub open spec fn error_code(e: Error) -> Seq<char> {
    match e {
        Error::UnknownOpcode { .. } => "E_OPCODE"@,
        Error::TruncatedInstr { .. } => "E_TRUNC"@,
        Error::LocalOutOfRange { .. } => "E_LOCAL"@,
        Error::EffectiveSlotOutOfRange { .. } => "E_SLOT"@,
        Error::WindowUnderflow { .. } => "E_WINDOW"@,
        Error::UntypedFieldAccess { .. } => "E_TYPE"@,
        Error::OffsetTruncation { .. } => "E_JMP"@,
        Error::TargetOutOfRange { .. } => "E_TARGET"@,
        Error::TargetNotBoundary { .. } => "E_TARGET"@,
        Error::DeserFailed(_) => "E_DESER"@,
        _ => "E_GENERIC"@,
    }
}

/// The bytes an error points at: the instruction at its offset, for the errors that have one.
pub open spec fn error_span(e: Error) -> Option<Span> {
    match e {
        Error::UnknownOpcode { pc, .. } => Some(Span { start: pc, end: (pc + 1) as usize }),
        Error::TruncatedInstr { pc } => Some(Span { start: pc, end: (pc + 1) as usize }),
        Error::LocalOutOfRange { pc, .. } => Some(Span { start: pc, end: (pc + 3) as usize }),
        Error::EffectiveSlotOutOfRange { pc, .. } => Some(Span { start: pc, end: (pc + 3) as usize }),
        Error::WindowUnderflow { pc } => Some(Span { start: pc, end: (pc + 2) as usize }),
        _ => None,
    }
}

/// The end of the span of an error fits in a `usize`.
pub open spec fn span_fits(e: Error) -> bool {
    match e {
        Error::UnknownOpcode { pc, .. } => pc + 1 <= usize::MAX,
        Error::TruncatedInstr { pc } => pc + 1 <= usize::MAX,
        Error::LocalOutOfRange { pc, .. } => pc + 3 <= usize::MAX,
        Error::EffectiveSlotOutOfRange { pc, .. } => pc + 3 <= usize::MAX,
        Error::WindowUnderflow { pc } => pc + 2 <= usize::MAX,
        _ => true,
    }
}

/// The note lines of a rendering.
pub open spec fn notes_text(notes: Seq<Seq<char>>) -> Seq<char>
    decreases notes.len(),
{
    if notes.len() == 0 {
        Seq::empty()
    } else {
        notes_text(notes.drop_last()) + "\n  note: "@ + notes.last()
    }
}

/// `[<code>] <message>`, then ` @<start>..<end>` when there is a span, then a line per note.
pub open spec fn diagnostic_text(d: DiagnosticModel) -> Seq<char> {
    "["@ + d.code + "] "@ + d.message + match d.span {
        Some(sp) => " @"@ + dec_nat(sp.start as nat) + ".."@ + dec_nat(sp.end as nat),
        None => Seq::empty(),
    } + notes_text(d.notes)
}

/// The renderings of `ds`, separated by newlines.
pub open spec fn many_text(ds: Seq<DiagnosticModel>) -> Seq<char>
    decreases ds.len(),
{
    if ds.len() == 0 {
        Seq::empty()
    } else if ds.len() == 1 {
        diagnostic_text(ds[0])
    } else {
        many_text(ds.drop_last()) + "\n"@ + diagnostic_text(ds.last())
    }
}

impl Diagnostic {
    /// The diagnostic of an error: its code, its text, the span of the instruction it
    /// points at, and no notes.
    pub fn from_error(err: &Error) -> (r: Self)
        requires
            span_fits(*err),
        ensures
            r@.code == error_code(*err),
            r@.message == error_text(*err),
            r@.span == error_span(*err),
            r@.notes.len() == 0,
    {
        let (code, span): (&'static str, Option<Span>) = match err {
            Error::UnknownOpcode { pc, .. } => ("E_OPCODE", Some(Span::new(*pc, *pc + 1))),
            Error::TruncatedInstr { pc } => ("E_TRUNC", Some(Span::new(*pc, *pc + 1))),
            Error::LocalOutOfRange { pc, .. } => ("E_LOCAL", Some(Span::new(*pc, *pc + 3))),
            Error::EffectiveSlotOutOfRange { pc, .. } => ("E_SLOT", Some(Span::new(*pc, *pc + 3))),
            Error::WindowUnderflow { pc } => ("E_WINDOW", Some(Span::new(*pc, *pc + 2))),
            Error::UntypedFieldAccess { .. } => ("E_TYPE", None),
            Error::OffsetTruncation { .. } => ("E_JMP", None),
            Error::TargetOutOfRange { .. } | Error::TargetNotBoundary { .. } => ("E_TARGET", None),
            Error::DeserFailed(_) => ("E_DESER", None),
            _ => ("E_GENERIC", None),
        };
        let r = Diagnostic { code, message: err.describe(), span, notes: Vec::new() };
        assert(r@.notes =~= Seq::<Seq<char>>::empty());
        r
    }

    /// The diagnostic with one more note.
    pub fn note(self, n: &str) -> (r: Self)
        ensures
            r@.code == self@.code,
            r@.message == self@.message,
            r@.span == self@.span,
            r@.notes == self@.notes.push(n@),
    {
        let mut d = self;
        let mut s = String::new();
        s.append(n);
        d.notes.push(s);
        assert(strings_view(d.notes@) =~= strings_view(self.notes@).push(n@));
        d
    }

    /// `[<code>] <message>`, the span as ` @<start>..<end>` when there is one, a line per note.
    pub fn render(&self) -> (r: String)
        ensures
            r@ == diagnostic_text(self@),
    {
        proof {
            reveal_strlit("\n  note: ");
        }
        let mut s = String::new();
        s.append("[");
        s.append(self.code);
        s.append("] ");
        s.append(self.message.as_str());
        if let Some(span) = self.span {
            s.append(" @");
            push_dec(&mut s, span.start as u64);
            s.append("..");
            push_dec(&mut s, span.end as u64);
        }
        let ghost head = s@;
        let ghost ns = strings_view(self.notes@);
        let mut i: usize = 0;
        assert(ns.subrange(0, 0) =~= Seq::<Seq<char>>::empty());
        while i < self.notes.len()
            invariant
                ns == strings_view(self.notes@),
                i <= ns.len(),
                s@ == head + notes_text(ns.subrange(0, i as int)),
            decreases ns.len() - i,
        {
            assert(ns.subrange(0, i + 1).drop_last() =~= ns.subrange(0, i as int));
            s.append("\n  note: ");
            s.append(self.notes[i].as_str());
            i += 1;
            assert(s@ =~= head + notes_text(ns.subrange(0, i as int)));
        }
        assert(ns.subrange(0, i as int) =~= ns);
        s
    }
}

/// Every diagnostic rendered, separated by newlines.
pub fn render_many(diags: &[Diagnostic]) -> (r: String)
    ensures
        r@ == many_text(diags@.map_values(|d: Diagnostic| d@)),
{
    proof {
        reveal_strlit("\n");
    }
    let ghost ds = diags@.map_values(|d: Diagnostic| d@);
    let mut s = String::new();
    let mut i: usize = 0;
    assert(ds.subrange(0, 0) =~= Seq::<DiagnosticModel>::empty());
    while i < diags.len()
        invariant
            ds == diags@.map_values(|d: Diagnostic| d@),
            i <= diags@.len(),
            s@ == many_text(ds.subrange(0, i as int)),
        decreases diags@.len() - i,
    {
        assert(ds.subrange(0, i + 1).drop_last() =~= ds.subrange(0, i as int));
        assert(ds[i as int] == diags@[i as int]@);
        if i > 0 {
            s.append("\n");
        }
        let part = diags[i].render();
        s.append(part.as_str());
        proof {
            if i == 0 {
                assert(ds.subrange(0, 1) =~= seq![ds[0]]);
            }
        }
        i += 1;
        assert(s@ =~= many_text(ds.subrange(0, i as int)));
    }
    assert(ds.subrange(0, i as int) =~= ds);
    s
}

} // verus!
