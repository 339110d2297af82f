//! Error type shared by the loader, verifier, interpreter and deserializer.
use vstd::prelude::*;
use crate::text::{dec_int, dec_nat, push_char, push_dec, push_int};

verus! {

#[derive(Debug, Clone, PartialEq, Eq)]
pub enum Error {
    Truncated { at: &'static str },
    BadMagic,
    UnknownOpcode { pc: usize, op: u8 },
    TruncatedInstr { pc: usize },
    TargetOutOfRange { target: u32 },
    TargetNotBoundary { target: u32 },
    OffsetTruncation { rel: i64 },
    LocalOutOfRange { pc: usize, slot: u16 },
    WindowUnderflow { pc: usize },
    EffectiveSlotOutOfRange { pc: usize, eff: u32 },
    UntypedFieldAccess { block: usize },
    StackUnderflow { block: usize },
    VerifyFailed(&'static str),
    DeserFailed(&'static str),
    CallDepth { depth: usize },
    Thrown,
    BadUpvalue { idx: u16 },
    InternMiss { id: u32 },
}

pub type Result<T> = core::result::Result<T, Error>;


/// One character as `{:?}` writes it inside a quoted string: quote, backslash, newline,
/// carriage return, tab and NUL are escaped with a backslash.
pub open spec fn escape_char(c: char) -> Seq<char> {
    if c == '"' {
        seq!['\\', '"']
    } else if c == '\\' {
        seq!['\\', '\\']
    } else if c == '\n' {
        seq!['\\', 'n']
    } else if c == '\r' {
        seq!['\\', 'r']
    } else if c == '\t' {
        seq!['\\', 't']
    } else if c == '\0' {
        seq!['\\', '0']
    } else {
        seq![c]
    }
}

/// The characters of `s`, each escaped.
pub open spec fn escaped(s: Seq<char>) -> Seq<char>
    decreases s.len(),
{
    if s.len() == 0 {
        Seq::empty()
    } else {
        escaped(s.drop_last()) + escape_char(s.last())
    }
}

/// `s` in double quotes, escaped.
pub open spec fn quoted(s: Seq<char>) -> Seq<char> {
    seq!['"'] + escaped(s) + seq!['"']
}

/// The text of an error: the variant's name, then its fields as `{:?}` lays them out.
pub open spec fn error_text(e: Error) -> Seq<char> {
    match e {
        Error::Truncated { at } => "Truncated { at: "@ + quoted(at@) + " }"@,
        Error::BadMagic => "BadMagic"@,
        Error::UnknownOpcode { pc, op } => "UnknownOpcode { pc: "@ + dec_nat(pc as nat) + ", op: "@ + dec_nat(op as nat)
            + " }"@,
        Error::TruncatedInstr { pc } => "TruncatedInstr { pc: "@ + dec_nat(pc as nat) + " }"@,
        Error::TargetOutOfRange { target } => "TargetOutOfRange { target: "@ + dec_nat(target as nat) + " }"@,
        Error::TargetNotBoundary { target } => "TargetNotBoundary { target: "@ + dec_nat(target as nat) + " }"@,
        Error::OffsetTruncation { rel } => "OffsetTruncation { rel: "@ + dec_int(rel as int) + " }"@,
        Error::LocalOutOfRange { pc, slot } => "LocalOutOfRange { pc: "@ + dec_nat(pc as nat) + ", slot: "@ + dec_nat(
            slot as nat,
        ) + " }"@,
        Error::WindowUnderflow { pc } => "WindowUnderflow { pc: "@ + dec_nat(pc as nat) + " }"@,
        Error::EffectiveSlotOutOfRange { pc, eff } => "EffectiveSlotOutOfRange { pc: "@ + dec_nat(pc as nat)
            + ", eff: "@ + dec_nat(eff as nat) + " }"@,
        Error::UntypedFieldAccess { block } => "UntypedFieldAccess { block: "@ + dec_nat(block as nat) + " }"@,
        Error::StackUnderflow { block } => "StackUnderflow { block: "@ + dec_nat(block as nat) + " }"@,
        Error::VerifyFailed(m) => "VerifyFailed("@ + quoted(m@) + ")"@,
        Error::DeserFailed(m) => "DeserFailed("@ + quoted(m@) + ")"@,
        Error::CallDepth { depth } => "CallDepth { depth: "@ + dec_nat(depth as nat) + " }"@,
        Error::Thrown => "Thrown"@,
        Error::BadUpvalue { idx } => "BadUpvalue { idx: "@ + dec_nat(idx as nat) + " }"@,
        Error::InternMiss { id } => "InternMiss { id: "@ + dec_nat(id as nat) + " }"@,
    }
}

/// Appends `s` in double quotes, escaped.
pub fn push_quoted(out: &mut String, s: &str)
    ensures
        final(out)@ == old(out)@ + quoted(s@),
{
    proof {
        reveal_strlit("\"");
    }
    out.append("\"");
    let ghost base = out@;
    let n = s.unicode_len();
    let mut i: usize = 0;
    assert(s@.subrange(0, 0) =~= Seq::<char>::empty());
    while i < n
        invariant
            n == s@.len(),
            i <= n,
            out@ == base + escaped(s@.subrange(0, i as int)),
        decreases n - i,
    {
        assert(s@.subrange(0, i + 1).drop_last() =~= s@.subrange(0, i as int));
        let c = s.get_char(i);
        let ghost prev = out@;
        if c == '"' {
            push_char(out, '\\');
            push_char(out, '"');
        } else if c == '\\' {
            push_char(out, '\\');
            push_char(out, '\\');
        } else if c == '\n' {
            push_char(out, '\\');
            push_char(out, 'n');
        } else if c == '\r' {
            push_char(out, '\\');
            push_char(out, 'r');
        } else if c == '\t' {
            push_char(out, '\\');
            push_char(out, 't');
        } else if c == '\0' {
            push_char(out, '\\');
            push_char(out, '0');
        } else {
            push_char(out, c);
        }
        assert(out@ =~= prev + escape_char(c));
        assert(escaped(s@.subrange(0, i + 1)) == escaped(s@.subrange(0, i as int)) + escape_char(s@[i as int]));
        i += 1;
        assert(out@ =~= base + escaped(s@.subrange(0, i as int)));
    }
    assert(s@.subrange(0, i as int) =~= s@);
    out.append("\"");
    assert(final(out)@ =~= old(out)@ + quoted(s@));
}

impl Error {
    /// The error's text: the variant's name and its fields, as `{:?}` lays them out.
    pub fn describe(&self) -> (r: String)
        ensures
            r@ == error_text(*self),
    {
        let mut s = String::new();
        match self {
            Error::Truncated { at } => {
                s.append("Truncated { at: ");
                push_quoted(&mut s, at);
                s.append(" }");
            },
            Error::BadMagic => s.append("BadMagic"),
            Error::UnknownOpcode { pc, op } => {
                s.append("UnknownOpcode { pc: ");
                push_dec(&mut s, *pc as u64);
                s.append(", op: ");
                push_dec(&mut s, *op as u64);
                s.append(" }");
            },
            Error::TruncatedInstr { pc } => {
                s.append("TruncatedInstr { pc: ");
                push_dec(&mut s, *pc as u64);
                s.append(" }");
            },
            Error::TargetOutOfRange { target } => {
                s.append("TargetOutOfRange { target: ");
                push_dec(&mut s, *target as u64);
                s.append(" }");
            },
            Error::TargetNotBoundary { target } => {
                s.append("TargetNotBoundary { target: ");
                push_dec(&mut s, *target as u64);
                s.append(" }");
            },
            Error::OffsetTruncation { rel } => {
                s.append("OffsetTruncation { rel: ");
                push_int(&mut s, *rel);
                s.append(" }");
            },
            Error::LocalOutOfRange { pc, slot } => {
                s.append("LocalOutOfRange { pc: ");
                push_dec(&mut s, *pc as u64);
                s.append(", slot: ");
                push_dec(&mut s, *slot as u64);
                s.append(" }");
            },
            Error::WindowUnderflow { pc } => {
                s.append("WindowUnderflow { pc: ");
                push_dec(&mut s, *pc as u64);
                s.append(" }");
            },
            Error::EffectiveSlotOutOfRange { pc, eff } => {
                s.append("EffectiveSlotOutOfRange { pc: ");
                push_dec(&mut s, *pc as u64);
                s.append(", eff: ");
                push_dec(&mut s, *eff as u64);
                s.append(" }");
            },
            Error::UntypedFieldAccess { block } => {
                s.append("UntypedFieldAccess { block: ");
                push_dec(&mut s, *block as u64);
                s.append(" }");
            },
            Error::StackUnderflow { block } => {
                s.append("StackUnderflow { block: ");
                push_dec(&mut s, *block as u64);
                s.append(" }");
            },
            Error::VerifyFailed(m) => {
                s.append("VerifyFailed(");
                push_quoted(&mut s, m);
                s.append(")");
            },
            Error::DeserFailed(m) => {
                s.append("DeserFailed(");
                push_quoted(&mut s, m);
                s.append(")");
            },
            Error::CallDepth { depth } => {
                s.append("CallDepth { depth: ");
                push_dec(&mut s, *depth as u64);
                s.append(" }");
            },
            Error::Thrown => s.append("Thrown"),
            Error::BadUpvalue { idx } => {
                s.append("BadUpvalue { idx: ");
                push_dec(&mut s, *idx as u64);
                s.append(" }");
            },
            Error::InternMiss { id } => {
                s.append("InternMiss { id: ");
                push_dec(&mut s, *id as u64);
                s.append(" }");
            },
        }
        s
    }
}

} // verus!
