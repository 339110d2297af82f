//! Narrative documentation strings for the pipeline stages.
use vstd::prelude::*;

verus! {

/// An overview of the pipeline stages.
pub fn pipeline_overview() -> (r: &'static str)
    ensures
        r@ == "CLVM modules are loaded from a little-endian binary container, verified for frame and type safety, linked against an intern pool, then executed."@,
{
    "CLVM modules are loaded from a little-endian binary container, verified for frame and type safety, linked against an intern pool, then executed."
}

/// Notes on the loader.
pub fn loader_notes() -> (r: &'static str)
    ensures
        r@ == "The loader is panic-free and returns structured errors for truncated inputs, bad magic, unknown opcodes, and jump targets that miss instruction boundaries."@,
{
    "The loader is panic-free and returns structured errors for truncated inputs, bad magic, unknown opcodes, and jump targets that miss instruction boundaries."
}

/// Notes on the verifiers.
pub fn verifier_notes() -> (r: &'static str)
    ensures
        r@ == "Frame verification tracks WINDOW bases and local slots. Type-flow verification builds a block graph and checks GETFIELD against abstract reference types."@,
{
    "Frame verification tracks WINDOW bases and local slots. Type-flow verification builds a block graph and checks GETFIELD against abstract reference types."
}

/// Notes on the executor.
pub fn executor_notes() -> (r: &'static str)
    ensures
        r@ == "The executor assumes verifier invariants and uses unchecked indexing on hot paths. Call frames, intern handles, and upvalues are the primary unsafe surfaces."@,
{
    "The executor assumes verifier invariants and uses unchecked indexing on hot paths. Call frames, intern handles, and upvalues are the primary unsafe surfaces."
}

/// Notes on the binary layout.
pub fn format_notes() -> (r: &'static str)
    ensures
        r@ == "Binary layout: magic CLVM | code_len | code | nconst | consts | optional trailers. Trailers: string pool (0xFFFFFFFF), extra functions (0xFFFFFFFE), or jump fixups."@,
{
    "Binary layout: magic CLVM | code_len | code | nconst | consts | optional trailers. Trailers: string pool (0xFFFFFFFF), extra functions (0xFFFFFFFE), or jump fixups."
}

/// Notes on the fuzz harnesses.
pub fn fuzz_notes() -> (r: &'static str)
    ensures
        r@ == "Harnesses exercise load/run, typeflow, deserialize, and assemble entry points independently so each trust boundary can be stressed in isolation."@,
{
    "Harnesses exercise load/run, typeflow, deserialize, and assemble entry points independently so each trust boundary can be stressed in isolation."
}

/// All the notes above, concatenated in order.
pub open spec fn all_docs_text() -> Seq<char> {
    "CLVM modules are loaded from a little-endian binary container, verified for frame and type safety, linked against an intern pool, then executed."@ + "The loader is panic-free and returns structured errors for truncated inputs, bad magic, unknown opcodes, and jump targets that miss instruction boundaries."@ + "Frame verification tracks WINDOW bases and local slots. Type-flow verification builds a block graph and checks GETFIELD against abstract reference types."@ + "The executor assumes verifier invariants and uses unchecked indexing on hot paths. Call frames, intern handles, and upvalues are the primary unsafe surfaces."@ + "Binary layout: magic CLVM | code_len | code | nconst | consts | optional trailers. Trailers: string pool (0xFFFFFFFF), extra functions (0xFFFFFFFE), or jump fixups."@ + "Harnesses exercise load/run, typeflow, deserialize, and assemble entry points independently so each trust boundary can be stressed in isolation."@
}

/// The notes, concatenated in order.
pub fn all_docs() -> (r: String)
    ensures
        r@ == all_docs_text(),
{
    let mut s = String::new();
    s.append(pipeline_overview());
    s.append(loader_notes());
    s.append(verifier_notes());
    s.append(executor_notes());
    s.append(format_notes());
    s.append(fuzz_notes());
    s
}

/// Name of pipeline stage `i`: load, verify, link, execute; `unknown` past the last.
pub fn stage_name(i: usize) -> (r: &'static str)
    ensures
        i == 0 ==> r@ == "load"@,
        i == 1 ==> r@ == "verify"@,
        i == 2 ==> r@ == "link"@,
        i == 3 ==> r@ == "execute"@,
        i > 3 ==> r@ == "unknown"@,
{
    match i {
        0 => "load",
        1 => "verify",
        2 => "link",
        3 => "execute",
        _ => "unknown",
    }
}

/// Number of pipeline stages.
pub fn stage_count() -> (r: usize)
    ensures
        r == 4,
{
    4
}

} // verus!
