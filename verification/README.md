# cellvm

A compact bytecode virtual machine: a binary container format and its loader, an
assembler and a program builder, a disassembler, control-flow and dataflow analyses
(basic blocks, reachability, liveness, escape and folding scores), planners for
constant folding, dead code and peephole rewrites, an interpreter, and the supporting
runtime pieces (intern pool, object registry, object-graph blobs, call frames).

The functions in `src/` are written in Verus and carry contracts that Verus proves:
results are stated over mathematical models (sequences, sets and maps), and the laws
that relate several operations (encoding then decoding, loading an encoded module,
reading back a built blob, the interval lattice, liveness solving its equations) are
proof functions named `law_*`.

The exception is a handful of small wrappers marked `#[verifier::external_body]`
around standard-library calls (a slice's length, a vector's and a hash map's capacity,
`String::push`, `String::leak`, `str::from_utf8`, `String::from_utf8_lossy`). Their
contracts are trusted, not proved: each states only what the standard library
documents of the call, and its doc comment says so.

Layout:

- `src/` — the verified library.
- `tests/` — tests of the library on concrete values.
- `app/` — host-side companions that stay outside the proofs: floating-point ratios,
  the thread-local profiling counters, and file input for command-line tools.
