//! cellvm: a compact bytecode VM with a load, verify, link and execute pipeline.
pub mod bytecode;
pub mod text;
pub mod error;
pub mod module;
pub mod isa;
pub mod decode;
pub mod bytes;
pub mod loader;
pub mod reloc;
pub mod encode;
pub mod roundtrip;
pub mod value;
pub mod intern;
pub mod runtime;
pub mod exec;
pub mod assembler;
pub mod heap;
pub mod deser;
pub mod cfg;
pub mod interp;
pub mod ir;
pub mod catalog;
pub mod builder;
pub mod format;
pub mod limits;
pub mod constpool;
pub mod interval;
pub mod abi;
pub mod analysis;
pub mod optimize;
pub mod passes;
pub mod disasm;
pub mod debug;
pub mod mirror;
pub mod host;
pub mod gc;
pub mod arena;
pub mod docs;
pub mod profile;
pub mod pretty;
pub mod span;
pub mod report;
pub mod pipeline;
pub mod bitvec;
pub mod liveness;
pub mod builtins;
