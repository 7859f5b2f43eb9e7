//! A verified core for a just-in-time compiler of a minimalist tape-based
//! language with eight operator characters.
//!
//! `ir` parses source text into a run-length-folded opcode sequence and
//! validates bracket nesting; `jit` lowers such a sequence into x86-64
//! machine code bytes with bounds-checked pointer arithmetic and host
//! callbacks for I/O.  Executable memory, the tape, and the standard
//! streams are the caller's business: the functions here are pure.

pub mod ir;
pub mod jit;
