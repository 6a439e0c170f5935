//! A toolchain around an abstract random-access machine: a parameterized
//! integer-word machine with a single accumulator, an unbounded register
//! file, a read input stream and a write output stream.
//!
//! The crate offers three capabilities: parsing and serialising textual
//! programs ([`text`], with a proved round-trip law), executing a program
//! deterministically with bit-exact checked integer semantics over a
//! caller-chosen word type ([`runner`], proved against the abstract
//! machine of [`sem`]), and optimizing a program by local rewrites that
//! preserve jump targets ([`rw`] and the passes around it).

pub mod code;
pub mod dce;
pub mod error;
pub mod fold;
pub mod inst;
pub mod integer;
pub mod ir;
pub mod passes;
pub mod runner;
pub mod rw;
pub mod sem;
pub mod text;
