//! A verified name-resolution engine for a compiler front end.
//!
//! The crate maps identifier occurrences in a parsed program to the
//! declarations they refer to, under nested lexical scoping,
//! namespace-qualified global declarations, explicit `open` imports with
//! optional aliases, an implicitly opened prelude, and local-over-item
//! shadowing. It also provides the namespace tree that backs those lookups,
//! an offset-based visibility query for interactive tooling, the keyword
//! table of the surface language, and an interning builder for the
//! target-IR type system.

pub mod ast;
pub mod keyword;
pub mod llvm_types;
pub mod namespaces;
pub mod resolve;
