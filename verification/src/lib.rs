//! Predicate-pushdown filter compiler and scan-reader core of a columnar
//! table store.
//!
//! The library parses serialized predicate strings (`op(args)` grammar) into a
//! typed expression tree bound to a concrete, possibly nested schema, coerces
//! raw literal text into schema-typed scalar values, and drives the state
//! machine of a single-use batch reader.  Every function here carries a
//! contract and is verified; the surrounding I/O (file decoding, async
//! plumbing) lives outside the library and hands it plain values.

pub mod eval;
pub mod expr;
pub mod filter;
pub mod float;
pub mod number;
pub mod reader;
pub mod render;
pub mod schema;
pub mod text;
