//! Codec and analysis library for the KSH binary shader-container format.
//!
//! A KSH container packs two GLSL stages (vertex and pixel), a table of
//! uniform variables, and per-stage index references into that table, all in
//! a little-endian, length-prefixed byte layout.  This crate provides:
//!
//! - the binary codec: `codec::analyze_ksh` decodes a container into its
//!   shader sources, and `codec::build_ksh` re-serializes a container from
//!   the two sources and their syntax trees;
//! - the uniform-liveness analysis: `analyzer::analyze_uniforms` extracts the
//!   declared uniforms of one stage and keeps only those referenced inside a
//!   function body;
//! - the reconciler: `reconcile::merge_uniforms` joins the two stages' live
//!   uniform lists into the single ordered table that defines the binary
//!   serialization order.

#![verifier::loop_isolation(false)]

pub mod analyzer;
pub mod ast;
pub mod codec;
pub mod cursor;
pub mod errors;
pub mod reconcile;
pub mod strutil;
pub mod types;
