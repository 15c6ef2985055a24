//! A verified core for a formula spreadsheet engine.
//!
//! A sheet is a rectangular grid of cells holding 32-bit integer values.
//! Writing `LABEL=EXPR` parses the expression (integer literals, one binary
//! operation, cell references, range aggregates and `SLEEP`), rejects
//! ill-formed or cyclic assignments before any mutation, installs the new
//! dependency edges, and re-evaluates every transitively dependent cell,
//! propagating error state.

pub mod cell;
pub mod depset;
pub mod engine;
pub mod eval;
pub mod graph;
pub mod labels;
pub mod laws;
pub mod sheet;
