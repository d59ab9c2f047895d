//! A small spreadsheet formula engine: a workbook of named worksheets, a
//! formula evaluator over exact decimal numbers, a bounded result cache
//! keyed by evaluation context, and running telemetry, orchestrated
//! behind one engine facade.
//!
//! - [`engine`] holds the facade and its operation surface;
//! - [`eval`] the formula-to-text pipeline and its full specification;
//! - [`num`] the decimal numbers the evaluator computes with;
//! - [`sheet`], [`cache`], [`metrics`] the stored state;
//! - [`text`] and [`digits`] character-sequence groundwork;
//! - [`host`] the two trusted points at the host boundary.
use vstd::prelude::*;

pub mod cache;
pub mod digits;
pub mod engine;
pub mod eval;
pub mod host;
pub mod metrics;
pub mod num;
pub mod sheet;
pub mod text;

verus! {

} // verus!
