//! Audits a body of source code for uses of the `unsafe` escape hatch and
//! reports what reachable code is affected, by propagating the information
//! across a call graph.
//!
//! The engine works on plain values handed in by its caller: a semantic tree
//! of one compilation unit feeds the visitor, the visitor produces a per-unit
//! record, records are encoded to lines for persistence, and an aggregator
//! merges loaded records into a global index that the reporter queries.

pub mod cli;
pub mod codec;
pub mod config;
pub mod paths;
pub mod record;
pub mod records;
pub mod strutil;
pub mod visitor;
