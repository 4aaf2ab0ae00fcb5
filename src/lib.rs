//! Reconciliation of lead records that come from several tabular sources.
//!
//! Rows are sequences of text fields. Sources are related through one
//! identity column: set operations, record merging, contact consolidation
//! and keyword classification are all stated over that model.

pub mod error;
pub mod index;
pub mod text;
pub mod merge;
pub mod setops;
pub mod classify;
pub mod phone;
