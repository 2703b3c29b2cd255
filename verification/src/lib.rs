//! A verified core for an SQL migration engine.
//!
//! Migration scripts discovered in a directory are reconciled against a
//! persisted history table and applied exactly once each.  The decision
//! logic of that engine lives here and is verified: the skip policy, the
//! reconciliation of discovered files with history records, the
//! bootstrap-versus-incremental choice, and the per-file bookkeeping that
//! follows a successful or failed execution.  The surrounding program
//! performs the I/O (directory listing, reading script text, SQL
//! execution) and feeds the results back in as plain values.

pub mod laws;
pub mod policy;
pub mod record;
pub mod runner;
pub mod sqlgen;
