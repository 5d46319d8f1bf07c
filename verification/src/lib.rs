//! A journal of time spent per unit of work, kept in sync with a commit
//! history whose messages may carry a structured time-spent annotation.
//!
//! The crate holds the reconciliation core: parsing annotations out of
//! commit messages, merging commit-derived entries into the journal
//! without duplication or loss, and the state machine that sequences a
//! synchronization run. Fetching commits and reading or writing the
//! journal file are left to the surrounding program.

pub mod cli;
pub mod digits;
pub mod laws;
pub mod model;
pub mod parse;
pub mod reconcile;
pub mod rows;
pub mod sync;
