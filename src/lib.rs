//! A ratchet for lint suppressions: the number of lints silenced with
//! `#[allow(..)]`, counted per file and per lint, may only stay the same or
//! go down from one commit to the next.
//!
//! The library counts suppressions in a declaration tree, compares the counts
//! of the files examined in a run with the recorded baseline, and tightens or
//! grows that baseline.
use vstd::prelude::*;

pub mod counts;
pub mod laws;
pub mod ledger;
pub mod scan;
