//! `scout dropped` records an engagement that was investigated and
//! abandoned, in the same JSONL ledger `took` writes to, under its own
//! event tag.

use vstd::prelude::*;

verus! {

/// `event` value written for `scout dropped` lines.
pub const EVENT: &'static str = "dropped";

} // verus!
