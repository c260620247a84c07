//! The proposal step of a delta-query join: each buffered prefix update is
//! extended by every value stored under its key in an arrangement, with the
//! product of the prefix's multiplicity and the value's multiplicity as of
//! the prefix's time, once the arrangement's frontier has closed that time.
//!
//! `frontier` decides which times are closed, `history` folds a key's
//! time-stamped updates, `consolidate` merges buffered requests for the same
//! prefix and time, `order` sorts a bucket by key, `propose` answers requests
//! bucket by bucket, `operator` keeps the stash of buffered requests across
//! rounds, and `laws` states what the emitted updates sum to.
use vstd::prelude::*;

pub mod consolidate;
pub mod frontier;
pub mod history;
pub mod laws;
pub mod operator;
pub mod order;
pub mod propose;

verus! {

} // verus!
