//! A drill engine for memorising prompt/answer pairs.
//!
//! Given a fixed catalog of items, the engine decides which item to put
//! before the user next, scores how reliably each item is reproduced,
//! and resurfaces poorly-known items more often than well-known ones.
//! The pieces: [`ostree`] holds the weighted index tree behind the
//! sampling, [`ent`] the per-item progress scores and the table that
//! keeps two sampling pools in lockstep with them, [`sim`] the session
//! state machine that drives a drill as a pull-based protocol, and
//! [`selector`] the sources of draw offsets, random or deterministic.

use vstd::prelude::*;

pub mod ent;
pub mod ostree;
pub mod selector;
pub mod sim;

verus! {

/// Version string of this library.
pub fn version() -> &'static str {
    "0.1.0"
}

} // verus!
