//! A poker library: hand representation for fast evaluation and an exact
//! showdown tally for equity computation.
use vstd::prelude::*;

pub mod bits;
pub mod hand;
pub mod hand_laws;
pub mod read_write;
pub mod showdown;
