//! Farkle (Kingdom Come Deliverance variant): hand scoring, dice combinatorics and
//! perfect hashing of the finite domains that the turn-value tables are keyed by.

pub mod farkle;
pub mod hash;
pub mod policy;
