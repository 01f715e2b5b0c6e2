use vstd::prelude::*;

pub mod field;
pub mod hash;
pub mod sponge;
pub mod challenger;
pub mod circuit;
pub mod recursive_challenger;
pub mod accumulator;
pub mod ledger;
