//! Named profiles of environment-variable definitions — some literal, some
//! produced by running a shell command against the variables resolved so
//! far — persisted as a single JSON document, and resolved into the
//! environment of a target command.
use vstd::prelude::*;

pub mod model;
pub mod codec;
pub mod registry;
pub mod resolver;
pub mod runner;
pub mod text;

verus! {

} // verus!
