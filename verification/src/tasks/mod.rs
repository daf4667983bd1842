//! Task domain rules. Persisted occurrences snapshot these definitions so later
//! target edits cannot rewrite history.
use vstd::prelude::*;

pub mod commands;
pub mod decimal;
pub mod definition;
pub mod dependencies;
pub mod expansion;
pub mod goals;
pub mod lifecycle;
pub mod outcomes;
pub mod rotas;
pub mod schedule;
pub mod service;
pub mod successors;
pub mod timers;
pub mod views;

verus! {

} // verus!
