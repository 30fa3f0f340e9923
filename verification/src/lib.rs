//! Session resumption for a desktop: which applications were open, which of
//! them may be resumed, and where their windows go back to.
use vstd::prelude::*;

pub mod agent;
pub mod config;
pub mod desktop;
pub mod interface;
pub mod laws;
pub mod order;
pub mod restore;
pub mod session;
pub mod text;

verus! {

} // verus!
