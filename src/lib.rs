//! A tiered cache service core: derived cache keys, the three-tier store
//! composition, and the consistent-hash routing fabric of the router.
use vstd::prelude::*;

pub mod config;
pub mod connection;
pub mod keys;
pub mod operation;
pub mod ring;
pub mod router;
pub mod service;
pub mod store;
pub mod validation;

verus! {

} // verus!
