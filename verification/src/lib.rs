//! Verified core of the QuickLendX multi-currency whitelist.
use vstd::prelude::*;

pub mod address;
pub mod error;
pub mod spec;
pub mod whitelist;
pub mod laws;

verus! {

} // verus!
