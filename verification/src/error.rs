//! Errors that the whitelist entrypoints return.
use vstd::prelude::*;

verus! {

/// Why a whitelist request was refused.
#[derive(Clone, Copy, Debug, PartialEq, Eq, Structural)]
pub enum QuickLendXError {
    /// The caller is not the stored admin, or no admin is stored.
    NotAdmin,
    /// The whitelist is non-empty and does not hold the currency.
    InvalidCurrency,
}

} // verus!
