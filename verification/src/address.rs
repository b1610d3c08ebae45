//! Token addresses as the whitelist sees them: the textual strkey of an account or contract.
use vstd::prelude::*;

verus! {

/// A token address, held as its strkey text (for example `C...` for a contract).
///
/// Two addresses denote the same token exactly when their strkeys are equal.
#[derive(Clone, Debug, PartialEq, Eq, Hash)]
pub struct Address {
    strkey: String,
}

impl View for Address {
    type V = Seq<char>;

    closed spec fn view(&self) -> Seq<char> {
        self.strkey@
    }
}

impl Address {
    /// Builds an address from its strkey text.
    pub fn from_strkey(strkey: String) -> (a: Address)
        ensures
            a@ == strkey@,
    {
        Address { strkey }
    }

    /// The strkey text of this address.
    pub fn strkey(&self) -> (s: &str)
        ensures
            s@ == self@,
    {
        self.strkey.as_str()
    }

    /// Whether `self` and `other` denote the same token.
    pub fn same_as(&self, other: &Address) -> (r: bool)
        ensures
            r == (self@ == other@),
    {
        self.strkey == other.strkey
    }

    /// A copy of this address.
    pub fn duplicate(&self) -> (a: Address)
        ensures
            a@ == self@,
    {
        Address { strkey: self.strkey.clone() }
    }
}

} // verus!
