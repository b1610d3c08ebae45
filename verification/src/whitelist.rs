//! The admin-managed whitelist of token addresses accepted as invoice currency.
use vstd::prelude::*;

use crate::address::Address;
use crate::error::QuickLendXError;
use crate::laws::{lemma_add_appends, lemma_remove_at};
use crate::spec::{
    differs_from, keys, lemma_add_facts, lemma_dedup_facts, lemma_remove_facts, spec_add, spec_allowed,
    spec_dedup, spec_page, spec_remove,
};

verus! {

/// Whether `keys(v)` contains `c`, computed by a scan of `v`.
fn contains_key(v: &Vec<Address>, c: &Address) -> (r: bool)
    ensures
        r == keys(v@).contains(c@),
{
    let n: usize = v.len();
    let mut i: usize = 0;
    while i < n
        invariant
            n == v.len(),
            i <= n,
            forall|j: int| 0 <= j < i ==> keys(v@)[j] != c@,
        decreases n - i,
    {
        if v[i].same_as(c) {
            assert(keys(v@)[i as int] == c@);
            return true;
        }
        i = i + 1;
    }
    proof {
        if keys(v@).contains(c@) {
            let j = choose|j: int| 0 <= j < keys(v@).len() && keys(v@)[j] == c@;
            assert(keys(v@)[j] == c@);
        }
    }
    false
}

/// `keys` of a sequence with one address appended.
proof fn lemma_keys_push(v: Seq<Address>, a: Address)
    ensures
        keys(v.push(a)) == keys(v).push(a@),
{
    assert(keys(v.push(a)) =~= keys(v).push(a@));
}

/// The addresses of `v` other than `c`, in order.
fn without(v: &Vec<Address>, c: &Address) -> (r: Vec<Address>)
    ensures
        keys(r@) == spec_remove(keys(v@), c@),
{
    let n: usize = v.len();
    let mut r: Vec<Address> = Vec::new();
    let mut i: usize = 0;
    proof {
        reveal_with_fuel(Seq::filter, 1);
        assert(keys(v@).take(0) =~= Seq::<Seq<char>>::empty());
        assert(keys(r@) =~= Seq::<Seq<char>>::empty());
    }
    while i < n
        invariant
            n == v.len(),
            i <= n,
            keys(r@) == spec_remove(keys(v@).take(i as int), c@),
        decreases n - i,
    {
        let ghost before = r@;
        proof {
            assert(keys(v@).take(i + 1) =~= keys(v@).take(i as int).push(v@[i as int]@));
            keys(v@).take(i as int).lemma_filter_push(v@[i as int]@, differs_from(c@));
        }
        if !v[i].same_as(c) {
            r.push(v[i].duplicate());
            proof {
                lemma_keys_push(before, r@.last());
                assert(r@ =~= before.push(r@.last()));
            }
        }
        i = i + 1;
    }
    proof {
        assert(keys(v@).take(n as int) =~= keys(v@));
    }
    r
}

/// `list` with every repeat after the first occurrence dropped.
fn dedup(list: &Vec<Address>) -> (r: Vec<Address>)
    ensures
        keys(r@) == spec_dedup(keys(list@)),
{
    let n: usize = list.len();
    let mut r: Vec<Address> = Vec::new();
    let mut i: usize = 0;
    proof {
        assert(keys(list@).take(0) =~= Seq::<Seq<char>>::empty());
        assert(keys(r@) =~= Seq::<Seq<char>>::empty());
    }
    while i < n
        invariant
            n == list.len(),
            i <= n,
            keys(r@) == spec_dedup(keys(list@).take(i as int)),
        decreases n - i,
    {
        let ghost before = r@;
        proof {
            assert(keys(list@).take(i + 1).drop_last() =~= keys(list@).take(i as int));
            assert(keys(list@).take(i + 1).last() == list@[i as int]@);
        }
        if !contains_key(&r, &list[i]) {
            r.push(list[i].duplicate());
            proof {
                lemma_keys_push(before, r@.last());
                assert(r@ =~= before.push(r@.last()));
            }
        }
        i = i + 1;
    }
    proof {
        assert(keys(list@).take(n as int) =~= keys(list@));
    }
    r
}

/// The whitelist, together with the admin address that may change it.
///
/// Its entries never repeat, and their number fits a `u32`.
pub struct CurrencyWhitelist {
    admin: Option<Address>,
    currencies: Vec<Address>,
}

impl View for CurrencyWhitelist {
    type V = Seq<Seq<char>>;

    /// The whitelisted strkeys, in the order in which they were added.
    closed spec fn view(&self) -> Seq<Seq<char>> {
        keys(self.currencies@)
    }
}

impl CurrencyWhitelist {
    /// The strkey of the stored admin, if an admin is stored.
    pub closed spec fn admin_key(&self) -> Option<Seq<char>> {
        match self.admin {
            Some(a) => Some(a@),
            None => None,
        }
    }

    /// The whitelist holds no address twice and at most `u32::MAX` addresses; every
    /// value of the type keeps this.
    #[verifier::type_invariant]
    pub open spec fn wf(&self) -> bool {
        &&& self@.no_duplicates()
        &&& self@.len() <= u32::MAX
    }

    /// Whether `caller` is the stored admin.
    pub open spec fn is_admin(&self, caller: Seq<char>) -> bool {
        self.admin_key() == Some(caller)
    }

    /// An empty whitelist, managed by `admin` when one is given.
    pub fn new(admin: Option<Address>) -> (w: CurrencyWhitelist)
        ensures
            w@ == Seq::<Seq<char>>::empty(),
            w.admin_key() == (match admin {
                Some(a) => Some(a@),
                None => None,
            }),
    {
        let currencies: Vec<Address> = Vec::new();
        assert(keys(currencies@) =~= Seq::<Seq<char>>::empty());
        CurrencyWhitelist { admin, currencies }
    }

    /// The whitelist as kept in storage: `stored`, each address once, in order of first
    /// occurrence (a list written by this module is taken over unchanged).
    pub fn from_stored(admin: Option<Address>, stored: &Vec<Address>) -> (w: CurrencyWhitelist)
        requires
            stored.len() <= u32::MAX,
        ensures
            w@ == spec_dedup(keys(stored@)),
            w.admin_key() == (match admin {
                Some(a) => Some(a@),
                None => None,
            }),
    {
        let currencies = dedup(stored);
        proof {
            lemma_dedup_facts(keys(stored@));
        }
        CurrencyWhitelist { admin, currencies }
    }

    /// Stores `admin` as the admin of a whitelist that has none; a whitelist that has an
    /// admin refuses with `NotAdmin` and keeps it.
    pub fn initialize_admin(&mut self, admin: &Address) -> (r: Result<(), QuickLendXError>)
        ensures
            r is Ok <==> old(self).admin_key() is None,
            r is Ok ==> final(self).admin_key() == Some(admin@),
            r is Err ==> r == Err::<(), QuickLendXError>(QuickLendXError::NotAdmin)
                && final(self).admin_key() == old(self).admin_key(),
            final(self)@ == old(self)@,
    {
        proof {
            use_type_invariant(&*self);
        }
        if self.admin.is_some() {
            return Err(QuickLendXError::NotAdmin);
        }
        self.admin = Some(admin.duplicate());
        Ok(())
    }

    /// Makes `admin` the stored admin, in place of any earlier one. The signature of the
    /// earlier admin is the host's to check before this call.
    pub fn set_admin(&mut self, admin: &Address)
        ensures
            final(self).admin_key() == Some(admin@),
            final(self)@ == old(self)@,
    {
        proof {
            use_type_invariant(&*self);
        }
        self.admin = Some(admin.duplicate());
    }

    /// A copy of the stored admin, if one is stored.
    pub fn admin(&self) -> (a: Option<Address>)
        ensures
            (match a {
                Some(x) => Some(x@),
                None => None,
            }) == self.admin_key(),
    {
        match &self.admin {
            Some(x) => Some(x.duplicate()),
            None => None,
        }
    }

    /// `Ok` exactly when `caller` is the stored admin; `NotAdmin` otherwise, also when
    /// no admin is stored.
    pub fn require_admin(&self, caller: &Address) -> (r: Result<(), QuickLendXError>)
        ensures
            r is Ok <==> self.is_admin(caller@),
            r is Err ==> r == Err::<(), QuickLendXError>(QuickLendXError::NotAdmin),
    {
        match &self.admin {
            Some(a) => {
                if a.same_as(caller) {
                    Ok(())
                } else {
                    Err(QuickLendXError::NotAdmin)
                }
            },
            None => Err(QuickLendXError::NotAdmin),
        }
    }

    /// Whether `currency` is whitelisted. An empty whitelist lists nothing, so this is
    /// `false` for every token until one is added.
    pub fn is_allowed_currency(&self, currency: &Address) -> (r: bool)
        ensures
            r == self@.contains(currency@),
    {
        contains_key(&self.currencies, currency)
    }

    /// The check made before an invoice is created or a bid accepted: `Ok` when the
    /// whitelist is empty (every token allowed) or lists `currency`, `InvalidCurrency`
    /// otherwise.
    pub fn require_allowed_currency(&self, currency: &Address) -> (r: Result<(), QuickLendXError>)
        ensures
            r is Ok <==> spec_allowed(self@, currency@),
            r is Err ==> r == Err::<(), QuickLendXError>(QuickLendXError::InvalidCurrency),
    {
        if self.currencies.len() == 0 {
            Ok(())
        } else if contains_key(&self.currencies, currency) {
            Ok(())
        } else {
            Err(QuickLendXError::InvalidCurrency)
        }
    }

    /// The number of whitelisted currencies.
    pub fn currency_count(&self) -> (n: u32)
        ensures
            n == self@.len(),
    {
        proof {
            use_type_invariant(self);
        }
        self.currencies.len() as u32
    }

    /// All whitelisted currencies, in order.
    pub fn get_whitelisted_currencies(&self) -> (r: Vec<Address>)
        ensures
            keys(r@) == self@,
    {
        let n: usize = self.currencies.len();
        let mut r: Vec<Address> = Vec::new();
        let mut i: usize = 0;
        proof {
            assert(keys(r@) =~= self@.take(0));
        }
        while i < n
            invariant
                n == self.currencies.len(),
                i <= n,
                keys(r@) == self@.take(i as int),
            decreases n - i,
        {
            let ghost before = r@;
            r.push(self.currencies[i].duplicate());
            proof {
                lemma_keys_push(before, r@.last());
                assert(r@ =~= before.push(r@.last()));
                assert(self@.take(i + 1) =~= self@.take(i as int).push(self@[i as int]));
            }
            i = i + 1;
        }
        proof {
            assert(self@.take(n as int) =~= self@);
        }
        r
    }

    /// Adds `currency` at the end of the whitelist; nothing changes when it is already
    /// listed. Only the admin may do this: any other caller gets `NotAdmin` and the
    /// whitelist stays as it was.
    pub fn add_currency(&mut self, caller: &Address, currency: &Address) -> (r: Result<(), QuickLendXError>)
        requires
            old(self).is_admin(caller@) && !old(self)@.contains(currency@) ==> old(self)@.len() < u32::MAX,
        ensures
            final(self).admin_key() == old(self).admin_key(),
            r is Ok <==> old(self).is_admin(caller@),
            r is Ok ==> final(self)@ == spec_add(old(self)@, currency@),
            r is Ok ==> final(self)@.take(old(self)@.len() as int) == old(self)@,
            r is Ok && !old(self)@.contains(currency@) ==> final(self)@ == old(self)@.push(currency@),
            r is Ok && old(self)@.contains(currency@) ==> final(self)@ == old(self)@,
            r is Err ==> r == Err::<(), QuickLendXError>(QuickLendXError::NotAdmin) && final(self)@ == old(self)@,
    {
        proof {
            use_type_invariant(&*self);
        }
        self.require_admin(caller)?;
        proof {
            lemma_add_facts(self@, currency@);
            lemma_add_appends(self@, currency@);
        }
        if !contains_key(&self.currencies, currency) {
            let mut list: Vec<Address> = Vec::new();
            std::mem::swap(&mut list, &mut self.currencies);
            let ghost before = list@;
            list.push(currency.duplicate());
            proof {
                lemma_keys_push(before, list@.last());
                assert(list@ =~= before.push(list@.last()));
            }
            self.currencies = list;
        }
        Ok(())
    }

    /// Removes `currency`, keeping the order of the other entries; removing a currency
    /// that is not listed succeeds and changes nothing. Only the admin may do this: any
    /// other caller gets `NotAdmin` and the whitelist stays as it was.
    pub fn remove_currency(&mut self, caller: &Address, currency: &Address) -> (r: Result<(), QuickLendXError>)
        ensures
            final(self).admin_key() == old(self).admin_key(),
            r is Ok <==> old(self).is_admin(caller@),
            r is Ok ==> final(self)@ == spec_remove(old(self)@, currency@),
            r is Ok ==> forall|k: int|
                0 <= k < old(self)@.len() && old(self)@[k] == currency@ ==> final(self)@
                    == old(self)@.subrange(0, k) + old(self)@.subrange(k + 1, old(self)@.len() as int),
            r is Ok && !old(self)@.contains(currency@) ==> final(self)@ == old(self)@,
            r is Err ==> r == Err::<(), QuickLendXError>(QuickLendXError::NotAdmin) && final(self)@ == old(self)@,
    {
        proof {
            use_type_invariant(&*self);
        }
        self.require_admin(caller)?;
        proof {
            lemma_remove_facts(self@, currency@);
            assert forall|k: int|
                0 <= k < self@.len() && self@[k] == currency@ implies spec_remove(self@, currency@)
                    == self@.subrange(0, k) + self@.subrange(k + 1, self@.len() as int) by {
                lemma_remove_at(self@, currency@, k);
            }
        }
        self.currencies = without(&self.currencies, currency);
        Ok(())
    }

    /// Replaces the whole whitelist by `currencies`, each address kept once, in order of
    /// first occurrence. Only the admin may do this: any other caller gets `NotAdmin` and
    /// the whitelist stays as it was.
    pub fn set_currencies(&mut self, caller: &Address, currencies: &Vec<Address>) -> (r: Result<(), QuickLendXError>)
        requires
            currencies.len() <= u32::MAX,
        ensures
            final(self).admin_key() == old(self).admin_key(),
            r is Ok <==> old(self).is_admin(caller@),
            r is Ok ==> final(self)@ == spec_dedup(keys(currencies@)),
            r is Err ==> r == Err::<(), QuickLendXError>(QuickLendXError::NotAdmin) && final(self)@ == old(self)@,
    {
        self.require_admin(caller)?;
        proof {
            lemma_dedup_facts(keys(currencies@));
        }
        self.currencies = dedup(currencies);
        Ok(())
    }

    /// Empties the whitelist, which allows every token again. Only the admin may do this:
    /// any other caller gets `NotAdmin` and the whitelist stays as it was.
    pub fn clear_currencies(&mut self, caller: &Address) -> (r: Result<(), QuickLendXError>)
        ensures
            final(self).admin_key() == old(self).admin_key(),
            r is Ok <==> old(self).is_admin(caller@),
            r is Ok ==> final(self)@ == Seq::<Seq<char>>::empty(),
            r is Err ==> r == Err::<(), QuickLendXError>(QuickLendXError::NotAdmin) && final(self)@ == old(self)@,
    {
        self.require_admin(caller)?;
        let empty: Vec<Address> = Vec::new();
        assert(keys(empty@) =~= Seq::<Seq<char>>::empty());
        self.currencies = empty;
        Ok(())
    }

    /// The currencies from index `offset` on, at most `limit` of them, in whitelist order.
    /// An offset at or beyond the end gives an empty page; `offset + limit` saturates
    /// instead of overflowing.
    pub fn get_whitelisted_currencies_paged(&self, offset: u32, limit: u32) -> (r: Vec<Address>)
        ensures
            keys(r@) == spec_page(self@, offset, limit),
    {
        proof {
            use_type_invariant(self);
        }
        let len: u32 = self.currencies.len() as u32;
        let start: u32 = if offset < len { offset } else { len };
        let sum: u32 = offset.saturating_add(limit);
        let end: u32 = if sum < len { sum } else { len };
        let mut r: Vec<Address> = Vec::new();
        let mut i: u32 = start;
        proof {
            assert(keys(r@) =~= self@.subrange(start as int, start as int));
        }
        while i < end
            invariant
                len == self@.len(),
                len == self.currencies.len(),
                start <= i <= end,
                end <= len,
                keys(r@) == self@.subrange(start as int, i as int),
            decreases end - i,
        {
            let ghost before = r@;
            r.push(self.currencies[i as usize].duplicate());
            proof {
                lemma_keys_push(before, r@.last());
                assert(r@ =~= before.push(r@.last()));
                assert(self@.subrange(start as int, i + 1) =~= self@.subrange(start as int, i as int).push(self@[i as int]));
            }
            i = i + 1;
        }
        r
    }
}

} // verus!
