use quicklendx_currency::address::Address;
use quicklendx_currency::error::QuickLendXError;
use quicklendx_currency::whitelist::CurrencyWhitelist;

fn token(n: u32) -> Address {
    Address::from_strkey(format!("C{:055}", n))
}

fn admin() -> Address {
    Address::from_strkey(format!("G{:055}", 7))
}

fn listed(w: &CurrencyWhitelist) -> Vec<String> {
    w.get_whitelisted_currencies().iter().map(|a| a.strkey().to_string()).collect()
}

fn keys_of(v: &[Address]) -> Vec<String> {
    v.iter().map(|a| a.strkey().to_string()).collect()
}

#[test]
fn no_stored_admin_refuses_every_write() {
    let mut w = CurrencyWhitelist::new(None);
    let caller = admin();
    assert_eq!(w.add_currency(&caller, &token(1)), Err(QuickLendXError::NotAdmin));
    assert_eq!(w.remove_currency(&caller, &token(1)), Err(QuickLendXError::NotAdmin));
    assert_eq!(w.set_currencies(&caller, &vec![token(1)]), Err(QuickLendXError::NotAdmin));
    assert_eq!(w.clear_currencies(&caller), Err(QuickLendXError::NotAdmin));
    assert_eq!(w.require_admin(&caller), Err(QuickLendXError::NotAdmin));
    assert_eq!(w.currency_count(), 0);
}

#[test]
fn refused_write_leaves_whitelist_unchanged() {
    let mut w = CurrencyWhitelist::new(Some(admin()));
    w.add_currency(&admin(), &token(1)).unwrap();
    w.add_currency(&admin(), &token(2)).unwrap();
    let before = listed(&w);
    let intruder = token(99);
    assert_eq!(w.add_currency(&intruder, &token(3)), Err(QuickLendXError::NotAdmin));
    assert_eq!(w.remove_currency(&intruder, &token(1)), Err(QuickLendXError::NotAdmin));
    assert_eq!(w.set_currencies(&intruder, &vec![token(5)]), Err(QuickLendXError::NotAdmin));
    assert_eq!(w.clear_currencies(&intruder), Err(QuickLendXError::NotAdmin));
    assert_eq!(listed(&w), before);
    assert_eq!(w.require_admin(&admin()), Ok(()));
}

#[test]
fn invalid_currency_error_only_for_nonempty_whitelist() {
    let mut w = CurrencyWhitelist::new(Some(admin()));
    assert_eq!(w.require_allowed_currency(&token(4)), Ok(()));
    assert!(!w.is_allowed_currency(&token(4)));
    w.add_currency(&admin(), &token(1)).unwrap();
    assert_eq!(w.require_allowed_currency(&token(4)), Err(QuickLendXError::InvalidCurrency));
    assert_eq!(w.require_allowed_currency(&token(1)), Ok(()));
}

#[test]
fn add_appends_and_is_idempotent() {
    let mut w = CurrencyWhitelist::new(Some(admin()));
    w.add_currency(&admin(), &token(3)).unwrap();
    w.add_currency(&admin(), &token(1)).unwrap();
    let once = listed(&w);
    w.add_currency(&admin(), &token(1)).unwrap();
    assert_eq!(listed(&w), once);
    assert_eq!(listed(&w), keys_of(&[token(3), token(1)]));
}

#[test]
fn remove_keeps_order_and_undoes_add() {
    let mut w = CurrencyWhitelist::new(Some(admin()));
    for n in [4, 2, 9, 5] {
        w.add_currency(&admin(), &token(n)).unwrap();
    }
    let before = listed(&w);
    w.add_currency(&admin(), &token(6)).unwrap();
    w.remove_currency(&admin(), &token(6)).unwrap();
    assert_eq!(listed(&w), before);
    w.remove_currency(&admin(), &token(2)).unwrap();
    assert_eq!(listed(&w), keys_of(&[token(4), token(9), token(5)]));
    w.remove_currency(&admin(), &token(2)).unwrap();
    assert_eq!(listed(&w), keys_of(&[token(4), token(9), token(5)]));
}

#[test]
fn set_currencies_keeps_first_occurrences_in_order() {
    let mut w = CurrencyWhitelist::new(Some(admin()));
    w.add_currency(&admin(), &token(8)).unwrap();
    let input = vec![token(2), token(1), token(2), token(3), token(1)];
    w.set_currencies(&admin(), &input).unwrap();
    assert_eq!(listed(&w), keys_of(&[token(2), token(1), token(3)]));
    assert_eq!(w.currency_count(), 3);
    assert!(!w.is_allowed_currency(&token(8)));
}

#[test]
fn stored_list_is_taken_over() {
    let distinct = vec![token(5), token(3), token(4)];
    let w = CurrencyWhitelist::from_stored(Some(admin()), &distinct);
    assert_eq!(listed(&w), keys_of(&distinct));
    let repeated = vec![token(5), token(5), token(3)];
    let w = CurrencyWhitelist::from_stored(None, &repeated);
    assert_eq!(listed(&w), keys_of(&[token(5), token(3)]));
}

#[test]
fn consecutive_pages_concatenate() {
    let mut w = CurrencyWhitelist::new(Some(admin()));
    for n in 0..9 {
        w.add_currency(&admin(), &token(n)).unwrap();
    }
    let mut joined = keys_of(&w.get_whitelisted_currencies_paged(2, 3));
    joined.extend(keys_of(&w.get_whitelisted_currencies_paged(5, 2)));
    assert_eq!(joined, keys_of(&w.get_whitelisted_currencies_paged(2, 5)));
    assert_eq!(keys_of(&w.get_whitelisted_currencies_paged(0, u32::MAX)), listed(&w));
    assert_eq!(keys_of(&w.get_whitelisted_currencies_paged(7, 5)), keys_of(&[token(7), token(8)]));
    assert_eq!(w.get_whitelisted_currencies_paged(3, 0).len(), 0);
}

#[test]
fn address_strkey_round_trip() {
    let a = Address::from_strkey("CABC".to_string());
    assert_eq!(a.strkey(), "CABC");
    assert!(a.same_as(&a.duplicate()));
    assert!(!a.same_as(&Address::from_strkey("CABD".to_string())));
}

#[test]
fn set_currencies_matches_clear_then_adds() {
    let input = vec![token(4), token(2), token(4), token(6)];
    let mut by_set = CurrencyWhitelist::new(Some(admin()));
    by_set.add_currency(&admin(), &token(9)).unwrap();
    by_set.set_currencies(&admin(), &input).unwrap();
    let mut by_adds = CurrencyWhitelist::new(Some(admin()));
    by_adds.add_currency(&admin(), &token(9)).unwrap();
    by_adds.clear_currencies(&admin()).unwrap();
    for t in &input {
        by_adds.add_currency(&admin(), t).unwrap();
    }
    assert_eq!(listed(&by_set), listed(&by_adds));
}

#[test]
fn page_walk_reads_whitelist_in_order() {
    let mut w = CurrencyWhitelist::new(Some(admin()));
    for n in 0..11 {
        w.add_currency(&admin(), &token(n)).unwrap();
    }
    let mut walked = Vec::new();
    let mut offset = 0u32;
    loop {
        let page = w.get_whitelisted_currencies_paged(offset, 4);
        if page.is_empty() {
            break;
        }
        walked.extend(keys_of(&page));
        offset += 4;
    }
    assert_eq!(walked, listed(&w));
    assert_eq!(offset, 12);
}

#[test]
fn admin_is_initialized_once_and_can_be_replaced() {
    let mut w = CurrencyWhitelist::new(None);
    assert!(w.admin().is_none());
    assert_eq!(w.initialize_admin(&admin()), Ok(()));
    assert_eq!(w.admin().unwrap().strkey(), admin().strkey());
    assert_eq!(w.initialize_admin(&token(3)), Err(QuickLendXError::NotAdmin));
    assert_eq!(w.admin().unwrap().strkey(), admin().strkey());
    w.add_currency(&admin(), &token(1)).unwrap();
    w.set_admin(&token(3));
    assert_eq!(w.add_currency(&admin(), &token(2)), Err(QuickLendXError::NotAdmin));
    assert_eq!(w.add_currency(&token(3), &token(2)), Ok(()));
    assert_eq!(listed(&w), keys_of(&[token(1), token(2)]));
}
