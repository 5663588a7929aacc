use neurotoken::{Account, Ledger, NeuroError, TokenMeta, TokenSupply, TransferRequest};

#[test]
fn basic_flow_mint_and_transfer() {
    let mut ledger = Ledger::new();

    let alice = ledger.create_account("alice").expect("alice");
    let bob = ledger.create_account("bob").expect("bob");

    let meta = TokenMeta::new("NEURO", 6, "Neuro Token");
    ledger.mint(&alice, 1_000_000, meta.clone()).expect("mint");

    let req = TransferRequest::new(alice.clone(), bob.clone(), 250_000, meta.symbol.clone());
    ledger.transfer(req).expect("transfer");

    let alice_balance = ledger.balance_of(&alice, &meta.symbol).unwrap_or(0);
    let bob_balance = ledger.balance_of(&bob, &meta.symbol).unwrap_or(0);

    assert_eq!(alice_balance, 750_000);
    assert_eq!(bob_balance, 250_000);
}

fn neuro() -> TokenMeta {
    TokenMeta::new("NEURO", 6, "Neuro Token")
}

#[test]
fn mint_and_transfer_keeps_supply() {
    let mut ledger = Ledger::new();
    let alice = ledger.create_account("alice").unwrap();
    let bob = ledger.create_account("bob").unwrap();
    ledger.mint(&alice, 1_000_000, neuro()).unwrap();
    ledger
        .transfer(TransferRequest::new(alice.clone(), bob.clone(), 250_000, "NEURO".to_string()))
        .unwrap();
    assert_eq!(ledger.balance_of(&alice, "NEURO"), Some(750_000));
    assert_eq!(ledger.balance_of(&bob, "NEURO"), Some(250_000));
    assert_eq!(ledger.supply_of("NEURO"), Some(1_000_000));
}

#[test]
fn transfer_insufficient_balance() {
    let mut ledger = Ledger::new();
    let alice = ledger.create_account("alice").unwrap();
    let bob = ledger.create_account("bob").unwrap();
    ledger.mint(&alice, 100, neuro()).unwrap();
    let r = ledger.transfer(TransferRequest::new(alice.clone(), bob.clone(), 101, "NEURO".to_string()));
    assert!(matches!(
        r,
        Err(NeuroError::InsufficientBalance { required: 101, available: 100 })
    ));
    assert_eq!(ledger.balance_of(&alice, "NEURO"), Some(100));
    assert_eq!(ledger.balance_of(&bob, "NEURO"), Some(0));
    assert_eq!(ledger.supply_of("NEURO"), Some(100));
}

#[test]
fn credit_zero_amount_creates_no_entry() {
    let mut a = Account::new("a");
    let r = a.credit("X", 0);
    assert!(matches!(r, Err(NeuroError::InvalidAmount(0))));
    assert!(a.balances.is_empty());
    assert_eq!(a.get_balance("X"), None);
}

#[test]
fn mint_overflow_leaves_supply() {
    let mut ledger = Ledger::new();
    let alice = ledger.create_account("alice").unwrap();
    ledger.mint(&alice, u128::MAX, neuro()).unwrap();
    let r = ledger.mint(&alice, 1, neuro());
    assert!(matches!(r, Err(NeuroError::Overflow)));
    assert_eq!(ledger.supply_of("NEURO"), Some(u128::MAX));
    assert_eq!(ledger.balance_of(&alice, "NEURO"), Some(u128::MAX));
}

#[test]
fn account_ids_are_hyphenated_uuids() {
    let mut ledger = Ledger::new();
    let a = ledger.create_account("a").unwrap();
    let b = ledger.create_account("b").unwrap();
    assert_eq!(a.len(), 36);
    assert_ne!(a, b);
    let dashes: Vec<usize> = a.char_indices().filter(|(_, c)| *c == '-').map(|(i, _)| i).collect();
    assert_eq!(dashes, vec![8, 13, 18, 23]);
    let acct = Account::new("carol");
    assert_eq!(acct.alias, "carol");
    assert_eq!(acct.id.len(), 36);
}

#[test]
fn credit_then_debit_restores_balance() {
    let mut a = Account::new("a");
    a.credit("X", 40).unwrap();
    a.credit("Y", 7).unwrap();
    a.credit("X", 25).unwrap();
    assert_eq!(a.get_balance("X"), Some(65));
    a.debit("X", 25).unwrap();
    assert_eq!(a.get_balance("X"), Some(40));
    assert_eq!(a.get_balance("Y"), Some(7));
}

#[test]
fn account_credit_overflow_and_debit_errors() {
    let mut a = Account::new("a");
    a.credit("X", u128::MAX).unwrap();
    assert!(matches!(a.credit("X", 1), Err(NeuroError::Overflow)));
    assert_eq!(a.get_balance("X"), Some(u128::MAX));
    assert!(matches!(a.debit("X", 0), Err(NeuroError::InvalidAmount(0))));
    match a.debit("Z", 1) {
        Err(NeuroError::TokenNotFound(s)) => assert_eq!(s, "Z"),
        other => panic!("unexpected {:?}", other),
    }
    let mut b = Account::new("b");
    b.credit("X", 5).unwrap();
    assert!(matches!(
        b.debit("X", 6),
        Err(NeuroError::InsufficientBalance { required: 6, available: 5 })
    ));
    b.debit("X", 5).unwrap();
    assert_eq!(b.get_balance("X"), Some(0));
}

#[test]
fn get_balance_mut_changes_in_place() {
    let mut a = Account::new("a");
    a.credit("X", 3).unwrap();
    assert!(a.get_balance_mut("Y").is_none());
    if let Some(e) = a.get_balance_mut("X") {
        e.amount = 9;
    }
    assert_eq!(a.get_balance("X"), Some(9));
}

#[test]
fn transfer_symmetry_on_values() {
    let mut ledger = Ledger::new();
    let a = ledger.create_account("a").unwrap();
    let b = ledger.create_account("b").unwrap();
    ledger.mint(&a, 500, neuro()).unwrap();
    ledger.mint(&b, 20, neuro()).unwrap();
    ledger
        .transfer(TransferRequest::new(a.clone(), b.clone(), 123, "NEURO".to_string()))
        .unwrap();
    let sum = ledger.balance_of(&a, "NEURO").unwrap() + ledger.balance_of(&b, "NEURO").unwrap();
    assert_eq!(sum, 520);
    assert_eq!(ledger.balance_of(&a, "NEURO"), Some(377));
    assert_eq!(ledger.balance_of(&b, "NEURO"), Some(143));
}

#[test]
fn transfer_errors() {
    let mut ledger = Ledger::new();
    let a = ledger.create_account("a").unwrap();
    let b = ledger.create_account("b").unwrap();
    ledger.mint(&a, 10, neuro()).unwrap();
    let t = |from: &str, to: &str, amount: u128, sym: &str| {
        TransferRequest::new(from.to_string(), to.to_string(), amount, sym.to_string())
    };
    assert!(matches!(ledger.transfer(t(&a, &b, 0, "NEURO")), Err(NeuroError::InvalidAmount(0))));
    assert!(matches!(ledger.transfer(t(&a, &a, 1, "NEURO")), Err(NeuroError::SelfTransfer)));
    match ledger.transfer(t("nobody", &b, 1, "NEURO")) {
        Err(NeuroError::AccountNotFound(id)) => assert_eq!(id, "nobody"),
        other => panic!("unexpected {:?}", other),
    }
    match ledger.transfer(t(&a, "nobody", 1, "NEURO")) {
        Err(NeuroError::AccountNotFound(id)) => assert_eq!(id, "nobody"),
        other => panic!("unexpected {:?}", other),
    }
    match ledger.transfer(t(&a, &b, 1, "OTHER")) {
        Err(NeuroError::TokenNotFound(s)) => assert_eq!(s, "OTHER"),
        other => panic!("unexpected {:?}", other),
    }
    match ledger.transfer(t(&b, &a, 1, "NEURO")) {
        Err(NeuroError::TokenNotFound(s)) => assert_eq!(s, "NEURO"),
        other => panic!("unexpected {:?}", other),
    }
    assert_eq!(ledger.balance_of(&a, "NEURO"), Some(10));
    assert_eq!(ledger.balance_of(&b, "NEURO"), Some(0));
}

#[test]
fn mint_errors_and_conflict() {
    let mut ledger = Ledger::new();
    let a = ledger.create_account("a").unwrap();
    assert!(matches!(ledger.mint(&a, 0, neuro()), Err(NeuroError::InvalidAmount(0))));
    match ledger.mint("ghost", 1, neuro()) {
        Err(NeuroError::AccountNotFound(id)) => assert_eq!(id, "ghost"),
        other => panic!("unexpected {:?}", other),
    }
    ledger.mint(&a, 5, neuro()).unwrap();
    match ledger.mint(&a, 5, TokenMeta::new("NEURO", 8, "Neuro Token")) {
        Err(NeuroError::TokenConflict(s)) => assert_eq!(s, "NEURO"),
        other => panic!("unexpected {:?}", other),
    }
    match ledger.register_token(TokenMeta::new("NEURO", 6, "Other")) {
        Err(NeuroError::TokenConflict(s)) => assert_eq!(s, "NEURO"),
        other => panic!("unexpected {:?}", other),
    }
    ledger.register_token(neuro()).unwrap();
    assert_eq!(ledger.supply_of("NEURO"), Some(5));
    ledger.register_token(TokenMeta::new("GAS", 0, "Gas")).unwrap();
    assert_eq!(ledger.supply_of("GAS"), Some(0));
    assert_eq!(ledger.supply_of("NONE"), None);
    assert_eq!(ledger.balance_of("ghost", "NEURO"), None);
}

#[test]
fn burn_reduces_balance_and_supply() {
    let mut ledger = Ledger::new();
    let a = ledger.create_account("a").unwrap();
    let b = ledger.create_account("b").unwrap();
    ledger.mint(&a, 100, neuro()).unwrap();
    ledger.mint(&b, 50, neuro()).unwrap();
    ledger.burn(&a, "NEURO", 30).unwrap();
    assert_eq!(ledger.balance_of(&a, "NEURO"), Some(70));
    assert_eq!(ledger.supply_of("NEURO"), Some(120));
    assert!(matches!(ledger.burn(&a, "NEURO", 0), Err(NeuroError::InvalidAmount(0))));
    assert!(matches!(
        ledger.burn(&a, "NEURO", 71),
        Err(NeuroError::InsufficientBalance { required: 71, available: 70 })
    ));
    match ledger.burn(&a, "GAS", 1) {
        Err(NeuroError::TokenNotFound(s)) => assert_eq!(s, "GAS"),
        other => panic!("unexpected {:?}", other),
    }
    match ledger.burn("nobody", "NEURO", 1) {
        Err(NeuroError::AccountNotFound(id)) => assert_eq!(id, "nobody"),
        other => panic!("unexpected {:?}", other),
    }
    assert_eq!(ledger.supply_of("NEURO"), Some(120));
}

#[test]
fn token_supply_checked_arithmetic() {
    let mut s = TokenSupply::new();
    assert_eq!(s.total, 0);
    assert_eq!(s.mint(0), None);
    assert_eq!(s.mint(10), Some(10));
    assert_eq!(s.burn(11), None);
    assert_eq!(s.burn(0), None);
    assert_eq!(s.burn(4), Some(6));
    assert_eq!(s.mint(u128::MAX), None);
    assert_eq!(s.total, 6);
    let m = TokenMeta::new("NEURO", 6, "Neuro Token");
    assert_eq!(m.symbol, "NEURO");
    assert_eq!(m.decimals, 6);
    assert_eq!(m.name, "Neuro Token");
}

#[test]
fn conservation_after_mixed_operations() {
    let mut ledger = Ledger::new();
    let ids: Vec<String> = ["a", "b", "c"].iter().map(|n| ledger.create_account(n).unwrap()).collect();
    ledger.mint(&ids[0], 900, neuro()).unwrap();
    ledger.mint(&ids[1], 100, neuro()).unwrap();
    ledger.transfer(TransferRequest::new(ids[0].clone(), ids[2].clone(), 300, "NEURO".to_string())).unwrap();
    ledger.burn(&ids[1], "NEURO", 40).unwrap();
    let _ = ledger.transfer(TransferRequest::new(ids[1].clone(), ids[2].clone(), 1000, "NEURO".to_string()));
    let _ = ledger.burn(&ids[2], "NEURO", 301);
    let held: u128 = ids.iter().map(|id| ledger.balance_of(id, "NEURO").unwrap()).sum();
    assert_eq!(ledger.supply_of("NEURO"), Some(held));
    assert_eq!(held, 960);
}

#[test]
fn add_account_refuses_a_taken_id() {
    let mut ledger = Ledger::new();
    let acct = Account::new("dora");
    let id = acct.id.clone();
    assert_eq!(ledger.add_account(acct).unwrap(), id);
    let twin = Account { id: id.clone(), alias: "twin".to_string(), balances: Vec::new() };
    assert!(matches!(ledger.add_account(twin), Err(NeuroError::General(_))));
    assert_eq!(ledger.balance_of(&id, "NEURO"), Some(0));
}

#[test]
fn credit_appends_new_entries_in_order() {
    let mut a = Account::new("a");
    a.credit("X", 1).unwrap();
    a.credit("Y", 2).unwrap();
    a.credit("X", 3).unwrap();
    let syms: Vec<(&str, u128)> = a.balances.iter().map(|b| (b.symbol.as_str(), b.amount)).collect();
    assert_eq!(syms, vec![("X", 4), ("Y", 2)]);
}

#[test]
fn account_id_is_lowercase_hex() {
    let id = Account::new("e").id;
    for (i, c) in id.chars().enumerate() {
        if [8, 13, 18, 23].contains(&i) {
            assert_eq!(c, '-');
        } else {
            assert!(c.is_ascii_digit() || ('a'..='f').contains(&c));
        }
    }
}
