use fungible_token::{transfer_amounts, AccountId, FungibleToken, LedgerError, DEFAULT_TOTAL_SUPPLY};

/// The account that deploys the token in these tests.
fn signer_account_id() -> AccountId {
    "bob.near".parse().unwrap()
}

#[test]
fn get_total_supply() {
    let contract = FungibleToken::with_default_supply(signer_account_id());
    assert_eq!(contract.get_total_supply(), 100);
}

#[test]
fn get_balance_of() {
    let contract = FungibleToken::with_default_supply(signer_account_id());
    assert_eq!(contract.get_balance_of(signer_account_id()), 100);
}

#[test]
fn transfer() {
    let mut contract = FungibleToken::with_default_supply(signer_account_id());
    contract
        .transfer(signer_account_id(), "firas.testnet".parse().unwrap(), 10)
        .unwrap();
    assert_eq!(contract.get_balance_of(signer_account_id()), 90);
    assert_eq!(contract.get_balance_of("firas.testnet".parse().unwrap()), 10);
}

#[test]
fn default_supply_is_one_hundred() {
    assert_eq!(DEFAULT_TOTAL_SUPPLY, 100);
}

#[test]
fn initialize_credits_only_the_holder() {
    let token = FungibleToken::initialize("alice".to_string(), 5000);
    assert_eq!(token.get_total_supply(), 5000);
    assert_eq!(token.get_balance_of("alice".to_string()), 5000);
    assert_eq!(token.get_balance_of("carol".to_string()), 0);
}

#[test]
fn initialize_with_zero_supply() {
    let token = FungibleToken::initialize("alice".to_string(), 0);
    assert_eq!(token.get_total_supply(), 0);
    assert_eq!(token.get_balance_of("alice".to_string()), 0);
}

#[test]
fn initialize_with_largest_supply() {
    let token = FungibleToken::initialize("alice".to_string(), u128::MAX);
    assert_eq!(token.get_balance_of("alice".to_string()), u128::MAX);
}

#[test]
fn transfers_keep_the_sum_of_balances() {
    let accounts = ["a", "b", "c"];
    let mut token = FungibleToken::initialize("a".to_string(), 100);
    let steps = [("a", "b", 30), ("b", "c", 10), ("c", "a", 50), ("a", "c", 70), ("c", "b", 5)];
    for (from, to, amount) in steps {
        let _ = token.transfer(from.to_string(), to.to_string(), amount);
        let sum: u128 = accounts.iter().map(|a| token.get_balance_of(a.to_string())).sum();
        assert_eq!(sum, token.get_total_supply());
    }
    assert_eq!(token.get_balance_of("a".to_string()), 0);
    assert_eq!(token.get_balance_of("b".to_string()), 25);
    assert_eq!(token.get_balance_of("c".to_string()), 75);
}

#[test]
fn overdraft_changes_no_balance() {
    let mut token = FungibleToken::initialize("a".to_string(), 100);
    token.transfer("a".to_string(), "b".to_string(), 40).unwrap();
    let r = token.transfer("b".to_string(), "a".to_string(), 41);
    assert_eq!(r, Err(LedgerError::InsufficientFunds));
    assert_eq!(token.get_balance_of("a".to_string()), 60);
    assert_eq!(token.get_balance_of("b".to_string()), 40);
}

#[test]
fn overdraft_from_unknown_account() {
    let mut token = FungibleToken::initialize("a".to_string(), 100);
    let r = token.transfer("nobody".to_string(), "a".to_string(), 1);
    assert_eq!(r, Err(LedgerError::InsufficientFunds));
    assert_eq!(token.get_balance_of("a".to_string()), 100);
    assert_eq!(token.get_balance_of("nobody".to_string()), 0);
}

#[test]
fn zero_transfer_changes_no_balance() {
    let mut token = FungibleToken::initialize("a".to_string(), 100);
    assert_eq!(token.transfer("x".to_string(), "y".to_string(), 0), Ok(()));
    assert_eq!(token.transfer("a".to_string(), "b".to_string(), 0), Ok(()));
    assert_eq!(token.get_balance_of("a".to_string()), 100);
    assert_eq!(token.get_balance_of("b".to_string()), 0);
    assert_eq!(token.get_balance_of("x".to_string()), 0);
    assert_eq!(token.get_balance_of("y".to_string()), 0);
}

#[test]
fn self_transfer_keeps_balance() {
    let mut token = FungibleToken::initialize("a".to_string(), 100);
    assert_eq!(token.transfer("a".to_string(), "a".to_string(), 100), Ok(()));
    assert_eq!(token.get_balance_of("a".to_string()), 100);
    assert_eq!(
        token.transfer("a".to_string(), "a".to_string(), 101),
        Err(LedgerError::InsufficientFunds)
    );
    assert_eq!(token.get_balance_of("a".to_string()), 100);
}

#[test]
fn transfer_scenario_with_refused_overdraft() {
    let mut token = FungibleToken::initialize("A".to_string(), 100);
    assert_eq!(token.get_total_supply(), 100);
    assert_eq!(token.get_balance_of("A".to_string()), 100);
    assert_eq!(token.transfer("A".to_string(), "firas.testnet".to_string(), 10), Ok(()));
    assert_eq!(token.get_balance_of("A".to_string()), 90);
    assert_eq!(token.get_balance_of("firas.testnet".to_string()), 10);
    assert_eq!(
        token.transfer("A".to_string(), "firas.testnet".to_string(), 1000),
        Err(LedgerError::InsufficientFunds)
    );
    assert_eq!(token.get_balance_of("A".to_string()), 90);
    assert_eq!(token.get_balance_of("firas.testnet".to_string()), 10);
}

#[test]
fn unknown_account_has_zero_balance() {
    let token = FungibleToken::initialize("A".to_string(), 100);
    assert_eq!(token.get_balance_of("never.seen".to_string()), 0);
    assert_eq!(token.get_balance_of(String::new()), 0);
}

#[test]
fn whole_supply_can_move() {
    let mut token = FungibleToken::initialize("a".to_string(), u128::MAX);
    assert_eq!(token.transfer("a".to_string(), "b".to_string(), u128::MAX), Ok(()));
    assert_eq!(token.get_balance_of("a".to_string()), 0);
    assert_eq!(token.get_balance_of("b".to_string()), u128::MAX);
}

#[test]
fn transfer_amounts_moves_value() {
    assert_eq!(transfer_amounts(90, 10, 25), Ok((65, 35)));
    assert_eq!(transfer_amounts(5, 0, 5), Ok((0, 5)));
    assert_eq!(transfer_amounts(5, 7, 0), Ok((5, 7)));
}

#[test]
fn transfer_amounts_insufficient_funds() {
    assert_eq!(transfer_amounts(9, 0, 10), Err(LedgerError::InsufficientFunds));
}

#[test]
fn transfer_amounts_overflow() {
    assert_eq!(transfer_amounts(10, u128::MAX - 5, 6), Err(LedgerError::ArithmeticOverflow));
    assert_eq!(transfer_amounts(10, u128::MAX - 5, 5), Ok((5, u128::MAX)));
}
