use ledger::storage;
use ledger::{AccountId, Error, Ledger, Memory};

fn assert_balance(ledger: &Ledger<Memory>, account: AccountId, main: i128, disputed: i128) {
    let balances = ledger
        .get_balances(account)
        .expect("get_balances should succeed");
    assert_eq!(*balances.available, main, "main balance mismatch");
    assert_eq!(*balances.disputed, disputed, "disputed balance mismatch");
    assert_eq!(*balances.total, main + disputed, "total balance mismatch");
}

#[test]
fn test_deposit_creates_balance() {
    let mut ledger = Ledger::default();
    let account_id: AccountId = 1;

    let tx_id = ledger
        .deposit(account_id, "deposit-1".to_string(), 100.into())
        .expect("deposit should succeed");

    assert_ne!(tx_id, [0u8; 32]);
    assert_balance(&ledger, account_id, 100, 0);
}

#[test]
fn test_deposit_and_withdraw_exact_amount() {
    let mut ledger = Ledger::default();
    let account_id: AccountId = 1;

    ledger
        .deposit(account_id, "deposit-1".to_string(), 100.into())
        .expect("deposit should succeed");
    assert_balance(&ledger, account_id, 100, 0);

    let tx_id = ledger
        .withdraw(account_id, "withdraw-1".to_string(), 100.into())
        .expect("exact withdrawal should succeed");
    assert_ne!(tx_id, [0u8; 32]);
    assert_balance(&ledger, account_id, 0, 0);
}

#[test]
fn test_withdraw_partial_amount() {
    let mut ledger = Ledger::default();
    let account_id: AccountId = 1;

    ledger
        .deposit(account_id, "deposit-1".to_string(), 100.into())
        .expect("deposit should succeed");
    assert_balance(&ledger, account_id, 100, 0);

    let tx_id = ledger
        .withdraw(account_id, "withdraw-1".to_string(), 60.into())
        .expect("partial withdrawal should succeed");
    assert_ne!(tx_id, [0u8; 32]);
    assert_balance(&ledger, account_id, 40, 0);

    let tx_id2 = ledger
        .withdraw(account_id, "withdraw-2".to_string(), 40.into())
        .expect("withdrawing remaining balance should succeed");
    assert_ne!(tx_id2, [0u8; 32]);
    assert_balance(&ledger, account_id, 0, 0);
}

#[test]
fn test_over_withdrawal_not_possible() {
    let mut ledger = Ledger::default();
    let account_id: AccountId = 1;

    ledger
        .deposit(account_id, "deposit-1".to_string(), 100.into())
        .expect("deposit should succeed");
    assert_balance(&ledger, account_id, 100, 0);

    let result = ledger.withdraw(account_id, "withdraw-1".to_string(), 150.into());
    assert!(matches!(result, Err(Error::NotEnough)));
    assert_balance(&ledger, account_id, 100, 0);
}

#[test]
fn test_withdraw_from_empty_account() {
    let mut ledger = Ledger::default();
    let account_id: AccountId = 1;

    assert_balance(&ledger, account_id, 0, 0);

    let result = ledger.withdraw(account_id, "withdraw-1".to_string(), 50.into());
    assert!(matches!(result, Err(Error::NotEnough)));
}

#[test]
fn test_multiple_deposits_accumulate() {
    let mut ledger = Ledger::default();
    let account_id: AccountId = 1;

    ledger
        .deposit(account_id, "deposit-1".to_string(), 50.into())
        .expect("first deposit should succeed");
    ledger
        .deposit(account_id, "deposit-2".to_string(), 50.into())
        .expect("second deposit should succeed");
    ledger
        .deposit(account_id, "deposit-3".to_string(), 50.into())
        .expect("third deposit should succeed");
    assert_balance(&ledger, account_id, 150, 0);

    let tx_id = ledger
        .withdraw(account_id, "withdraw-1".to_string(), 120.into())
        .expect("withdrawal using multiple UTXOs should succeed");
    assert_ne!(tx_id, [0u8; 32]);
    assert_balance(&ledger, account_id, 30, 0);

    let tx_id2 = ledger
        .withdraw(account_id, "withdraw-2".to_string(), 30.into())
        .expect("withdrawing remaining balance should succeed");
    assert_ne!(tx_id2, [0u8; 32]);
    assert_balance(&ledger, account_id, 0, 0);
}

#[test]
fn test_cannot_withdraw_more_than_remaining_after_partial() {
    let mut ledger = Ledger::default();
    let account_id: AccountId = 1;

    ledger
        .deposit(account_id, "deposit-1".to_string(), 100.into())
        .expect("deposit should succeed");
    assert_balance(&ledger, account_id, 100, 0);

    ledger
        .withdraw(account_id, "withdraw-1".to_string(), 70.into())
        .expect("partial withdrawal should succeed");
    assert_balance(&ledger, account_id, 30, 0);

    let result = ledger.withdraw(account_id, "withdraw-2".to_string(), 50.into());
    assert!(matches!(result, Err(Error::NotEnough)));
}

#[test]
fn test_different_accounts_isolated() {
    let mut ledger = Ledger::default();
    let account1: AccountId = 1;
    let account2: AccountId = 2;

    ledger
        .deposit(account1, "deposit-1".to_string(), 100.into())
        .expect("deposit to account1 should succeed");
    assert_balance(&ledger, account1, 100, 0);
    assert_balance(&ledger, account2, 0, 0);

    let result = ledger.withdraw(account2, "withdraw-1".to_string(), 50.into());
    assert!(matches!(result, Err(Error::NotEnough)));

    let tx_id = ledger
        .withdraw(account1, "withdraw-2".to_string(), 100.into())
        .expect("withdrawal from account1 should succeed");
    assert_ne!(tx_id, [0u8; 32]);
    assert_balance(&ledger, account1, 0, 0);
}

#[test]
fn test_withdraw_exact_balance_leaves_nothing() {
    let mut ledger = Ledger::default();
    let account_id: AccountId = 1;

    ledger
        .deposit(account_id, "deposit-1".to_string(), 100.into())
        .expect("deposit should succeed");
    ledger
        .withdraw(account_id, "withdraw-1".to_string(), 100.into())
        .expect("exact withdrawal should succeed");
    assert_balance(&ledger, account_id, 0, 0);

    let result = ledger.withdraw(account_id, "withdraw-2".to_string(), 1.into());
    assert!(matches!(result, Err(Error::NotEnough)));
}

#[test]
fn test_dispute_moves_funds_to_held_exact_amount() {
    let mut ledger = Ledger::default();
    let account_id: AccountId = 1;

    ledger
        .deposit(account_id, "deposit-1".to_string(), 100.into())
        .expect("deposit should succeed");
    assert_balance(&ledger, account_id, 100, 0);

    ledger
        .dispute(account_id, "deposit-1".to_string())
        .expect("dispute should succeed");
    assert_balance(&ledger, account_id, 0, 100);

    let result = ledger.withdraw(account_id, "withdraw-1".to_string(), 1.into());
    assert!(matches!(result, Err(Error::NotEnough)));
}

#[test]
fn test_dispute_nonexistent_reference_fails() {
    let mut ledger = Ledger::default();
    let account_id: AccountId = 1;

    ledger
        .deposit(account_id, "deposit-1".to_string(), 100.into())
        .expect("deposit should succeed");
    assert_balance(&ledger, account_id, 100, 0);

    let result = ledger.dispute(account_id, "nonexistent-ref".to_string());
    assert!(matches!(result, Err(Error::NotFound)));
    assert_balance(&ledger, account_id, 100, 0);
}

#[test]
fn test_dispute_transfer_fails_wrong_type() {
    let mut ledger = Ledger::default();
    let account_id: AccountId = 1;

    ledger
        .deposit(account_id, "deposit-1".to_string(), 100.into())
        .expect("deposit should succeed");
    ledger
        .withdraw(account_id, "withdraw-1".to_string(), 50.into())
        .expect("withdrawal should succeed");
    assert_balance(&ledger, account_id, 50, 0);

    let result = ledger.dispute(account_id, "Exchange for withdraw-1".to_string());
    assert!(matches!(result, Err(Error::WrongType)));
}

#[test]
fn test_duplicate_deposit_reference_fails() {
    let mut ledger = Ledger::default();
    let account_id: AccountId = 1;

    ledger
        .deposit(account_id, "deposit-1".to_string(), 100.into())
        .expect("first deposit should succeed");
    assert_balance(&ledger, account_id, 100, 0);

    let result = ledger.deposit(account_id, "deposit-1".to_string(), 50.into());
    assert!(matches!(
        result,
        Err(Error::Storage(storage::Error::Duplicate))
    ));
    assert_balance(&ledger, account_id, 100, 0);
}

#[test]
fn test_same_reference_different_accounts_succeeds() {
    let mut ledger = Ledger::default();
    let account1: AccountId = 1;
    let account2: AccountId = 2;

    ledger
        .deposit(account1, "deposit-1".to_string(), 100.into())
        .expect("deposit to account1 should succeed");
    ledger
        .deposit(account2, "deposit-1".to_string(), 50.into())
        .expect("deposit to account2 with same reference should succeed");

    assert_balance(&ledger, account1, 100, 0);
    assert_balance(&ledger, account2, 50, 0);
}

#[test]
fn test_dispute_after_utxo_shuffle() {
    let mut ledger = Ledger::default();
    let account_id: AccountId = 1;

    ledger
        .deposit(account_id, "a".to_string(), 10.into())
        .expect("deposit a should succeed");
    assert_balance(&ledger, account_id, 10, 0);

    ledger
        .deposit(account_id, "b".to_string(), 5.into())
        .expect("deposit b should succeed");
    assert_balance(&ledger, account_id, 15, 0);

    ledger
        .withdraw(account_id, "withdraw-1".to_string(), 11.into())
        .expect("withdrawal should succeed");
    assert_balance(&ledger, account_id, 4, 0);

    ledger
        .deposit(account_id, "c".to_string(), 1.into())
        .expect("deposit c should succeed");
    assert_balance(&ledger, account_id, 5, 0);

    ledger
        .dispute(account_id, "b".to_string())
        .expect("dispute should succeed");
    assert_balance(&ledger, account_id, 0, 5);

    let result = ledger.withdraw(account_id, "withdraw-2".to_string(), 1.into());
    assert!(matches!(result, Err(Error::NotEnough)));
}

#[test]
fn test_get_accounts_returns_unique_ids_no_sub_accounts() {
    let mut ledger = Ledger::default();

    let account_ids: Vec<AccountId> = vec![5, 2, 8, 1, 9, 3, 7, 4, 6, 10];
    for (i, &id) in account_ids.iter().enumerate() {
        ledger
            .deposit(id, format!("deposit-{}", i), 100.into())
            .expect("deposit should succeed");
    }

    for &id in &[2, 5, 8] {
        ledger
            .dispute(
                id,
                format!(
                    "deposit-{}",
                    account_ids.iter().position(|&x| x == id).unwrap()
                ),
            )
            .expect("dispute should succeed");
    }

    let mut stream = ledger.get_accounts();
    let mut accounts: Vec<AccountId> = Vec::new();
    while let Some(id) = stream.next() {
        accounts.push(id);
    }

    assert_eq!(accounts.len(), 10);

    let mut sorted_expected = account_ids.clone();
    sorted_expected.sort();
    let mut sorted_actual = accounts.clone();
    sorted_actual.sort();
    assert_eq!(sorted_actual, sorted_expected);
}
