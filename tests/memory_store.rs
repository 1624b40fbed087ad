use ledger::storage::{Error, Storage};
use ledger::transaction::{HashId, Transaction, Utxo};
use ledger::{AccountId, AccountType, Amount, FullAccount, Memory};

fn make_account(id: AccountId) -> FullAccount {
    id.into()
}

fn make_deposit_tx(account: FullAccount, amount: Amount, reference: &str, timestamp: u64) -> Transaction {
    Transaction::new(
        vec![],
        vec![(account, amount)],
        reference.to_string(),
        Some(timestamp),
    )
    .expect("deposit transaction should be valid")
}

fn make_utxo(tx_id: HashId, pos: u8, amount: Amount) -> Utxo {
    Utxo::new((tx_id, pos).into(), amount)
}

#[test]
fn test_get_unspent_empty_account() {
    let storage = Memory::default();
    let account = make_account(1);

    let result = storage
        .get_unspent(&account, None)
        .expect("get_unspent should succeed for empty account");
    assert!(result.is_empty());
}

#[test]
fn test_store_and_get_unspent() {
    let mut storage = Memory::default();
    let account = make_account(1);
    let amount: Amount = 100.into();

    let tx = make_deposit_tx(account, amount, "deposit-1", 1000);
    storage
        .store_tx(tx.clone())
        .expect("store_tx should succeed for valid deposit");

    let unspent = storage
        .get_unspent(&account, None)
        .expect("get_unspent should succeed after deposit");
    assert_eq!(unspent.len(), 1);
    assert_eq!(unspent[0].amount(), amount);
}

#[test]
fn test_duplicate_transaction_rejected() {
    let mut storage = Memory::default();
    let account = make_account(1);
    let amount: Amount = 100.into();

    let tx = make_deposit_tx(account, amount, "deposit-1", 1000);
    storage
        .store_tx(tx.clone())
        .expect("first store_tx should succeed");

    let result = storage.store_tx(tx);
    assert!(matches!(result, Err(Error::Duplicate)));
}

#[test]
fn test_spent_utxo_cannot_be_spent_twice() {
    let mut storage = Memory::default();
    let account = make_account(1);
    let amount: Amount = 100.into();

    let deposit_tx = make_deposit_tx(account, amount, "deposit-1", 1000);
    let deposit_id = deposit_tx.id();
    storage.store_tx(deposit_tx).expect("deposit should succeed");

    let utxo = make_utxo(deposit_id, 0, amount);
    let spend_tx = Transaction::new(
        vec![utxo],
        vec![(account, amount)],
        "spend-1".to_string(),
        Some(2000),
    )
    .expect("spend transaction should be valid");
    storage.store_tx(spend_tx).expect("first spend should succeed");

    let utxo_again = make_utxo(deposit_id, 0, amount);
    let double_spend_tx = Transaction::new(
        vec![utxo_again],
        vec![(account, amount)],
        "spend-2".to_string(),
        Some(3000),
    )
    .expect("double spend transaction should be valid structurally");
    let result = storage.store_tx(double_spend_tx);
    assert!(matches!(result, Err(Error::SpentUtxo(_))));
}

#[test]
fn test_missing_utxo_error() {
    let mut storage = Memory::default();
    let account = make_account(1);
    let amount: Amount = 100.into();

    let fake_tx_id = [0u8; 32];
    let utxo = make_utxo(fake_tx_id, 0, amount);
    let tx = Transaction::new(
        vec![utxo],
        vec![(account, amount)],
        "spend-1".to_string(),
        Some(1000),
    )
    .expect("transaction with fake utxo should be valid structurally");

    let result = storage.store_tx(tx);
    assert!(matches!(result, Err(Error::MissingUtxo(_))));
}

#[test]
fn test_mismatch_amount_error() {
    let mut storage = Memory::default();
    let account = make_account(1);
    let amount: Amount = 100.into();

    let deposit_tx = make_deposit_tx(account, amount, "deposit-1", 1000);
    let deposit_id = deposit_tx.id();
    storage.store_tx(deposit_tx).expect("deposit should succeed");

    let wrong_amount: Amount = 50.into();
    let utxo = make_utxo(deposit_id, 0, wrong_amount);
    let spend_tx = Transaction::new(
        vec![utxo],
        vec![(account, wrong_amount)],
        "spend-1".to_string(),
        Some(2000),
    )
    .expect("transaction with wrong amount should be valid structurally");

    let result = storage.store_tx(spend_tx);
    assert!(matches!(result, Err(Error::MismatchAmount)));
}

#[test]
fn test_get_unspent_with_target_amount_exact() {
    let mut storage = Memory::default();
    let account = make_account(1);

    let tx1 = make_deposit_tx(account, 50.into(), "deposit-1", 1000);
    let tx2 = make_deposit_tx(account, 50.into(), "deposit-2", 2000);
    storage.store_tx(tx1).expect("first deposit should succeed");
    storage.store_tx(tx2).expect("second deposit should succeed");

    let unspent = storage
        .get_unspent(&account, Some(50.into()))
        .expect("get_unspent with target should succeed");
    assert_eq!(unspent.len(), 1);
    assert_eq!(*unspent[0].amount(), 50);
}

#[test]
fn test_get_unspent_with_target_amount_needs_multiple() {
    let mut storage = Memory::default();
    let account = make_account(1);

    let tx1 = make_deposit_tx(account, 50.into(), "deposit-1", 1000);
    let tx2 = make_deposit_tx(account, 50.into(), "deposit-2", 2000);
    storage.store_tx(tx1).expect("first deposit should succeed");
    storage.store_tx(tx2).expect("second deposit should succeed");

    let unspent = storage
        .get_unspent(&account, Some(75.into()))
        .expect("get_unspent with target should succeed");
    assert_eq!(unspent.len(), 2);
}

#[test]
fn test_get_unspent_without_target_returns_all() {
    let mut storage = Memory::default();
    let account = make_account(1);

    let tx1 = make_deposit_tx(account, 50.into(), "deposit-1", 1000);
    let tx2 = make_deposit_tx(account, 50.into(), "deposit-2", 2000);
    let tx3 = make_deposit_tx(account, 50.into(), "deposit-3", 3000);
    storage.store_tx(tx1).expect("first deposit should succeed");
    storage.store_tx(tx2).expect("second deposit should succeed");
    storage.store_tx(tx3).expect("third deposit should succeed");

    let unspent = storage
        .get_unspent(&account, None)
        .expect("get_unspent without target should succeed");
    assert_eq!(unspent.len(), 3);
}

#[test]
fn test_spent_utxos_not_returned() {
    let mut storage = Memory::default();
    let account = make_account(1);

    let deposit_tx = make_deposit_tx(account, 100.into(), "deposit-1", 1000);
    let deposit_id = deposit_tx.id();
    storage.store_tx(deposit_tx).expect("deposit should succeed");

    let utxo = make_utxo(deposit_id, 0, 100.into());
    let spend_tx = Transaction::new(
        vec![utxo],
        vec![(account, 100.into())],
        "spend-1".to_string(),
        Some(2000),
    )
    .expect("spend transaction should be valid");
    storage
        .store_tx(spend_tx.clone())
        .expect("spend should succeed");

    let unspent = storage
        .get_unspent(&account, None)
        .expect("get_unspent should succeed after spend");
    assert_eq!(unspent.len(), 1);
    assert_eq!(unspent[0].id(), (spend_tx.id(), 0).into());
}

#[test]
fn test_multiple_accounts_isolated() {
    let mut storage = Memory::default();
    let account1 = make_account(1);
    let account2 = make_account(2);

    let tx1 = make_deposit_tx(account1, 100.into(), "deposit-1", 1000);
    let tx2 = make_deposit_tx(account2, 200.into(), "deposit-2", 2000);
    storage.store_tx(tx1).expect("deposit to account1 should succeed");
    storage.store_tx(tx2).expect("deposit to account2 should succeed");

    let unspent1 = storage
        .get_unspent(&account1, None)
        .expect("get_unspent for account1 should succeed");
    let unspent2 = storage
        .get_unspent(&account2, None)
        .expect("get_unspent for account2 should succeed");

    assert_eq!(unspent1.len(), 1);
    assert_eq!(*unspent1[0].amount(), 100);
    assert_eq!(unspent2.len(), 1);
    assert_eq!(*unspent2[0].amount(), 200);
}

#[test]
fn test_get_tx_by_reference_returns_transaction() {
    let mut storage = Memory::default();
    let account = make_account(1);

    let tx = make_deposit_tx(account, 100.into(), "deposit-1", 1000);
    let tx_id = tx.id();
    storage.store_tx(tx).expect("store_tx should succeed");

    let result = storage
        .get_tx_by_reference(&account, &"deposit-1".to_string())
        .expect("get_tx_by_reference should succeed");

    assert!(result.is_some());
    let found_tx = result.unwrap();
    assert_eq!(found_tx.id(), tx_id);
    assert_eq!(found_tx.reference(), "deposit-1");
}

#[test]
fn test_get_tx_by_reference_nonexistent_returns_none() {
    let mut storage = Memory::default();
    let account = make_account(1);

    let tx = make_deposit_tx(account, 100.into(), "deposit-1", 1000);
    storage.store_tx(tx).expect("store_tx should succeed");

    let result = storage
        .get_tx_by_reference(&account, &"nonexistent".to_string())
        .expect("get_tx_by_reference should succeed");

    assert!(result.is_none());
}

#[test]
fn test_get_tx_by_reference_wrong_account_returns_none() {
    let mut storage = Memory::default();
    let account1 = make_account(1);
    let account2 = make_account(2);

    let tx = make_deposit_tx(account1, 100.into(), "deposit-1", 1000);
    storage.store_tx(tx).expect("store_tx should succeed");

    let result = storage
        .get_tx_by_reference(&account2, &"deposit-1".to_string())
        .expect("get_tx_by_reference should succeed");

    assert!(result.is_none());
}

#[test]
fn test_duplicate_reference_same_account_rejected() {
    let mut storage = Memory::default();
    let account = make_account(1);

    let tx1 = make_deposit_tx(account, 100.into(), "deposit-1", 1000);
    storage.store_tx(tx1).expect("first store_tx should succeed");

    let tx2 = make_deposit_tx(account, 50.into(), "deposit-1", 2000);
    let result = storage.store_tx(tx2);

    assert!(matches!(result, Err(Error::Duplicate)));
}

#[test]
fn test_same_reference_different_accounts_allowed() {
    let mut storage = Memory::default();
    let account1 = make_account(1);
    let account2 = make_account(2);

    let tx1 = make_deposit_tx(account1, 100.into(), "deposit-1", 1000);
    storage.store_tx(tx1).expect("first store_tx should succeed");

    let tx2 = make_deposit_tx(account2, 50.into(), "deposit-1", 2000);
    storage
        .store_tx(tx2)
        .expect("second store_tx with same reference different account should succeed");

    let result1 = storage
        .get_tx_by_reference(&account1, &"deposit-1".to_string())
        .expect("get_tx_by_reference should succeed");
    let result2 = storage
        .get_tx_by_reference(&account2, &"deposit-1".to_string())
        .expect("get_tx_by_reference should succeed");

    assert!(result1.is_some());
    assert!(result2.is_some());
    assert_ne!(result1.unwrap().id(), result2.unwrap().id());
}

#[test]
fn test_get_tx_by_reference_empty_storage_returns_none() {
    let storage = Memory::default();
    let account = make_account(1);

    let result = storage
        .get_tx_by_reference(&account, &"any-reference".to_string())
        .expect("get_tx_by_reference should succeed for empty storage");

    assert!(result.is_none());
}

#[test]
fn test_get_accounts_returns_in_order() {
    let mut storage = Memory::default();

    let account_ids: Vec<AccountId> = vec![5, 2, 8, 1, 9, 3, 7, 4, 6, 10];
    for (i, &id) in account_ids.iter().enumerate() {
        let account = make_account(id);
        let tx = make_deposit_tx(account, 100.into(), &format!("deposit-{}", i), (i * 1000) as u64);
        storage.store_tx(tx).expect("deposit should succeed");
    }

    for &id in &[2, 5, 8] {
        let disputed_account: FullAccount = (id, AccountType::Disputed).into();
        let tx = make_deposit_tx(disputed_account, 50.into(), &format!("disputed-{}", id), 100000);
        storage
            .store_tx(tx)
            .expect("disputed deposit should succeed");
    }

    let mut accounts: Vec<FullAccount> = Vec::new();
    while let Some(account) = storage.account_at(accounts.len()) {
        accounts.push(account);
    }

    let mut sorted = accounts.clone();
    sorted.sort();
    assert_eq!(accounts, sorted, "accounts should be returned in sorted order");

    assert_eq!(accounts.len(), 13);

    assert_eq!(accounts[0].id(), 1);
    assert_eq!(accounts[0].typ(), AccountType::Main);
    assert_eq!(accounts[1].id(), 2);
    assert_eq!(accounts[1].typ(), AccountType::Main);
    assert_eq!(accounts[2].id(), 2);
    assert_eq!(accounts[2].typ(), AccountType::Disputed);
}
