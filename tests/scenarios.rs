use ledger::storage::{self, Storage};
use ledger::transaction::{self as tx, Transaction, Utxo};
use ledger::{AccountId, AccountType, Amount, Error, FullAccount, Ledger, Memory};

fn balances(ledger: &Ledger<Memory>, account: AccountId) -> (i128, i128, i128, i128) {
    let b = ledger.get_balances(account).expect("get_balances should succeed");
    (*b.available, *b.disputed, *b.chargeback, *b.total)
}

#[test]
fn deposit_then_over_withdraw() {
    let mut ledger = Ledger::default();
    ledger.deposit(1, "deposit-1".to_string(), 100.into()).unwrap();
    assert_eq!(balances(&ledger, 1), (100, 0, 0, 100));
    let r = ledger.withdraw(1, "withdraw-1".to_string(), 150.into());
    assert!(matches!(r, Err(Error::NotEnough)));
    assert_eq!(balances(&ledger, 1), (100, 0, 0, 100));
}

#[test]
fn partial_withdrawal_records_exchange_and_withdrawal() {
    let mut ledger = Ledger::default();
    ledger.deposit(1, "deposit-1".to_string(), 100.into()).unwrap();
    ledger.withdraw(1, "withdraw-1".to_string(), 60.into()).unwrap();
    assert_eq!(balances(&ledger, 1), (40, 0, 0, 40));

    let main: FullAccount = 1.into();
    let exchange = ledger
        .storage()
        .get_tx_by_reference(&main, &"Exchange for withdraw-1".to_string())
        .unwrap()
        .expect("the exchange is recorded");
    assert_eq!(exchange.inputs().len(), 1);
    assert_eq!(exchange.outputs().len(), 2);
    assert_eq!(*exchange.outputs()[0].1, 60);
    assert_eq!(*exchange.outputs()[1].1, 40);

    let unspent = ledger.storage().get_unspent(&main, None).unwrap();
    assert_eq!(unspent.len(), 1);
    assert_eq!(unspent[0].id(), (exchange.id(), 1).into());
}

#[test]
fn dispute_freezes_funds() {
    let mut ledger = Ledger::default();
    ledger.deposit(1, "deposit-1".to_string(), 100.into()).unwrap();
    ledger.dispute(1, "deposit-1".to_string()).unwrap();
    assert_eq!(balances(&ledger, 1), (0, 100, 0, 100));
    let r = ledger.withdraw(1, "withdraw-1".to_string(), 1.into());
    assert!(matches!(r, Err(Error::NotEnough)));
}

#[test]
fn resolve_returns_funds() {
    let mut ledger = Ledger::default();
    ledger.deposit(1, "deposit-1".to_string(), 100.into()).unwrap();
    ledger.dispute(1, "deposit-1".to_string()).unwrap();
    ledger.resolve(1, "deposit-1".to_string()).unwrap();
    assert_eq!(balances(&ledger, 1), (100, 0, 0, 100));
    ledger
        .withdraw(1, "withdraw-1".to_string(), 100.into())
        .expect("withdrawal after resolve should succeed");
    assert_eq!(balances(&ledger, 1), (0, 0, 0, 0));
}

#[test]
fn chargeback_retires_funds() {
    let mut ledger = Ledger::default();
    ledger.deposit(1, "deposit-1".to_string(), 100.into()).unwrap();
    ledger.dispute(1, "deposit-1".to_string()).unwrap();
    ledger.chargeback(1, "deposit-1".to_string()).unwrap();
    assert_eq!(balances(&ledger, 1), (0, 0, 100, 0));
    let locked = *ledger.get_balances(1).unwrap().chargeback > 0;
    assert!(locked);
}

#[test]
fn dispute_after_shuffle_finds_spent_deposit() {
    let mut ledger = Ledger::default();
    ledger.deposit(1, "a".to_string(), 10.into()).unwrap();
    ledger.deposit(1, "b".to_string(), 5.into()).unwrap();
    ledger.withdraw(1, "withdraw-1".to_string(), 11.into()).unwrap();
    assert_eq!(balances(&ledger, 1), (4, 0, 0, 4));
    ledger.deposit(1, "c".to_string(), 1.into()).unwrap();
    assert_eq!(balances(&ledger, 1), (5, 0, 0, 5));
    ledger.dispute(1, "b".to_string()).unwrap();
    assert_eq!(balances(&ledger, 1), (0, 5, 0, 5));
}

#[test]
fn duplicate_reference_is_refused() {
    let mut ledger = Ledger::default();
    ledger.deposit(1, "deposit-1".to_string(), 100.into()).unwrap();
    let r = ledger.deposit(1, "deposit-1".to_string(), 50.into());
    assert!(matches!(r, Err(Error::Storage(storage::Error::Duplicate))));
    assert_eq!(balances(&ledger, 1), (100, 0, 0, 100));
}

#[test]
fn same_reference_for_two_clients() {
    let mut ledger = Ledger::default();
    ledger.deposit(1, "deposit-1".to_string(), 100.into()).unwrap();
    ledger.deposit(2, "deposit-1".to_string(), 50.into()).unwrap();
    assert_eq!(balances(&ledger, 1), (100, 0, 0, 100));
    assert_eq!(balances(&ledger, 2), (50, 0, 0, 50));
}

#[test]
fn accounts_are_distinct_and_ascending() {
    let mut ledger = Ledger::default();
    for (i, id) in [9u16, 3, 7, 3, 1].iter().enumerate() {
        ledger.deposit(*id, format!("d{}", i), 10.into()).unwrap();
    }
    ledger.dispute(7, "d2".to_string()).unwrap();
    ledger.dispute(7, "d2".to_string()).expect_err("nothing is left to freeze");
    let mut ids = Vec::new();
    let mut stream = ledger.get_accounts();
    while let Some(id) = stream.next() {
        ids.push(id);
    }
    assert_eq!(ids, vec![1, 3, 7, 9]);
    assert_eq!(stream.next(), None);
}

#[test]
fn accounts_of_an_empty_ledger() {
    let ledger = Ledger::default();
    let mut stream = ledger.get_accounts();
    assert_eq!(stream.next(), None);
}

#[test]
fn value_is_conserved_over_a_sequence() {
    let mut ledger = Ledger::default();
    ledger.deposit(1, "a".to_string(), 70.into()).unwrap();
    ledger.deposit(1, "b".to_string(), 30.into()).unwrap();
    ledger.withdraw(1, "w".to_string(), 45.into()).unwrap();
    ledger.dispute(1, "b".to_string()).unwrap();
    ledger.deposit(1, "c".to_string(), 5.into()).unwrap();
    ledger.chargeback(1, "b".to_string()).unwrap();
    let (avail, disp, cb, _) = balances(&ledger, 1);
    assert_eq!(avail + disp + cb, 70 + 30 + 5 - 45);
    assert_eq!((avail, disp, cb), (30, 0, 30));
}

#[test]
fn resolve_without_dispute_is_not_found() {
    let mut ledger = Ledger::default();
    ledger.deposit(1, "deposit-1".to_string(), 100.into()).unwrap();
    assert!(matches!(ledger.resolve(1, "deposit-1".to_string()), Err(Error::NotFound)));
    assert!(matches!(ledger.chargeback(1, "deposit-1".to_string()), Err(Error::NotFound)));
    assert!(matches!(ledger.dispute(1, "nothing".to_string()), Err(Error::NotFound)));
}

#[test]
fn resolve_after_resolve_is_refused() {
    let mut ledger = Ledger::default();
    ledger.deposit(1, "deposit-1".to_string(), 100.into()).unwrap();
    ledger.dispute(1, "deposit-1".to_string()).unwrap();
    ledger.resolve(1, "deposit-1".to_string()).unwrap();
    let r = ledger.resolve(1, "deposit-1".to_string());
    assert!(matches!(r, Err(Error::Internal) | Err(Error::Storage(storage::Error::Duplicate))));
    assert_eq!(balances(&ledger, 1), (100, 0, 0, 100));
}

#[test]
fn dispute_with_change_returns_rest_to_main() {
    let mut ledger = Ledger::default();
    ledger.deposit(1, "big".to_string(), 80.into()).unwrap();
    ledger.deposit(1, "small".to_string(), 20.into()).unwrap();
    ledger.dispute(1, "small".to_string()).unwrap();
    assert_eq!(balances(&ledger, 1), (80, 20, 0, 100));
}

#[test]
fn dispute_of_spent_funds_is_refused() {
    let mut ledger = Ledger::default();
    ledger.deposit(1, "deposit-1".to_string(), 100.into()).unwrap();
    ledger.withdraw(1, "withdraw-1".to_string(), 100.into()).unwrap();
    let r = ledger.dispute(1, "deposit-1".to_string());
    assert!(matches!(r, Err(Error::NotEnough)));
    assert_eq!(balances(&ledger, 1), (0, 0, 0, 0));
}

#[test]
fn balance_overflow_is_math() {
    let mut ledger = Ledger::default();
    ledger.deposit(1, "a".to_string(), i128::MAX.into()).unwrap();
    ledger.deposit(1, "b".to_string(), 1.into()).unwrap();
    assert!(matches!(ledger.get_balances(1), Err(Error::Math)));
}

#[test]
fn selection_overflow_is_storage_math() {
    let mut ledger = Ledger::default();
    ledger.deposit(1, "a".to_string(), 1.into()).unwrap();
    ledger.deposit(1, "b".to_string(), i128::MAX.into()).unwrap();
    let r = ledger.withdraw(1, "w".to_string(), i128::MAX.into());
    assert!(matches!(r, Err(Error::Storage(storage::Error::Math))));
}

#[test]
fn transaction_construction_rules() {
    let main: FullAccount = 1.into();
    let r = Transaction::new(vec![], vec![], "x".to_string(), Some(1));
    assert!(matches!(r, Err(tx::Error::InvalidFrom)));

    let input = Utxo::new(([7u8; 32], 0).into(), 10.into());
    let r = Transaction::new(vec![input], vec![(main, 9.into())], "x".to_string(), Some(1));
    assert!(matches!(r, Err(tx::Error::Imbalanced)));

    let zero = Utxo::new(([7u8; 32], 0).into(), 0.into());
    let r = Transaction::new(vec![zero], vec![(main, 0.into())], "x".to_string(), Some(1));
    assert!(matches!(r, Err(tx::Error::InvalidFrom)));

    let big = Utxo::new(([7u8; 32], 1).into(), i128::MAX.into());
    let r = Transaction::new(
        vec![big, big],
        vec![(main, i128::MAX.into()), (main, i128::MAX.into())],
        "x".to_string(),
        Some(1),
    );
    assert!(r.is_ok());

    let r = Transaction::new(vec![input], vec![], "x".to_string(), Some(1));
    assert!(r.is_ok());
}

#[test]
fn transaction_hash_matches_layout() {
    let main: FullAccount = 1.into();
    let t = Transaction::new(vec![], vec![(main, 100.into())], "deposit-1".to_string(), Some(1000)).unwrap();
    let expected: [u8; 32] = [
        55, 175, 213, 149, 104, 83, 152, 118, 68, 229, 173, 48, 168, 217, 197, 175, 202, 65, 43, 24,
        48, 147, 231, 185, 17, 114, 104, 95, 240, 65, 6, 95,
    ];
    assert_eq!(t.id(), expected);
    let later = Transaction::new(vec![], vec![(main, 100.into())], "deposit-1".to_string(), Some(1001)).unwrap();
    assert_ne!(later.id(), expected);
}

#[test]
fn byte_encodings() {
    let one: Amount = 1.into();
    let mut expected = [0u8; 16];
    expected[0] = 1;
    assert_eq!(one.to_bytes(), expected);
    let minus_one: Amount = (-1).into();
    assert_eq!(minus_one.to_bytes(), [0xffu8; 16]);
    let account: FullAccount = (0x0102, AccountType::Chargeback).into();
    assert_eq!(account.to_bytes(), [2, 1, 2]);
    assert_eq!(AccountType::Main.to_byte(), 0);
    assert_eq!(AccountType::Disputed.to_byte(), 1);
}

#[test]
fn amount_checked_arithmetic() {
    let a: Amount = 5.into();
    assert_eq!(*a.checked_add(7.into()).unwrap(), 12);
    assert_eq!(*a.checked_sub(7.into()).unwrap(), -2);
    let max: Amount = i128::MAX.into();
    assert!(matches!(max.checked_add(1.into()), Err(Error::Math)));
    let min: Amount = i128::MIN.into();
    assert!(matches!(min.checked_sub(1.into()), Err(Error::Math)));
}

#[test]
fn too_many_outputs_is_math() {
    let mut storage = Memory::default();
    let main: FullAccount = 1.into();
    let outputs: Vec<(FullAccount, Amount)> = (0..257).map(|_| (main, 1.into())).collect();
    let t = Transaction::new(vec![], outputs, "many".to_string(), Some(1)).unwrap();
    assert!(matches!(storage.store_tx(t), Err(storage::Error::Math)));
    assert!(storage.get_unspent(&main, None).unwrap().is_empty());
}
