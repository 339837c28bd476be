use openbook::clearing::{fee_on, BPS_DENOMINATOR};
use openbook::ledger::{Asset, Ledger, UserBalance};
use openbook::table::Table;

#[test]
fn test_table_keeps_insertion_order() {
    let mut table: Table<u64> = Table::new();
    assert_eq!(table.len(), 0);
    assert_eq!(table.find(&"a".to_string()), None);
    table.push("a".to_string(), 1);
    table.push("b".to_string(), 2);
    assert_eq!(table.len(), 2);
    assert_eq!(table.find(&"a".to_string()), Some(0));
    assert_eq!(table.find(&"b".to_string()), Some(1));
    assert_eq!(table.find(&"c".to_string()), None);
    assert_eq!(table.name(1), "b");
    assert_eq!(*table.get(1), 2);
    *table.get_mut(0) = 7;
    assert_eq!(*table.get(0), 7);
    assert_eq!(*table.get(1), 2);
    let copy = table.clone();
    *table.get_mut(1) = 9;
    assert_eq!(*copy.get(1), 2);
    assert_eq!(copy.len(), 2);
}

#[test]
fn test_credit_opens_an_account() {
    let mut ledger = Ledger::new();
    assert_eq!(ledger.len(), 0);
    assert!(ledger.credit(&"Alice".to_string(), Asset::Quote, 5));
    assert!(ledger.credit(&"Bob".to_string(), Asset::Base, 3));
    assert!(ledger.credit(&"Alice".to_string(), Asset::Base, 2));
    assert_eq!(ledger.len(), 2);
    assert_eq!(ledger.balance_of("Alice"), UserBalance { base: 2, quote: 5 });
    assert_eq!(ledger.balance_of("Bob"), UserBalance { base: 3, quote: 0 });
    assert_eq!(ledger.balance_of("Carol"), UserBalance::default());
    let (name, held) = ledger.account_at(1);
    assert_eq!(name, "Bob");
    assert_eq!(held.base, 3);
}

#[test]
fn test_credit_that_does_not_fit_changes_nothing() {
    let mut ledger = Ledger::new();
    assert!(ledger.credit(&"Alice".to_string(), Asset::Base, u64::MAX - 1));
    assert!(!ledger.credit(&"Alice".to_string(), Asset::Base, 2));
    assert_eq!(ledger.balance_of("Alice").base, u64::MAX - 1);
    assert!(ledger.credit(&"Alice".to_string(), Asset::Base, 1));
    assert_eq!(ledger.balance_of("Alice").base, u64::MAX);
    assert!(ledger.credit(&"Alice".to_string(), Asset::Quote, u64::MAX));
}

#[test]
fn test_debit_needs_the_amount() {
    let mut ledger = Ledger::new();
    ledger.credit(&"Alice".to_string(), Asset::Quote, 10);
    assert!(!ledger.debit(&"Alice".to_string(), Asset::Quote, 11));
    assert!(!ledger.debit(&"Alice".to_string(), Asset::Base, 1));
    assert_eq!(ledger.balance_of("Alice").quote, 10);
    assert!(ledger.debit(&"Alice".to_string(), Asset::Quote, 10));
    assert_eq!(ledger.balance_of("Alice").quote, 0);
    assert!(!ledger.debit(&"Bob".to_string(), Asset::Base, 1));
    assert_eq!(ledger.len(), 1);
    assert!(ledger.debit(&"Bob".to_string(), Asset::Base, 0));
    assert_eq!(ledger.len(), 2);
    let copy = ledger.clone();
    assert_eq!(copy.len(), 2);
}

#[test]
fn test_fee_on_exact_values() {
    assert_eq!(BPS_DENOMINATOR, 10_000);
    assert_eq!(fee_on(7_000, 30), Some(21));
    assert_eq!(fee_on(99, 125), Some(1));
    assert_eq!(fee_on(9_999, 1), Some(0));
    assert_eq!(fee_on(10_000, 1), Some(1));
    assert_eq!(fee_on(0, 10_000), Some(0));
    assert_eq!(fee_on(12_345, 10_000), Some(12_345));
    assert_eq!(fee_on(12_345, 0), Some(0));
    assert_eq!(fee_on(1, 15_000), Some(1));
    assert_eq!(fee_on(2, 15_000), Some(3));
    assert_eq!(fee_on(u128::MAX, 10_000), Some(u128::MAX));
    assert_eq!(fee_on(u128::MAX, 5_000), Some(u128::MAX / 2));
    assert_eq!(
        fee_on(u64::MAX as u128 * u64::MAX as u128, 30),
        Some(1_020_847_100_762_815_390_279_443_357_853_047_324)
    );
}

#[test]
fn test_fee_on_beyond_128_bits() {
    assert_eq!(fee_on(u128::MAX, 10_001), None);
    assert_eq!(fee_on(u128::MAX, u64::MAX), None);
    assert_eq!(fee_on(u128::MAX / 2, 20_000), Some(u128::MAX - 1));
    assert_eq!(fee_on(u128::MAX / 2 + 1, 20_000), None);
}
