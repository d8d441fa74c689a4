use economy::ledger::BankId;
use economy::ledger::Ledger;

#[test]
fn bank_open_account() {
    let mut ledger = Ledger::new();
    let bank = ledger.add_bank("Federal Reserve");
    let account = ledger.open_account(bank, "Jeff");
    assert_eq!(ledger.get_name(account), Some("Jeff".to_string()));
    assert_eq!(ledger.bank_account_count(bank), 1);
}

#[test]
fn bank_issue_loan() {
    let mut ledger = Ledger::new();
    let bank = ledger.add_bank("Federal Reserve");
    let account = ledger.open_account(bank, "Jeff");
    let loan = ledger.issue_loan(bank, account, 500);
    assert!(loan.is_some());
    assert_eq!(ledger.get_due(loan.unwrap()), Some(500));
    assert_eq!(ledger.loan_count(account), 1);
}

#[test]
fn process_transaction() {
    let mut ledger = Ledger::new();
    let bank_a = ledger.add_bank("Federal Reserve");
    let bank_b = ledger.add_bank("Bank of America");
    let fed_account = ledger.open_account(bank_a, "FED");
    let boa_account = ledger.open_account(bank_b, "BOA");
    let was_transaction_success = ledger.process_transaction(fed_account, boa_account, 500);
    assert!(was_transaction_success);
    assert_eq!(ledger.bank_transaction_count(bank_a), 1);
    assert_eq!(ledger.bank_transaction_count(bank_b), 1);
    assert_eq!(ledger.get_balance(fed_account), -500);
    assert_eq!(ledger.get_balance(boa_account), 500);
    assert_eq!(ledger.transaction_count(fed_account), 1);
    assert_eq!(ledger.transaction_count(boa_account), 1);
}

#[test]
fn transaction_within_one_bank_is_kept_twice() {
    let mut ledger = Ledger::new();
    let bank = ledger.add_bank("Bank");
    let a = ledger.open_account(bank, "A");
    let b = ledger.open_account(bank, "B");
    assert!(ledger.process_transaction(a, b, 120));
    assert_eq!(ledger.bank_transaction_count(bank), 2);
    assert_eq!(ledger.get_balance(a), -120);
    assert_eq!(ledger.get_balance(b), 120);
    assert!(ledger.process_transaction(b, a, 20));
    assert_eq!(ledger.get_balance(a), -100);
    assert_eq!(ledger.get_balance(b), 100);
    assert_eq!(ledger.transaction_count(a), 2);
}

#[test]
fn transaction_to_self_counts_on_both_sides() {
    let mut ledger = Ledger::new();
    let bank = ledger.add_bank("Bank");
    let a = ledger.open_account(bank, "A");
    assert!(ledger.process_transaction(a, a, 10));
    assert_eq!(ledger.transaction_count(a), 2);
    assert_eq!(ledger.get_balance(a), -20);
}

#[test]
fn transaction_with_unknown_account_fails() {
    let mut ledger = Ledger::new();
    let bank = ledger.add_bank("Bank");
    let a = ledger.open_account(bank, "A");
    let mut other = Ledger::new();
    let other_bank = other.add_bank("Elsewhere");
    other.open_account(other_bank, "X");
    let stranger = other.open_account(other_bank, "Y");
    assert!(!ledger.process_transaction(a, stranger, 5));
    assert_eq!(ledger.get_balance(a), 0);
    assert_eq!(ledger.transaction_count(a), 0);
    assert_eq!(ledger.bank_transaction_count(bank), 0);
}

#[test]
fn transaction_past_the_balance_range_fails() {
    let mut ledger = Ledger::new();
    let bank = ledger.add_bank("Bank");
    let a = ledger.open_account(bank, "A");
    let b = ledger.open_account(bank, "B");
    assert!(!ledger.process_transaction(a, b, u64::MAX));
    assert!(ledger.process_transaction(a, b, i64::MAX as u64));
    assert_eq!(ledger.get_balance(b), i64::MAX);
    assert!(!ledger.process_transaction(a, b, 1));
    assert_eq!(ledger.get_balance(a), -i64::MAX);
}

#[test]
fn loan_on_unknown_account_is_refused() {
    let mut ledger = Ledger::new();
    let bank = ledger.add_bank("Bank");
    let mut other = Ledger::new();
    let other_bank = other.add_bank("Elsewhere");
    let stranger = other.open_account(other_bank, "X");
    assert!(ledger.issue_loan(bank, stranger, 10).is_none());
    assert!(ledger.issue_loan(BankId { index: 7 }, stranger, 10).is_none());
    let a = ledger.open_account(bank, "A");
    assert!(ledger.issue_loan(BankId { index: 7 }, a, 10).is_none());
    assert_eq!(ledger.loan_count(a), 0);
    assert_eq!(ledger.get_balance(a), 0);
}

#[test]
fn account_knows_its_bank() {
    let mut ledger = Ledger::new();
    ledger.add_bank("First");
    let second = ledger.add_bank("Second");
    let a = ledger.open_account(second, "A");
    assert_eq!(ledger.get_bank(a), Some(second));
    assert_eq!(ledger.get_bank(economy::ledger::AccountId { bank: 0, index: 0 }), None);
}
