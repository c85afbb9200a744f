use finance_tracker::amount::parse_amount;
use finance_tracker::kind::TransactionKind;
use finance_tracker::ledger::FinanceTracker;
use finance_tracker::text::parse_bool;

#[test]
fn test_parse_amount_valid() {
    let result = parse_amount("123.45");
    assert!(result.is_some());
    assert_eq!(result.unwrap(), 12345);
}

#[test]
fn test_parse_amount_invald() {
    let result = parse_amount("abc");
    assert!(result.is_none());
}

#[test]
fn test_parse_amount_forms() {
    assert_eq!(parse_amount("123"), Some(12300));
    assert_eq!(parse_amount("0"), Some(0));
    assert_eq!(parse_amount("0.05"), Some(5));
    assert_eq!(parse_amount(".5"), Some(50));
    assert_eq!(parse_amount("5."), Some(500));
    assert_eq!(parse_amount("-45.6"), Some(-4560));
    assert_eq!(parse_amount("+7.25"), Some(725));
    assert_eq!(parse_amount("-0"), Some(0));
}

#[test]
fn test_parse_amount_rejections() {
    assert_eq!(parse_amount(""), None);
    assert_eq!(parse_amount("."), None);
    assert_eq!(parse_amount("-"), None);
    assert_eq!(parse_amount("+."), None);
    assert_eq!(parse_amount("1.234"), None);
    assert_eq!(parse_amount("1.2.3"), None);
    assert_eq!(parse_amount("--5"), None);
    assert_eq!(parse_amount("12a"), None);
    assert_eq!(parse_amount("1e3"), None);
    assert_eq!(parse_amount(" 1"), None);
}

#[test]
fn test_parse_amount_range() {
    // 92233720368547758.07 units are exactly i64::MAX cents.
    assert_eq!(parse_amount("92233720368547758.07"), Some(i64::MAX));
    assert_eq!(parse_amount("-92233720368547758.07"), Some(-i64::MAX));
    assert_eq!(parse_amount("92233720368547758.08"), None);
    assert_eq!(parse_amount("99999999999999999999"), None);
}

#[test]
fn test_parse_failure_leaves_ledger_unchanged() {
    let mut tracker = FinanceTracker::new();
    if let Some(cents) = parse_amount("abc") {
        tracker.add_transaction(
            String::from("never recorded"),
            cents,
            false,
            String::from("2024-01-01"),
            TransactionKind::Expense,
            String::from("Misc"),
        );
    }
    assert!(tracker.get_transactions().is_empty());
}

#[test]
fn test_transaction_type_from_str() {
    assert_eq!(TransactionKind::from("income"), TransactionKind::Income);
    assert_eq!(TransactionKind::from("INCOME"), TransactionKind::Income);
    assert_eq!(TransactionKind::from("expense"), TransactionKind::Expense);
    assert_eq!(TransactionKind::from("EXPENSE"), TransactionKind::Expense);
}

#[test]
fn test_kind_mixed_case_and_fallback() {
    assert_eq!(TransactionKind::from("Income"), TransactionKind::Income);
    assert_eq!(TransactionKind::from_text("iNcOmE"), TransactionKind::Income);
    assert_eq!(TransactionKind::from_text("Expense"), TransactionKind::Expense);
    assert_eq!(TransactionKind::from_text(""), TransactionKind::Expense);
    assert_eq!(TransactionKind::from_text("banana"), TransactionKind::Expense);
    assert_eq!(TransactionKind::from_text("incomes"), TransactionKind::Expense);
}

#[test]
fn test_kind_as_text() {
    assert_eq!(TransactionKind::Income.as_text(), "Income");
    assert_eq!(TransactionKind::Expense.as_text(), "Expense");
}

#[test]
fn test_parse_bool_variants() {
    assert!(parse_bool("yes"));
    assert!(parse_bool("YES"));
    assert!(parse_bool("Yes"));
    assert!(parse_bool("y"));
    assert!(parse_bool("Y"));
    assert!(!parse_bool("no"));
    assert!(!parse_bool(""));
    assert!(!parse_bool("yess"));
    assert!(!parse_bool("maybe"));
}
