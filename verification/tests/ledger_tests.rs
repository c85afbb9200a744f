use finance_tracker::kind::TransactionKind;
use finance_tracker::ledger::FinanceTracker;

fn create_test_tracker() -> FinanceTracker {
    let mut tracker = FinanceTracker::new();

    tracker.add_transaction(
        String::from("Salary"),
        500000,
        true,
        String::from("2025-01-04"),
        TransactionKind::Income,
        String::from("Work"),
    );

    tracker.add_transaction(
        String::from("Freelance"),
        150000,
        false,
        String::from("2024-01-20"),
        TransactionKind::Income,
        String::from("Work"),
    );

    tracker.add_transaction(
        String::from("Rent"),
        200000,
        true,
        String::from("2024-01-01"),
        TransactionKind::Expense,
        String::from("Housing"),
    );

    tracker.add_transaction(
        String::from("Groceries"),
        50000,
        false,
        String::from("2024-01-10"),
        TransactionKind::Expense,
        String::from("Food"),
    );

    tracker
}

fn breakdown_lookup(tracker: &FinanceTracker, category: &str) -> Option<i64> {
    for (name, total) in tracker.category_breakdown().iter() {
        if name == category {
            return Some(*total);
        }
    }
    None
}

#[test]
fn test_total_income() {
    let tracker = create_test_tracker();
    assert_eq!(tracker.total_income(), 650000);
}

#[test]
fn test_total_expense() {
    let tracker = create_test_tracker();
    assert_eq!(tracker.total_expense(), 250000)
}

#[test]
fn test_net_balance() {
    let tracker = create_test_tracker();
    assert_eq!(tracker.net_balance(), 400000);
}

#[test]
fn test_average_transaction() {
    let tracker = create_test_tracker();
    assert_eq!(tracker.average_transaction(), 225000);
}

#[test]
fn test_average_empty() {
    let tracker = FinanceTracker::new();
    assert_eq!(tracker.average_transaction(), 0)
}

#[test]
fn test_category_totals() {
    let tracker = create_test_tracker();

    assert_eq!(breakdown_lookup(&tracker, "Work"), Some(650000));
    assert_eq!(breakdown_lookup(&tracker, "Housing"), Some(200000));
    assert_eq!(breakdown_lookup(&tracker, "Food"), Some(50000));
}

#[test]
fn test_breakdown_has_no_other_category() {
    let tracker = create_test_tracker();
    assert_eq!(tracker.category_breakdown().len(), 3);
    assert_eq!(breakdown_lookup(&tracker, "Travel"), None);
}

#[test]
fn test_breakdown_first_insertion_order() {
    let tracker = create_test_tracker();
    let names: Vec<&str> =
        tracker.category_breakdown().iter().map(|(name, _)| name.as_str()).collect();
    assert_eq!(names, vec!["Work", "Housing", "Food"]);
}

#[test]
fn test_breakdown_sums_both_kinds() {
    let mut tracker = FinanceTracker::new();
    tracker.add_transaction(
        String::from("Gift received"),
        1000,
        false,
        String::from("2024-02-01"),
        TransactionKind::Income,
        String::from("Gifts"),
    );
    tracker.add_transaction(
        String::from("Gift given"),
        250,
        false,
        String::from("2024-02-14"),
        TransactionKind::Expense,
        String::from("Gifts"),
    );
    // Expenses are not negated: the per-category total is the plain sum.
    assert_eq!(breakdown_lookup(&tracker, "Gifts"), Some(1250));
    assert_eq!(tracker.category_breakdown().len(), 1);
}

#[test]
fn test_partition_of_amounts() {
    let tracker = create_test_tracker();
    let whole: i64 = tracker.get_transactions().iter().map(|t| t.amount_cents).sum();
    assert_eq!(tracker.total_income() + tracker.total_expense(), whole);
}

#[test]
fn test_balance_matches_totals() {
    let tracker = create_test_tracker();
    assert_eq!(tracker.net_balance(), tracker.total_income() - tracker.total_expense());
}

#[test]
fn test_ids_are_insertion_ranks() {
    let tracker = create_test_tracker();
    let ids: Vec<u32> = tracker.get_transactions().iter().map(|t| t.id).collect();
    assert_eq!(ids, vec![1, 2, 3, 4]);
}

#[test]
fn test_transaction_fields_are_kept() {
    let tracker = create_test_tracker();
    let all = tracker.get_transactions();
    assert_eq!(all.len(), 4);
    let rent = &all[2];
    assert_eq!(rent.description, "Rent");
    assert_eq!(rent.amount_cents, 200000);
    assert!(rent.is_recurring);
    assert_eq!(rent.date, "2024-01-01");
    assert_eq!(rent.kind, TransactionKind::Expense);
    assert_eq!(rent.category, "Housing");
    assert!(!all[3].is_recurring);
}

#[test]
fn test_empty_ledger() {
    let tracker = FinanceTracker::new();
    assert_eq!(tracker.total_income(), 0);
    assert_eq!(tracker.total_expense(), 0);
    assert_eq!(tracker.net_balance(), 0);
    assert!(tracker.get_transactions().is_empty());
    assert!(tracker.category_breakdown().is_empty());
}

#[test]
fn test_average_truncates_toward_zero() {
    let mut tracker = FinanceTracker::new();
    tracker.add_transaction(
        String::from("a"),
        1,
        false,
        String::from("2024-01-01"),
        TransactionKind::Income,
        String::from("Misc"),
    );
    tracker.add_transaction(
        String::from("b"),
        2,
        false,
        String::from("2024-01-02"),
        TransactionKind::Income,
        String::from("Misc"),
    );
    assert_eq!(tracker.average_transaction(), 1);

    let mut negative = FinanceTracker::new();
    negative.add_transaction(
        String::from("a"),
        -1,
        false,
        String::from("2024-01-01"),
        TransactionKind::Expense,
        String::from("Misc"),
    );
    negative.add_transaction(
        String::from("b"),
        -2,
        false,
        String::from("2024-01-02"),
        TransactionKind::Expense,
        String::from("Misc"),
    );
    assert_eq!(negative.average_transaction(), -1);
}

#[test]
fn test_negative_amount_accepted_as_is() {
    let mut tracker = FinanceTracker::new();
    tracker.add_transaction(
        String::from("Refund booked backwards"),
        -500,
        false,
        String::from("2024-03-01"),
        TransactionKind::Income,
        String::from("Misc"),
    );
    assert_eq!(tracker.total_income(), -500);
    assert_eq!(tracker.net_balance(), -500);
    assert_eq!(breakdown_lookup(&tracker, "Misc"), Some(-500));
}

#[test]
fn test_try_add_reports_success() {
    let mut tracker = FinanceTracker::new();
    let ok = tracker.try_add_transaction(
        String::from("Salary"),
        500000,
        true,
        String::from("2025-01-04"),
        TransactionKind::Income,
        String::from("Work"),
    );
    assert!(ok);
    assert_eq!(tracker.get_transactions().len(), 1);
}

#[test]
fn test_try_add_rejects_amount_overflow() {
    let mut tracker = FinanceTracker::new();
    assert!(tracker.try_add_transaction(
        String::from("Everything"),
        i64::MAX,
        false,
        String::from("2024-01-01"),
        TransactionKind::Income,
        String::from("Misc"),
    ));
    let ok = tracker.try_add_transaction(
        String::from("One cent too many"),
        1,
        false,
        String::from("2024-01-02"),
        TransactionKind::Income,
        String::from("Misc"),
    );
    assert!(!ok);
    assert_eq!(tracker.get_transactions().len(), 1);
    assert_eq!(tracker.total_income(), i64::MAX);

    let rejected = tracker.try_add_transaction(
        String::from("Most negative"),
        i64::MIN,
        false,
        String::from("2024-01-03"),
        TransactionKind::Expense,
        String::from("Misc"),
    );
    assert!(!rejected);
    assert_eq!(tracker.get_transactions().len(), 1);
}
