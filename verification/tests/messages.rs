use fahrtenbuch::add_expense::{ExpenseData, ExpenseError};
use fahrtenbuch::add_trip::{Neighbor, ValidationError};
use fahrtenbuch::records::{Expense, Trip};
use fahrtenbuch::summary::{check_summary_inputs, PreconditionError};
use fahrtenbuch::text::{write_decimal, write_signed_decimal};
use fahrtenbuch::users::UserSet;

#[test]
fn numbers_are_written_in_decimal() {
    assert_eq!(write_decimal(0), "0");
    assert_eq!(write_decimal(7), "7");
    assert_eq!(write_decimal(10), "10");
    assert_eq!(write_decimal(1234567890), "1234567890");
    assert_eq!(write_decimal(u64::MAX), "18446744073709551615");
    assert_eq!(write_signed_decimal(0), "0");
    assert_eq!(write_signed_decimal(-1), "-1");
    assert_eq!(write_signed_decimal(i64::MIN), "-9223372036854775808");
    assert_eq!(write_signed_decimal(i64::MAX), "9223372036854775807");
}

#[test]
fn trip_errors_name_the_readings() {
    assert_eq!(
        ValidationError::EmptyUserSet.message(),
        "A trip must have at least one user associated with it"
    );
    assert_eq!(
        ValidationError::InvalidInterval { start: 20, end: 10 }.message(),
        "The start 20 must be before the end 10"
    );
    assert_eq!(
        ValidationError::DisconnectedStart { start: 100 }.message(),
        "The start value 100 is not connected to any end value"
    );
    assert_eq!(
        ValidationError::OverlappingInterval { start: 150 }.message(),
        "The start value 150 is conflicting with another trip"
    );
    assert_eq!(
        ValidationError::NeighborWouldBecomeInvalid {
            neighbor: Neighbor::Before,
            neighbor_start: 100,
            neighbor_end: 90,
        }
        .message(),
        "The trip before the current trip would become invalid: start = 100 end = 90"
    );
    assert_eq!(
        ValidationError::NeighborWouldBecomeInvalid {
            neighbor: Neighbor::After,
            neighbor_start: 300,
            neighbor_end: -5,
        }
        .message(),
        "The trip after the current trip would become invalid: start = 300 end = -5"
    );
}

fn new_expense(amount: u64, users: Vec<i64>) -> ExpenseData {
    ExpenseData { amount, description: None, users: UserSet::from_vec(users) }
}

#[test]
fn new_expense_needs_users_and_an_amount() {
    assert_eq!(new_expense(10, vec![1]).check(), Ok(()));
    assert_eq!(new_expense(10, vec![]).check(), Err(ExpenseError::EmptyUserSet));
    assert_eq!(new_expense(0, vec![]).check(), Err(ExpenseError::EmptyUserSet));
    assert_eq!(new_expense(0, vec![1]).check(), Err(ExpenseError::AmountNotPositive));
    assert_eq!(ExpenseError::EmptyUserSet.message(), "No users provided");
    assert_eq!(
        ExpenseError::AmountNotPositive.message(),
        "The amount must be greater than 0"
    );
}

fn edit(amount: Option<u64>, users: Vec<i64>) -> fahrtenbuch::update_expense::ExpenseData {
    fahrtenbuch::update_expense::ExpenseData {
        id: 1,
        amount,
        description: None,
        users: UserSet::from_vec(users),
    }
}

#[test]
fn edited_expense_needs_an_amount_above_zero() {
    assert_eq!(edit(None, vec![]).check(), Ok(()));
    assert_eq!(edit(Some(5), vec![]).check(), Ok(()));
    assert_eq!(edit(Some(0), vec![1]).check(), Err(ExpenseError::AmountNotPositive));
    assert!(edit(None, vec![1]).replaces_users());
    assert!(!edit(None, vec![]).replaces_users());
}

fn trip(start: u64, end: u64) -> Trip {
    Trip {
        id: 1,
        created_at: 0,
        start,
        end,
        description: None,
        users: UserSet::from_vec(vec![1]),
        price: 0,
    }
}

fn expense(amount: i64, users: Vec<i64>) -> Expense {
    Expense { id: 1, created_at: 0, amount, description: None, users: UserSet::from_vec(users) }
}

#[test]
fn unsound_records_are_not_summed_up() {
    let roster = UserSet::from_vec(vec![1]);
    let nobody = UserSet::new();
    assert_eq!(check_summary_inputs(&vec![], &vec![], &roster), Ok(()));
    assert_eq!(
        check_summary_inputs(&vec![trip(0, 5)], &vec![expense(3, vec![2])], &roster),
        Ok(())
    );
    assert_eq!(
        check_summary_inputs(&vec![trip(5, 0)], &vec![expense(-3, vec![])], &nobody),
        Err(PreconditionError::EmptyRoster)
    );
    assert_eq!(
        check_summary_inputs(&vec![trip(0, 5), trip(5, 0)], &vec![expense(-3, vec![])], &roster),
        Err(PreconditionError::TripEndsBeforeStart)
    );
    assert_eq!(
        check_summary_inputs(&vec![trip(0, u64::MAX), trip(0, 1)], &vec![], &roster),
        Err(PreconditionError::DistanceTooLarge)
    );
    assert_eq!(
        check_summary_inputs(&vec![], &vec![expense(1, vec![]), expense(-3, vec![1])], &roster),
        Err(PreconditionError::NegativeAmount)
    );
    assert_eq!(
        check_summary_inputs(&vec![], &vec![expense(1, vec![1]), expense(3, vec![])], &roster),
        Err(PreconditionError::ExpenseWithoutUsers)
    );
    assert_eq!(
        check_summary_inputs(
            &vec![],
            &vec![expense(i64::MAX, vec![1]), expense(1, vec![1])],
            &roster
        ),
        Err(PreconditionError::AmountTooLarge)
    );
    assert_eq!(
        check_summary_inputs(&vec![trip(0, u64::MAX)], &vec![expense(i64::MAX, vec![1])], &roster),
        Ok(())
    );
}
