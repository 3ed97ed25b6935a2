use fahrtenbuch::records::{Expense, Trip};
use fahrtenbuch::settlement::{DebtorPayments, Transfer};
use fahrtenbuch::summary::{charge_roster, summary};
use fahrtenbuch::users::UserSet;

fn trip(id: i64, start: u64, end: u64, users: Vec<i64>) -> Trip {
    Trip {
        id,
        created_at: 0,
        start,
        end,
        description: None,
        users: UserSet::from_vec(users),
        price: 0,
    }
}

fn expense(id: i64, amount: i64, users: Vec<i64>) -> Expense {
    Expense {
        id,
        created_at: 0,
        amount,
        description: None,
        users: UserSet::from_vec(users),
    }
}

#[test]
fn charges_follow_the_distance_and_the_rest_goes_to_the_greatest() {
    assert_eq!(charge_roster(100, vec![1, 1, 1]), vec![34, 33, 33]);
    assert_eq!(charge_roster(100, vec![1, 2, 2]), vec![20, 40, 40]);
    assert_eq!(charge_roster(10, vec![3, 4]), vec![4, 6]);
    assert_eq!(charge_roster(10, vec![0, 0]), vec![10, 0]);
    assert_eq!(charge_roster(7, vec![5]), vec![7]);
}

#[test]
fn summary_of_a_period() {
    let trips = vec![trip(1, 0, 100, vec![1, 2]), trip(2, 100, 150, vec![2])];
    let expenses = vec![expense(1, 90, vec![1]), expense(2, 61, vec![3, 2])];
    let roster = UserSet::from_vec(vec![3, 1, 2]);

    let result = summary(&trips, &expenses, &roster, 2);

    assert_eq!(result.distance, 100);
    assert_eq!(result.prepaid, 31);
    assert_eq!(result.total_amount, 151);
    assert_eq!(result.total_distance, 150);
    // charges: 151 * 50 / 150 = 50, 151 * 100 / 150 = 100, 0; the rest of 1 goes to user 2
    assert_eq!(result.balances.to_pairs(), vec![(1, 40), (2, -70), (3, 30)]);
    assert_eq!(
        result.payments,
        vec![DebtorPayments {
            debtor: 2,
            transfers: vec![Transfer { to: 1, amount: 40 }, Transfer { to: 3, amount: 30 }],
        }]
    );
    let sum: i64 = result.balances.to_pairs().iter().map(|(_, a)| *a).sum();
    assert_eq!(sum, 0);
}

#[test]
fn summary_without_trips_charges_the_first_user() {
    let trips: Vec<Trip> = vec![];
    let expenses = vec![expense(1, 30, vec![2])];
    let roster = UserSet::from_vec(vec![1, 2]);

    let result = summary(&trips, &expenses, &roster, 1);

    assert_eq!(result.distance, 0);
    assert_eq!(result.prepaid, 0);
    assert_eq!(result.total_amount, 30);
    assert_eq!(result.total_distance, 0);
    assert_eq!(result.balances.to_pairs(), vec![(1, -30), (2, 30)]);
    assert_eq!(
        result.payments,
        vec![DebtorPayments { debtor: 1, transfers: vec![Transfer { to: 2, amount: 30 }] }]
    );
}

#[test]
fn summary_gives_a_balance_to_a_payer_outside_the_roster() {
    let trips = vec![trip(1, 0, 10, vec![1])];
    let expenses = vec![expense(1, 20, vec![9])];
    let roster = UserSet::from_vec(vec![1]);

    let result = summary(&trips, &expenses, &roster, 9);

    assert_eq!(result.distance, 0);
    assert_eq!(result.prepaid, 20);
    assert_eq!(result.balances.to_pairs(), vec![(1, -20), (9, 20)]);
}

#[test]
fn summary_does_not_depend_on_the_order_of_the_users() {
    let roster_a = UserSet::from_vec(vec![1, 2, 3]);
    let roster_b = UserSet::from_vec(vec![3, 2, 1]);
    let a = summary(
        &vec![trip(1, 0, 10, vec![1, 2, 3])],
        &vec![expense(1, 100, vec![1, 2, 3])],
        &roster_a,
        1,
    );
    let b = summary(
        &vec![trip(1, 0, 10, vec![3, 1, 2])],
        &vec![expense(1, 100, vec![2, 3, 1])],
        &roster_b,
        1,
    );
    assert_eq!(a.balances.to_pairs(), b.balances.to_pairs());
    assert_eq!(a.payments, b.payments);
    assert_eq!(a.distance, 4);
    assert_eq!(a.prepaid, 34);
    // distances 4, 3, 3; charges 40, 30, 30; credits 34, 33, 33
    assert_eq!(a.balances.to_pairs(), vec![(1, -6), (2, 3), (3, 3)]);
}

#[test]
fn summary_of_the_greatest_values() {
    let trips = vec![trip(1, 0, u64::MAX, vec![1, 2])];
    let expenses = vec![expense(1, i64::MAX, vec![2])];
    let roster = UserSet::from_vec(vec![1, 2]);

    let result = summary(&trips, &expenses, &roster, 1);

    assert_eq!(result.total_distance, u64::MAX);
    assert_eq!(result.distance, u64::MAX / 2 + 1);
    assert_eq!(result.total_amount, i64::MAX as u64);
    let pairs = result.balances.to_pairs();
    assert_eq!(pairs.iter().map(|(_, a)| *a as i128).sum::<i128>(), 0);
    assert_eq!(pairs[0].1 + pairs[1].1, 0);
    assert!(pairs[0].1 < 0);
}
