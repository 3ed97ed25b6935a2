use fahrtenbuch::add_trip::TripValidationConfig;
use fahrtenbuch::balances::Balances;
use fahrtenbuch::records::{share_for, Expense, Trip};
use fahrtenbuch::summary::{
    amount_prepaid, distance_driven, driven_weights, participants, sum_of, total_expenses,
};
use fahrtenbuch::username::Username;
use fahrtenbuch::users::UserSet;

fn trip(start: u64, end: u64, users: Vec<i64>) -> Trip {
    Trip {
        id: 1,
        created_at: 0,
        start,
        end,
        description: None,
        users: UserSet::from_vec(users),
        price: 0,
    }
}

fn expense(amount: i64, users: Vec<i64>) -> Expense {
    Expense { id: 1, created_at: 0, amount, description: None, users: UserSet::from_vec(users) }
}

#[test]
fn share_goes_by_the_place_among_the_users() {
    let users = UserSet::from_vec(vec![30, 10, 20]);
    assert_eq!(share_for(100, &users, 10), 34);
    assert_eq!(share_for(100, &users, 20), 33);
    assert_eq!(share_for(100, &users, 30), 33);
    assert_eq!(share_for(100, &users, 40), 0);
    assert_eq!(share_for(100, &UserSet::new(), 10), 0);
    assert_eq!(share_for(u64::MAX, &UserSet::from_vec(vec![1]), 1), u64::MAX);
}

#[test]
fn shares_of_all_users_sum_to_the_value() {
    let users = UserSet::from_vec(vec![4, 8, 15, 16, 23, 42]);
    for value in [0u64, 5, 6, 7, 1000, 1001] {
        let sum: u64 = users.to_vec().iter().map(|u| share_for(value, &users, *u)).sum();
        assert_eq!(sum, value);
    }
}

#[test]
fn distances_and_amounts_are_summed_per_user() {
    let trips = vec![trip(0, 10, vec![1, 2]), trip(10, 25, vec![2, 3]), trip(25, 26, vec![1])];
    assert_eq!(distance_driven(&trips, 1), 6);
    assert_eq!(distance_driven(&trips, 2), 13);
    assert_eq!(distance_driven(&trips, 3), 7);
    assert_eq!(distance_driven(&trips, 4), 0);
    let roster = UserSet::from_vec(vec![3, 2, 1, 4]);
    let weights = driven_weights(&trips, &roster);
    assert_eq!(weights, vec![6, 13, 7, 0]);
    assert_eq!(sum_of(&weights), 26);

    let expenses = vec![expense(10, vec![1]), expense(5, vec![1, 2])];
    assert_eq!(total_expenses(&expenses), 15);
    assert_eq!(amount_prepaid(&expenses, 1), 13);
    assert_eq!(amount_prepaid(&expenses, 2), 2);
    assert_eq!(amount_prepaid(&expenses, 3), 0);
}

#[test]
fn roster_and_payers_take_part() {
    let expenses = vec![expense(10, vec![9, 2]), expense(5, vec![7])];
    let roster = UserSet::from_vec(vec![2, 1]);
    assert_eq!(participants(&expenses, &roster).to_vec(), vec![1, 2, 7, 9]);
    assert_eq!(participants(&vec![], &roster).to_vec(), vec![1, 2]);
}

#[test]
fn balances_start_at_zero_and_take_amounts() {
    let mut balances = Balances::zeroed(UserSet::from_vec(vec![2, 1]));
    assert_eq!(balances.to_pairs(), vec![(1, 0), (2, 0)]);
    balances.put(2, -4);
    balances.put(1, 4);
    assert_eq!(balances.to_pairs(), vec![(1, 4), (2, -4)]);
    assert_eq!(balances.get(1), Some(4));
}

#[test]
fn default_configuration_makes_every_check() {
    let config = TripValidationConfig::default();
    assert!(!config.disable_start_check);
    assert!(!config.ignore_gaps);
    assert_eq!(config.ignore_id, None);
}

#[test]
fn stored_names_are_taken_as_they_are() {
    let name = Username::stored(" Anna ".to_string());
    assert_eq!(name.as_str(), " Anna ");
    assert_eq!(name.display(), " anna ");
}
