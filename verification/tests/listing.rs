use fahrtenbuch::listing::{descending_order, list_expenses, list_trips, users_linked};
use fahrtenbuch::records::{ExpenseEntry, TripEntry};

fn trip(id: i64, start: i64, end: i64) -> TripEntry {
    TripEntry { id, created_at: 10 * id, start, end, description: Some(format!("trip {}", id)) }
}

fn expense(id: i64, created_at: i64, amount: i64) -> ExpenseEntry {
    ExpenseEntry { id, created_at, amount, description: None }
}

#[test]
fn order_goes_from_the_greatest_key_down() {
    assert_eq!(descending_order(&vec![5, 9, 1]), vec![1, 0, 2]);
    assert_eq!(descending_order(&vec![]), Vec::<usize>::new());
    assert_eq!(descending_order(&vec![7]), vec![0]);
}

#[test]
fn equal_keys_keep_their_order() {
    assert_eq!(descending_order(&vec![3, 8, 3, 8, 3]), vec![1, 3, 0, 2, 4]);
    assert_eq!(descending_order(&vec![i128::MIN, i128::MAX, 0]), vec![1, 2, 0]);
}

#[test]
fn links_give_a_record_its_users() {
    let links = vec![(1, 7), (2, 5), (1, 3), (1, 7)];
    assert_eq!(users_linked(&links, 1).to_vec(), vec![3, 7]);
    assert_eq!(users_linked(&links, 2).to_vec(), vec![5]);
    assert!(users_linked(&links, 3).is_empty());
}

#[test]
fn trips_are_listed_with_their_users_the_last_first() {
    let entries = vec![trip(1, 0, 150), trip(3, 200, 260), trip(2, 150, 200)];
    let links = vec![(1, 4), (2, 4), (2, 9), (3, 9), (8, 1)];
    let trips = list_trips(&entries, &links);
    assert_eq!(trips.iter().map(|t| t.id).collect::<Vec<_>>(), vec![3, 2, 1]);
    assert_eq!(trips[0].users.to_vec(), vec![9]);
    assert_eq!(trips[1].users.to_vec(), vec![4, 9]);
    assert_eq!(trips[2].users.to_vec(), vec![4]);
    assert_eq!((trips[1].start, trips[1].end), (150, 200));
    assert_eq!(trips[1].created_at, 20);
    assert_eq!(trips[1].description, Some("trip 2".to_string()));
    assert_eq!(trips[1].price, 0);
}

#[test]
fn expenses_are_listed_with_their_users_the_latest_first() {
    let entries = vec![expense(1, 100, 30), expense(2, 300, 20), expense(3, 200, 10)];
    let links = vec![(3, 1), (1, 2), (1, 1)];
    let expenses = list_expenses(&entries, &links);
    assert_eq!(expenses.iter().map(|e| e.id).collect::<Vec<_>>(), vec![2, 3, 1]);
    assert_eq!(expenses.iter().map(|e| e.amount).collect::<Vec<_>>(), vec![20, 10, 30]);
    assert!(expenses[0].users.is_empty());
    assert_eq!(expenses[1].users.to_vec(), vec![1]);
    assert_eq!(expenses[2].users.to_vec(), vec![1, 2]);
}

#[test]
fn a_second_record_of_one_identifier_gets_no_users() {
    let entries = vec![expense(1, 100, 30), expense(1, 50, 20)];
    let links = vec![(1, 2)];
    let expenses = list_expenses(&entries, &links);
    assert_eq!(expenses[0].users.to_vec(), vec![2]);
    assert!(expenses[1].users.is_empty());
}
