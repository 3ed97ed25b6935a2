use fahrtenbuch::division::{divide_equally, divide_proportionally};
use fahrtenbuch::users::{sorted_vec, UserSet};

#[test]
fn equal_division_puts_the_remainder_first() {
    assert_eq!(divide_equally(10, 3), vec![4, 3, 3]);
    assert_eq!(divide_equally(11, 3), vec![5, 3, 3]);
    assert_eq!(divide_equally(9, 3), vec![3, 3, 3]);
}

#[test]
fn equal_division_by_one_is_the_amount() {
    assert_eq!(divide_equally(7, 1), vec![7]);
    assert_eq!(divide_equally(0, 1), vec![0]);
}

#[test]
fn equal_division_of_less_than_the_number_of_shares() {
    assert_eq!(divide_equally(2, 5), vec![2, 0, 0, 0, 0]);
}

#[test]
fn equal_division_sums_to_the_amount() {
    for amount in [0u64, 1, 99, 100, 101, u64::MAX] {
        for n in 1u64..8 {
            let shares = divide_equally(amount, n);
            assert_eq!(shares.len() as u64, n);
            let sum: u128 = shares.iter().map(|s| *s as u128).sum();
            assert_eq!(sum, amount as u128);
            assert_eq!(shares[0], amount / n + amount % n);
            assert!(shares[1..].iter().all(|s| *s == amount / n));
        }
    }
}

#[test]
fn proportional_division_rounds_down_and_returns_the_rest() {
    let mut weights = vec![1, 1, 1];
    let rest = divide_proportionally(100, &mut weights);
    assert_eq!(weights, vec![33, 33, 33]);
    assert_eq!(rest, 1);

    let mut weights = vec![10, 30, 60];
    let rest = divide_proportionally(1000, &mut weights);
    assert_eq!(weights, vec![100, 300, 600]);
    assert_eq!(rest, 0);

    let mut weights = vec![3, 4];
    let rest = divide_proportionally(10, &mut weights);
    assert_eq!(weights, vec![4, 5]);
    assert_eq!(rest, 1);
}

#[test]
fn proportional_division_without_weight_leaves_everything() {
    let mut weights = vec![0, 0];
    let rest = divide_proportionally(50, &mut weights);
    assert_eq!(weights, vec![0, 0]);
    assert_eq!(rest, 50);

    let mut none: Vec<u64> = vec![];
    assert_eq!(divide_proportionally(50, &mut none), 50);
    assert!(none.is_empty());
}

#[test]
fn proportional_division_of_the_greatest_values() {
    let mut weights = vec![u64::MAX, u64::MAX];
    let rest = divide_proportionally(u64::MAX, &mut weights);
    assert_eq!(weights, vec![u64::MAX / 2, u64::MAX / 2]);
    assert_eq!(rest, 1);
}

#[test]
fn sorted_vec_sorts_and_keeps_every_item() {
    assert_eq!(sorted_vec(vec![3, 1, 2, 1, -5]), vec![-5, 1, 1, 2, 3]);
    assert_eq!(sorted_vec(vec![]), Vec::<i64>::new());
    assert_eq!(sorted_vec(vec![i64::MAX, i64::MIN]), vec![i64::MIN, i64::MAX]);
}

#[test]
fn user_set_is_ascending_without_repeats() {
    let users = UserSet::from_vec(vec![5, 3, 5, 1, 3]);
    assert_eq!(users.to_vec(), vec![1, 3, 5]);
    assert_eq!(users.len(), 3);
    assert!(!users.is_empty());
    assert!(users.contains(3));
    assert!(!users.contains(4));
    assert_eq!(users.position(5), Some(2));
    assert_eq!(users.position(2), None);
    assert_eq!(users.get(0), 1);
    assert!(UserSet::new().is_empty());
}

#[test]
fn user_set_does_not_depend_on_the_order_given() {
    let a = UserSet::from_vec(vec![9, 4, 7]);
    let b = UserSet::from_vec(vec![7, 9, 4, 4]);
    assert_eq!(a.to_vec(), b.to_vec());
    assert_eq!(a.clone().to_vec(), vec![4, 7, 9]);
}
