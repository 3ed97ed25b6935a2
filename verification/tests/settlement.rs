use fahrtenbuch::balances::Balances;
use fahrtenbuch::settlement::{calculate_payments, DebtorPayments, Transfer};

fn balances_of(amounts: Vec<i64>) -> Balances {
    Balances::from_pairs(
        amounts
            .into_iter()
            .enumerate()
            .map(|(i, amount)| (i as i64, amount))
            .collect::<Vec<(i64, i64)>>(),
    )
}

fn entry(debtor: i64, transfers: Vec<(i64, i64)>) -> DebtorPayments {
    DebtorPayments {
        debtor,
        transfers: transfers
            .into_iter()
            .map(|(to, amount)| Transfer { to, amount })
            .collect(),
    }
}

#[test]
fn test_calculate_payments_two_negative() {
    let balances = balances_of(vec![-10, 5, 25, -20]);

    assert_eq!(
        vec![entry(0, vec![(1, 5), (2, 5)]), entry(3, vec![(2, 20)])],
        calculate_payments(&balances)
    );
}

#[test]
fn test_calculate_payments_one_negative() {
    let balances = balances_of(vec![-30, 5, 25]);

    assert_eq!(
        vec![entry(0, vec![(1, 5), (2, 25)])],
        calculate_payments(&balances)
    );
}

#[test]
fn test_calculate_payments_worst_case() {
    let balances = balances_of(vec![-1, -2, -3, -4, 10]);

    assert_eq!(
        vec![
            entry(0, vec![(4, 1)]),
            entry(1, vec![(4, 2)]),
            entry(2, vec![(4, 3)]),
            entry(3, vec![(4, 4)]),
        ],
        calculate_payments(&balances)
    );
}

#[test]
fn payments_of_each_debtor_sum_to_the_debt() {
    let amounts = vec![-7, 3, -5, 4, 0, 5];
    let payments = calculate_payments(&balances_of(amounts.clone()));
    assert_eq!(payments.len(), 2);
    for entry in &payments {
        let paid: i64 = entry.transfers.iter().map(|t| t.amount).sum();
        assert_eq!(paid, -amounts[entry.debtor as usize]);
        assert!(entry.transfers.iter().all(|t| t.amount > 0));
    }
    assert_eq!(
        payments,
        vec![entry(0, vec![(1, 3), (3, 4)]), entry(2, vec![(5, 5)])]
    );
}

#[test]
fn payments_do_not_depend_on_the_order_of_the_pairs() {
    let forward = Balances::from_pairs(vec![(1, -10), (2, 5), (3, 25), (4, -20)]);
    let backward = Balances::from_pairs(vec![(4, -20), (3, 25), (2, 5), (1, -10)]);
    assert_eq!(forward.to_pairs(), backward.to_pairs());
    assert_eq!(calculate_payments(&forward), calculate_payments(&backward));
    assert_eq!(
        calculate_payments(&forward),
        vec![entry(1, vec![(2, 5), (3, 5)]), entry(4, vec![(3, 20)])]
    );
}

#[test]
fn debt_beyond_all_credit_is_paid_as_far_as_credit_goes() {
    let payments = calculate_payments(&balances_of(vec![-10, 4]));
    assert_eq!(payments, vec![entry(0, vec![(1, 4)])]);
}

#[test]
fn debtor_without_creditors_gets_an_empty_entry() {
    let payments = calculate_payments(&balances_of(vec![-10, 0]));
    assert_eq!(payments, vec![entry(0, vec![])]);
}

#[test]
fn the_greatest_debt_is_settled_without_overflow() {
    let payments = calculate_payments(&balances_of(vec![i64::MIN, i64::MAX, 1]));
    assert_eq!(payments, vec![entry(0, vec![(1, i64::MAX), (2, 1)])]);
}

#[test]
fn balances_keep_the_last_amount_of_a_user() {
    let balances = Balances::from_pairs(vec![(2, 1), (1, 5), (2, -6)]);
    assert_eq!(balances.to_pairs(), vec![(1, 5), (2, -6)]);
    assert_eq!(balances.get(2), Some(-6));
    assert_eq!(balances.get(3), None);
    assert_eq!(balances.len(), 2);
    assert_eq!(balances.user(0), 1);
    assert_eq!(balances.amount(0), 5);
}
