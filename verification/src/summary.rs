//! The summary of a period: what one user drove and paid, what all users
//! drove and paid, the balance of each user and the payments that settle
//! the balances.
//!
//! The expenses of the period are charged to the users in proportion to the
//! distance each of them drove. What rounding leaves over is charged to the
//! user with the greatest charge. Each expense is then credited in equal
//! shares to the users who paid it in advance. So the balances sum to zero.

use vstd::prelude::*;
use crate::balances::{lemma_net_update, net, Balances};
use crate::division::{
    divide_equally,
    divide_proportionally,
    equal_shares,
    lemma_entry_le_total,
    lemma_equal_share_bounds,
    lemma_proportional_shares_total,
    lemma_total_take,
    lemma_total_update,
    proportional_shares,
    total,
};
use crate::records::{lemma_share_at, lemma_share_bounds, share_of, Expense, Trip};
use crate::settlement::{calculate_payments, ledger, settlement, DebtorPayments};
use crate::users::{ascending, UserSet};

verus! {

/// The distance that `user` drove on `trips`: the sum of the user's shares.
pub open spec fn driven_by(trips: Seq<Trip>, user: i64) -> int
    decreases trips.len(),
{
    if trips.len() == 0 {
        0
    } else {
        driven_by(trips.drop_last(), user) + share_of(
            (trips.last().end - trips.last().start) as u64,
            trips.last().users@,
            user,
        )
    }
}

/// The sum of the distances of `trips`.
pub open spec fn distance_total(trips: Seq<Trip>) -> int
    decreases trips.len(),
{
    if trips.len() == 0 {
        0
    } else {
        distance_total(trips.drop_last()) + (trips.last().end - trips.last().start)
    }
}

/// The distance that the first `k` users of `roster` drove together.
pub open spec fn driven_total(trips: Seq<Trip>, roster: Seq<i64>, k: int) -> int
    decreases k,
{
    if k <= 0 {
        0
    } else {
        driven_total(trips, roster, k - 1) + driven_by(trips, roster[k - 1])
    }
}

/// What `user` paid in advance on `expenses`: the sum of the user's shares.
pub open spec fn prepaid_by(expenses: Seq<Expense>, user: i64) -> int
    decreases expenses.len(),
{
    if expenses.len() == 0 {
        0
    } else {
        prepaid_by(expenses.drop_last(), user) + share_of(
            expenses.last().value(),
            expenses.last().users@,
            user,
        )
    }
}

/// The sum of the amounts of `expenses`.
pub open spec fn amount_total(expenses: Seq<Expense>) -> int
    decreases expenses.len(),
{
    if expenses.len() == 0 {
        0
    } else {
        amount_total(expenses.drop_last()) + expenses.last().amount
    }
}

/// Every trip ends at or after its start.
pub open spec fn trips_sound(trips: Seq<Trip>) -> bool {
    forall|i: int| 0 <= i < trips.len() ==> (#[trigger] trips[i]).start <= trips[i].end
}

/// Every expense has an amount that is not below zero and at least one user
/// who paid it.
pub open spec fn expenses_sound(expenses: Seq<Expense>) -> bool {
    forall|i: int|
        0 <= i < expenses.len() ==> (#[trigger] expenses[i]).amount >= 0
            && expenses[i].users@.len() >= 1
}

/// The place of the greatest entry, the first of them where several are as
/// great; zero for the empty sequence.
pub open spec fn first_max(s: Seq<u64>) -> int
    decreases s.len(),
{
    if s.len() <= 1 {
        0
    } else {
        let best = first_max(s.drop_last());
        if s.last() > s[best] {
            s.len() - 1
        } else {
            best
        }
    }
}

/// `first_max` is the place of an entry that no entry exceeds and no earlier
/// entry equals.
pub proof fn lemma_first_max(s: Seq<u64>)
    requires
        s.len() >= 1,
    ensures
        0 <= first_max(s) < s.len(),
        forall|j: int| 0 <= j < s.len() ==> #[trigger] s[j] <= s[first_max(s)],
        forall|j: int| 0 <= j < first_max(s) ==> #[trigger] s[j] < s[first_max(s)],
    decreases s.len(),
{
    if s.len() > 1 {
        lemma_first_max(s.drop_last());
        let best = first_max(s.drop_last());
        assert forall|j: int| 0 <= j < s.len() implies #[trigger] s[j] <= s[first_max(s)] by {
            if j < s.len() - 1 {
                assert(s.drop_last()[j] <= s.drop_last()[best]);
            }
        }
        assert forall|j: int| 0 <= j < first_max(s) implies #[trigger] s[j] < s[first_max(s)] by {
            if j < s.len() - 1 {
                assert(s.drop_last()[j] <= s.drop_last()[best]);
            }
        }
    }
}

/// What each user of the roster is charged: the user's proportional share
/// of `amount` by `weights`, and for the user with the greatest share, the
/// first of them, the rest that rounding left.
pub open spec fn charges(amount: u64, weights: Seq<u64>) -> Seq<u64> {
    let shares = proportional_shares(amount, weights);
    if shares.len() == 0 {
        shares
    } else {
        shares.update(
            first_max(shares),
            (shares[first_max(shares)] + amount - total(shares)) as u64,
        )
    }
}

/// The charges to a roster with at least one user sum to the amount.
pub proof fn lemma_charges_total(amount: u64, weights: Seq<u64>)
    requires
        weights.len() >= 1,
    ensures
        charges(amount, weights).len() == weights.len(),
        total(charges(amount, weights)) == amount,
        forall|i: int| 0 <= i < weights.len() ==> #[trigger] charges(amount, weights)[i] <= amount,
{
    let shares = proportional_shares(amount, weights);
    let best = first_max(shares);
    lemma_first_max(shares);
    lemma_proportional_shares_total(amount, weights, weights.len() as int);
    assert(shares.take(weights.len() as int) =~= shares);
    lemma_entry_le_total(shares, best);
    let raised = (shares[best] + amount - total(shares)) as u64;
    lemma_total_update(shares, best, raised);
    assert forall|i: int| 0 <= i < weights.len() implies #[trigger] charges(amount, weights)[i]
        <= amount by {
        lemma_entry_le_total(charges(amount, weights), i);
    }
}

/// The distances that the users of the roster drove, in the order of the
/// roster.
pub open spec fn cost_weights(trips: Seq<Trip>, roster: Seq<i64>) -> Seq<u64> {
    Seq::new(roster.len(), |i: int| driven_by(trips, roster[i]) as u64)
}

/// What `user` is charged for the expenses: the charge at the user's place in
/// the roster, nothing for a user outside the roster.
pub open spec fn charge_of(
    trips: Seq<Trip>,
    expenses: Seq<Expense>,
    roster: Seq<i64>,
    user: i64,
) -> int {
    if roster.contains(user) {
        charges(amount_total(expenses) as u64, cost_weights(trips, roster))[roster.index_of(
            user,
        )] as int
    } else {
        0
    }
}

/// The balance of `user`: what the user paid in advance less what the user
/// is charged.
pub open spec fn balance(
    trips: Seq<Trip>,
    expenses: Seq<Expense>,
    roster: Seq<i64>,
    user: i64,
) -> int {
    prepaid_by(expenses, user) - charge_of(trips, expenses, roster, user)
}

/// `user` is in the roster or paid one of the expenses in advance.
pub open spec fn takes_part(expenses: Seq<Expense>, roster: Seq<i64>, user: i64) -> bool {
    roster.contains(user) || exists|i: int|
        0 <= i < expenses.len() && (#[trigger] expenses[i]).users@.contains(user)
}

/// A user drives no more than all trips together, and no less than nothing.
pub proof fn lemma_driven_bounds(trips: Seq<Trip>, user: i64)
    requires
        trips_sound(trips),
    ensures
        0 <= driven_by(trips, user) <= distance_total(trips),
    decreases trips.len(),
{
    if trips.len() > 0 {
        assert(trips_sound(trips.drop_last())) by {
            assert forall|i: int| 0 <= i < trips.drop_last().len() implies (
            #[trigger] trips.drop_last()[i]).start <= trips.drop_last()[i].end by {
                assert(trips[i].start <= trips[i].end);
            }
        }
        lemma_driven_bounds(trips.drop_last(), user);
        let last = trips.last();
        assert(last.start <= last.end);
        lemma_share_bounds((last.end - last.start) as u64, last.users@, user);
    }
}

/// The trips of a prefix are sound, and their distances sum to no more than
/// those of all trips.
pub proof fn lemma_trips_prefix(trips: Seq<Trip>, k: int)
    requires
        trips_sound(trips),
        0 <= k <= trips.len(),
    ensures
        trips_sound(trips.take(k)),
        0 <= distance_total(trips.take(k)) <= distance_total(trips),
        k < trips.len() ==> distance_total(trips.take(k + 1)) == distance_total(trips.take(k))
            + (trips[k].end - trips[k].start),
    decreases trips.len() - k,
{
    assert forall|i: int| 0 <= i < trips.take(k).len() implies (#[trigger] trips.take(k)[i]).start
        <= trips.take(k)[i].end by {
        assert(trips[i].start <= trips[i].end);
    }
    lemma_driven_bounds(trips.take(k), 0);
    if k == trips.len() {
        assert(trips.take(k) =~= trips);
    } else {
        lemma_trips_prefix(trips, k + 1);
        assert(trips.take(k + 1).drop_last() =~= trips.take(k));
        assert(trips[k].start <= trips[k].end);
    }
}

/// A user paid no more in advance than all expenses together.
pub proof fn lemma_prepaid_bounds(expenses: Seq<Expense>, user: i64)
    requires
        expenses_sound(expenses),
    ensures
        0 <= prepaid_by(expenses, user) <= amount_total(expenses),
    decreases expenses.len(),
{
    if expenses.len() > 0 {
        assert(expenses_sound(expenses.drop_last())) by {
            assert forall|i: int| 0 <= i < expenses.drop_last().len() implies (
            #[trigger] expenses.drop_last()[i]).amount >= 0 && expenses.drop_last()[i].users@.len()
                >= 1 by {
                assert(expenses[i].amount >= 0);
            }
        }
        lemma_prepaid_bounds(expenses.drop_last(), user);
        let last = expenses.last();
        assert(last.amount >= 0);
        lemma_share_bounds(last.value(), last.users@, user);
    }
}

/// The expenses of a prefix are sound, and their amounts sum to no more than
/// those of all expenses.
pub proof fn lemma_expenses_prefix(expenses: Seq<Expense>, k: int)
    requires
        expenses_sound(expenses),
        0 <= k <= expenses.len(),
    ensures
        expenses_sound(expenses.take(k)),
        0 <= amount_total(expenses.take(k)) <= amount_total(expenses),
        k < expenses.len() ==> amount_total(expenses.take(k + 1)) == amount_total(
            expenses.take(k),
        ) + expenses[k].amount,
    decreases expenses.len() - k,
{
    assert forall|i: int| 0 <= i < expenses.take(k).len() implies (
    #[trigger] expenses.take(k)[i]).amount >= 0 && expenses.take(k)[i].users@.len() >= 1 by {
        assert(expenses[i].amount >= 0);
    }
    lemma_prepaid_bounds(expenses.take(k), 0);
    if k == expenses.len() {
        assert(expenses.take(k) =~= expenses);
    } else {
        lemma_expenses_prefix(expenses, k + 1);
        assert(expenses.take(k + 1).drop_last() =~= expenses.take(k));
        assert(expenses[k].amount >= 0);
    }
}

/// The distance that `user` drove on `trips`.
pub fn distance_driven(trips: &Vec<Trip>, user: i64) -> (distance: u64)
    requires
        trips_sound(trips@),
        distance_total(trips@) <= u64::MAX,
    ensures
        distance == driven_by(trips@, user),
{
    let mut distance: u64 = 0;
    let mut i: usize = 0;
    while i < trips.len()
        invariant
            i <= trips@.len(),
            trips_sound(trips@),
            distance_total(trips@) <= u64::MAX,
            distance == driven_by(trips@.take(i as int), user),
        decreases trips@.len() - i,
    {
        proof {
            lemma_trips_prefix(trips@, i as int);
            lemma_trips_prefix(trips@, i + 1);
            lemma_driven_bounds(trips@.take(i + 1), user);
            assert(trips@.take(i + 1).drop_last() =~= trips@.take(i as int));
            assert(trips@[i as int].start <= trips@[i as int].end);
        }
        let part = trips[i].distance_for(user);
        distance = distance + part;
        i += 1;
    }
    assert(trips@.take(trips@.len() as int) =~= trips@);
    distance
}

/// What `user` paid in advance on `expenses`.
pub fn amount_prepaid(expenses: &Vec<Expense>, user: i64) -> (prepaid: u64)
    requires
        expenses_sound(expenses@),
        amount_total(expenses@) <= i64::MAX,
    ensures
        prepaid == prepaid_by(expenses@, user),
{
    let mut prepaid: u64 = 0;
    let mut i: usize = 0;
    while i < expenses.len()
        invariant
            i <= expenses@.len(),
            expenses_sound(expenses@),
            amount_total(expenses@) <= i64::MAX,
            prepaid == prepaid_by(expenses@.take(i as int), user),
        decreases expenses@.len() - i,
    {
        proof {
            lemma_expenses_prefix(expenses@, i as int);
            lemma_expenses_prefix(expenses@, i + 1);
            lemma_prepaid_bounds(expenses@.take(i + 1), user);
            assert(expenses@.take(i + 1).drop_last() =~= expenses@.take(i as int));
        }
        let part = expenses[i].amount_for(user);
        prepaid = prepaid + part;
        i += 1;
    }
    assert(expenses@.take(expenses@.len() as int) =~= expenses@);
    prepaid
}

/// The sum of the amounts of `expenses`.
pub fn total_expenses(expenses: &Vec<Expense>) -> (sum: u64)
    requires
        expenses_sound(expenses@),
        amount_total(expenses@) <= i64::MAX,
    ensures
        sum == amount_total(expenses@),
{
    let mut sum: u64 = 0;
    let mut i: usize = 0;
    while i < expenses.len()
        invariant
            i <= expenses@.len(),
            expenses_sound(expenses@),
            amount_total(expenses@) <= i64::MAX,
            sum == amount_total(expenses@.take(i as int)),
        decreases expenses@.len() - i,
    {
        proof {
            lemma_expenses_prefix(expenses@, i as int);
            lemma_expenses_prefix(expenses@, i + 1);
            assert(expenses@[i as int].amount >= 0);
        }
        sum = sum + expenses[i].amount as u64;
        i += 1;
    }
    assert(expenses@.take(expenses@.len() as int) =~= expenses@);
    sum
}

/// Which users the first `k + 1` entries of an ascending sequence hold: those
/// of the first `k`, and entry `k`, which is none of them.
pub proof fn lemma_take_contains(s: Seq<i64>, k: int, x: i64)
    requires
        ascending(s),
        0 <= k < s.len(),
    ensures
        s.take(k + 1).contains(x) <==> s.take(k).contains(x) || x == s[k],
        !s.take(k).contains(s[k]),
        s.take(k).contains(x) ==> s.contains(x) && s.index_of(x) < k,
        s.contains(s[k]) && s.index_of(s[k]) == k,
{
    let short = s.take(k);
    let long = s.take(k + 1);
    if short.contains(x) {
        let j = choose|j: int| 0 <= j < short.len() && short[j] == x;
        assert(long[j] == x);
        assert(s[j] == x);
        assert(s.contains(x));
        let c = s.index_of(x);
        assert(0 <= c < s.len() && s[c] == x);
    }
    if x == s[k] {
        assert(long[k] == x);
    }
    if long.contains(x) {
        let j = choose|j: int| 0 <= j < long.len() && long[j] == x;
        if j < k {
            assert(short[j] == x);
        }
    }
    if short.contains(s[k]) {
        let j = choose|j: int| 0 <= j < short.len() && short[j] == s[k];
        assert(s[j] == s[k]);
    }
    assert(s.contains(s[k]));
    let c = s.index_of(s[k]);
    assert(0 <= c < s.len() && s[c] == s[k]);
}

/// How many of the first `k` users of `roster` are among `users`.
pub open spec fn members_among(roster: Seq<i64>, k: int, users: Seq<i64>) -> int
    decreases k,
{
    if k <= 0 {
        0
    } else {
        members_among(roster, k - 1, users) + if users.contains(roster[k - 1]) {
            1int
        } else {
            0
        }
    }
}

/// How many of the first `k` users of `roster` are `user`.
pub open spec fn occurrences(roster: Seq<i64>, k: int, user: i64) -> int
    decreases k,
{
    if k <= 0 {
        0
    } else {
        occurrences(roster, k - 1, user) + if roster[k - 1] == user {
            1int
        } else {
            0
        }
    }
}

/// The sum of the shares of `value` among `users` that fall to the first
/// `k` users of `roster`.
pub open spec fn roster_shares(value: u64, users: Seq<i64>, roster: Seq<i64>, k: int) -> int
    decreases k,
{
    if k <= 0 {
        0
    } else {
        roster_shares(value, users, roster, k - 1) + share_of(value, users, roster[k - 1])
    }
}

/// An ascending roster names a user at most once.
proof fn lemma_occurrences(roster: Seq<i64>, k: int, user: i64)
    requires
        ascending(roster),
        0 <= k <= roster.len(),
    ensures
        occurrences(roster, k, user) == (if roster.take(k).contains(user) {
            1int
        } else {
            0
        }),
    decreases k,
{
    if k > 0 {
        lemma_occurrences(roster, k - 1, user);
        lemma_take_contains(roster, k - 1, user);
    } else {
        assert(roster.take(0).len() == 0);
    }
}

proof fn lemma_members_step(roster: Seq<i64>, k: int, users: Seq<i64>)
    requires
        users.len() > 0,
        0 <= k <= roster.len(),
    ensures
        0 <= members_among(roster, k, users) <= members_among(roster, k, users.drop_last())
            + occurrences(roster, k, users.last()),
        0 <= members_among(roster, k, users.drop_last()),
    decreases k,
{
    if k > 0 {
        lemma_members_step(roster, k - 1, users);
        let x = roster[k - 1];
        if users.contains(x) {
            let j = choose|j: int| 0 <= j < users.len() && users[j] == x;
            if j < users.len() - 1 {
                assert(users.drop_last()[j] == x);
            }
        }
    }
}

/// An ascending roster has no more users among `users` than `users` has
/// entries.
proof fn lemma_members_bound(roster: Seq<i64>, k: int, users: Seq<i64>)
    requires
        ascending(roster),
        0 <= k <= roster.len(),
    ensures
        0 <= members_among(roster, k, users) <= users.len(),
    decreases users.len(), k,
{
    if users.len() == 0 {
        if k > 0 {
            lemma_members_bound(roster, k - 1, users);
        }
    } else {
        lemma_members_step(roster, k, users);
        lemma_members_bound(roster, k, users.drop_last());
        lemma_occurrences(roster, k, users.last());
    }
}

proof fn lemma_roster_shares_parts(value: u64, users: Seq<i64>, roster: Seq<i64>, k: int)
    requires
        users.len() > 0,
        0 <= k <= roster.len(),
    ensures
        0 <= roster_shares(value, users, roster, k) <= (value as int / users.len() as int)
            * members_among(roster, k, users) + (value as int % users.len() as int) * occurrences(
            roster,
            k,
            users[0],
        ),
    decreases k,
{
    let q = value as int / users.len() as int;
    let r = value as int % users.len() as int;
    if k > 0 {
        lemma_roster_shares_parts(value, users, roster, k - 1);
        let x = roster[k - 1];
        let m = members_among(roster, k - 1, users);
        let o = occurrences(roster, k - 1, users[0]);
        let mk = members_among(roster, k, users);
        let ok = occurrences(roster, k, users[0]);
        let share = share_of(value, users, x);
        lemma_share_bounds(value, users, x);
        lemma_equal_share_bounds(value, users.len() as int, 0);
        lemma_equal_share_bounds(value, users.len() as int, 1);
        assert(users.contains(users[0]));
        assert(0 <= r && 0 <= q);
        assert(q * (m + 1) == q * m + q) by (nonlinear_arith);
        assert(r * (o + 1) == r * o + r) by (nonlinear_arith);
        if users.contains(x) {
            let c = users.index_of(x);
            assert(0 <= c < users.len() && users[c] == x);
            assert(mk == m + 1);
            if c == 0 {
                assert(ok == o + 1);
                assert(share == q + r);
            } else {
                assert(share == q);
                assert(ok == o || ok == o + 1);
            }
            assert(share <= q * mk + r * ok - (q * m + r * o));
        } else {
            assert(share == 0);
            assert(mk == m);
            assert(ok == o);
        }
    } else {
        assert(q * 0 + r * 0 == 0) by (nonlinear_arith);
    }
}

/// The users of an ascending roster get together no more than the value
/// that is split.
pub proof fn lemma_roster_shares_bound(value: u64, users: Seq<i64>, roster: Seq<i64>, k: int)
    requires
        ascending(roster),
        0 <= k <= roster.len(),
    ensures
        0 <= roster_shares(value, users, roster, k) <= value,
    decreases k,
{
    if users.len() == 0 {
        if k > 0 {
            lemma_roster_shares_bound(value, users, roster, k - 1);
        }
    } else {
        let n = users.len() as int;
        let q = value as int / n;
        let r = value as int % n;
        let m = members_among(roster, k, users);
        let o = occurrences(roster, k, users[0]);
        lemma_roster_shares_parts(value, users, roster, k);
        lemma_members_bound(roster, k, users);
        lemma_occurrences(roster, k, users[0]);
        vstd::arithmetic::div_mod::lemma_fundamental_div_mod(value as int, n);
        assert(q * m + r * o <= value) by (nonlinear_arith)
            requires
                0 <= m <= n,
                0 <= o <= 1,
                0 <= q,
                0 <= r,
                value as int == n * q + r,
        ;
        lemma_equal_share_bounds(value, n, 0);
        lemma_equal_share_bounds(value, n, 1);
    }
}

proof fn lemma_driven_total_step(trips: Seq<Trip>, roster: Seq<i64>, k: int)
    requires
        trips.len() > 0,
        0 <= k <= roster.len(),
    ensures
        driven_total(trips, roster, k) == driven_total(trips.drop_last(), roster, k)
            + roster_shares(
            (trips.last().end - trips.last().start) as u64,
            trips.last().users@,
            roster,
            k,
        ),
    decreases k,
{
    if k > 0 {
        lemma_driven_total_step(trips, roster, k - 1);
    }
}

/// The users of an ascending roster drove together no more than the sum of
/// the distances of the trips.
pub proof fn lemma_driven_total_bound(trips: Seq<Trip>, roster: Seq<i64>, k: int)
    requires
        ascending(roster),
        trips_sound(trips),
        0 <= k <= roster.len(),
    ensures
        0 <= driven_total(trips, roster, k) <= distance_total(trips),
    decreases trips.len(), k,
{
    if trips.len() == 0 {
        if k > 0 {
            lemma_driven_total_bound(trips, roster, k - 1);
        }
    } else {
        lemma_trips_prefix(trips, trips.len() - 1);
        assert(trips.take(trips.len() - 1) =~= trips.drop_last());
        lemma_driven_total_bound(trips.drop_last(), roster, k);
        lemma_driven_total_step(trips, roster, k);
        let last = trips.last();
        assert(last.start <= last.end);
        lemma_roster_shares_bound((last.end - last.start) as u64, last.users@, roster, k);
    }
}

/// The cost weights of an ascending roster sum to what its users drove
/// together, which is no more than the sum of the distances of the trips.
pub proof fn lemma_cost_weights_total(trips: Seq<Trip>, roster: Seq<i64>, k: int)
    requires
        ascending(roster),
        trips_sound(trips),
        distance_total(trips) <= u64::MAX,
        0 <= k <= roster.len(),
    ensures
        total(cost_weights(trips, roster).take(k)) == driven_total(trips, roster, k),
        total(cost_weights(trips, roster).take(k)) <= distance_total(trips),
    decreases k,
{
    lemma_driven_total_bound(trips, roster, k);
    if k > 0 {
        lemma_cost_weights_total(trips, roster, k - 1);
        lemma_total_take(cost_weights(trips, roster), k - 1);
        lemma_driven_bounds(trips, roster[k - 1]);
    } else {
        assert(total(cost_weights(trips, roster).take(0)) == 0);
    }
}

/// The distances that the users of the roster drove.
pub fn driven_weights(trips: &Vec<Trip>, roster: &UserSet) -> (weights: Vec<u64>)
    requires
        trips_sound(trips@),
        distance_total(trips@) <= u64::MAX,
    ensures
        weights@ == cost_weights(trips@, roster@),
{
    let mut weights: Vec<u64> = Vec::new();
    let mut i: usize = 0;
    while i < roster.len()
        invariant
            i <= roster@.len(),
            trips_sound(trips@),
            distance_total(trips@) <= u64::MAX,
            weights@ =~= cost_weights(trips@, roster@).take(i as int),
        decreases roster@.len() - i,
    {
        let distance = distance_driven(trips, roster.get(i));
        weights.push(distance);
        i += 1;
    }
    assert(cost_weights(trips@, roster@).take(roster@.len() as int) =~= cost_weights(
        trips@,
        roster@,
    ));
    weights
}

/// The sum of `values`.
pub fn sum_of(values: &Vec<u64>) -> (sum: u64)
    requires
        total(values@) <= u64::MAX,
    ensures
        sum == total(values@),
{
    let mut sum: u64 = 0;
    let mut i: usize = 0;
    while i < values.len()
        invariant
            i <= values@.len(),
            total(values@) <= u64::MAX,
            sum == total(values@.take(i as int)),
        decreases values@.len() - i,
    {
        proof {
            lemma_total_take(values@, i as int);
            crate::division::lemma_weights_prefix(values@, i + 1);
        }
        sum = sum + values[i];
        i += 1;
    }
    assert(values@.take(values@.len() as int) =~= values@);
    sum
}

/// Charges `amount` to the users of a roster in proportion to `weights`.
/// The user with the greatest share, the first of them, takes what rounding
/// left over, so that the charges sum to `amount`.
pub fn charge_roster(amount: u64, weights: Vec<u64>) -> (charged: Vec<u64>)
    requires
        weights@.len() >= 1,
    ensures
        charged@ == charges(amount, weights@),
        total(charged@) == amount,
{
    let mut charged = weights;
    let remainder = divide_proportionally(amount, &mut charged);
    let ghost shares = charged@;
    let mut best: usize = 0;
    let mut i: usize = 1;
    assert(first_max(shares.take(1)) == 0);
    while i < charged.len()
        invariant
            1 <= i <= charged@.len(),
            charged@ == shares,
            best < i,
            best == first_max(shares.take(i as int)),
        decreases charged@.len() - i,
    {
        proof {
            assert(shares.take(i + 1).drop_last() =~= shares.take(i as int));
            assert(shares.take(i + 1)[best as int] == shares[best as int]);
        }
        if charged[i] > charged[best] {
            best = i;
        }
        i += 1;
    }
    proof {
        assert(shares.take(shares.len() as int) =~= shares);
        lemma_entry_le_total(shares, best as int);
        lemma_charges_total(amount, weights@);
    }
    let raised: u64 = charged[best] + remainder;
    charged[best] = raised;
    charged
}

/// A pushed entry is held, and so is what was held before.
proof fn lemma_push_contains(s: Seq<i64>, x: i64, u: i64)
    ensures
        s.push(x).contains(u) <==> s.contains(u) || u == x,
{
    let t = s.push(x);
    if s.contains(u) {
        let j = choose|j: int| 0 <= j < s.len() && s[j] == u;
        assert(t[j] == u);
    }
    if u == x {
        assert(t[s.len() as int] == u);
    }
    if t.contains(u) {
        let j = choose|j: int| 0 <= j < t.len() && t[j] == u;
        if j < s.len() {
            assert(s[j] == u);
        }
    }
}

/// The users who get a balance: those of the roster and those who paid an
/// expense in advance.
pub fn participants(expenses: &Vec<Expense>, roster: &UserSet) -> (users: UserSet)
    ensures
        ascending(users@),
        forall|user: i64| users@.contains(user) <==> takes_part(expenses@, roster@, user),
{
    let mut names: Vec<i64> = roster.to_vec();
    let mut i: usize = 0;
    assert(expenses@.take(0).len() == 0);
    while i < expenses.len()
        invariant
            i <= expenses@.len(),
            forall|user: i64|
                #[trigger] names@.contains(user) <==> takes_part(
                    expenses@.take(i as int),
                    roster@,
                    user,
                ),
        decreases expenses@.len() - i,
    {
        let payers = &expenses[i].users;
        let ghost before = names@;
        let mut j: usize = 0;
        assert(payers@.take(0).len() == 0);
        while j < payers.len()
            invariant
                j <= payers@.len(),
                forall|user: i64|
                    #[trigger] names@.contains(user) <==> before.contains(user) || payers@.take(
                        j as int,
                    ).contains(user),
            decreases payers@.len() - j,
        {
            let ghost held = names@;
            let name = payers.get(j);
            names.push(name);
            proof {
                assert(payers@.take(j + 1) =~= payers@.take(j as int).push(name));
                assert forall|user: i64| #[trigger]
                    names@.contains(user) <==> before.contains(user) || payers@.take(
                        j + 1,
                    ).contains(user) by {
                    assert(held.contains(user) <==> before.contains(user) || payers@.take(
                        j as int,
                    ).contains(user));
                    lemma_push_contains(held, name, user);
                    lemma_push_contains(payers@.take(j as int), name, user);
                }
            }
            j += 1;
        }
        proof {
            assert(payers@.take(payers@.len() as int) =~= payers@);
            let now = expenses@.take(i + 1);
            let was = expenses@.take(i as int);
            assert(now.drop_last() =~= was);
            assert forall|user: i64| #[trigger]
                names@.contains(user) <==> takes_part(now, roster@, user) by {
                assert(before.contains(user) <==> takes_part(was, roster@, user));
                assert(names@.contains(user) <==> before.contains(user) || payers@.contains(
                    user,
                ));
                if takes_part(was, roster@, user) && !roster@.contains(user) {
                    let e = choose|e: int|
                        0 <= e < was.len() && (#[trigger] was[e]).users@.contains(user);
                    assert(now[e].users@.contains(user));
                }
                if payers@.contains(user) {
                    assert(now[i as int].users@.contains(user));
                }
                if takes_part(now, roster@, user) && !roster@.contains(user) {
                    let e = choose|e: int|
                        0 <= e < now.len() && (#[trigger] now[e]).users@.contains(user);
                    if e < i {
                        assert(was[e].users@.contains(user));
                    }
                }
            }
        }
        i += 1;
    }
    assert(expenses@.take(expenses@.len() as int) =~= expenses@);
    UserSet::from_vec(names)
}

/// The charge of `user` among `charged`, the charges of the roster: nothing
/// for a user outside the roster.
pub open spec fn charged_to(roster: Seq<i64>, charged: Seq<u64>, user: i64) -> int {
    if roster.contains(user) {
        charged[roster.index_of(user)] as int
    } else {
        0
    }
}

/// Takes from the balance of each user of the roster, which is zero, what
/// the user is charged.
fn charge_balances(balances: &mut Balances, roster: &UserSet, charged: &Vec<u64>)
    requires
        forall|p: int| 0 <= p < old(balances).amounts().len() ==> old(balances).amounts()[p] == 0,
        net(old(balances).amounts()) == 0,
        forall|user: i64| roster@.contains(user) ==> old(balances).ids().contains(user),
        charged@.len() == roster@.len(),
        total(charged@) <= i64::MAX,
    ensures
        final(balances).ids() == old(balances).ids(),
        forall|p: int|
            0 <= p < final(balances).ids().len() ==> #[trigger] final(balances).amounts()[p]
                == -charged_to(roster@, charged@, final(balances).ids()[p]),
        net(final(balances).amounts()) == -total(charged@),
{
    proof {
        use_type_invariant(&*balances);
        use_type_invariant(roster);
    }
    let ghost ids = balances.ids();
    let mut i: usize = 0;
    assert(roster@.take(0).len() == 0);
    while i < roster.len()
        invariant
            i <= roster@.len(),
            ascending(roster@),
            ascending(ids),
            balances.ids() == ids,
            balances.amounts().len() == ids.len(),
            forall|user: i64| roster@.contains(user) ==> ids.contains(user),
            charged@.len() == roster@.len(),
            total(charged@) <= i64::MAX,
            forall|p: int|
                0 <= p < ids.len() ==> #[trigger] balances.amounts()[p] == (if roster@.take(
                    i as int,
                ).contains(ids[p]) {
                    -(charged@[roster@.index_of(ids[p])] as int)
                } else {
                    0
                }),
            net(balances.amounts()) == -total(charged@.take(i as int)),
        decreases roster@.len() - i,
    {
        let user = roster.get(i);
        let ghost before = balances.amounts();
        let ghost place = ids.index_of(user);
        proof {
            lemma_take_contains(roster@, i as int, user);
            assert(ids.contains(user));
            assert(0 <= place < ids.len() && ids[place] == user);
            assert(before[place] == 0);
            lemma_entry_le_total(charged@, i as int);
            lemma_total_take(charged@, i as int);
            lemma_net_update(before, place, (-(charged@[i as int] as int)) as i64);
        }
        let charge: i64 = charged[i] as i64;
        balances.put(user, -charge);
        proof {
            assert forall|p: int| 0 <= p < ids.len() implies #[trigger] balances.amounts()[p] == (
            if roster@.take(i + 1).contains(ids[p]) {
                -(charged@[roster@.index_of(ids[p])] as int)
            } else {
                0
            }) by {
                lemma_take_contains(roster@, i as int, ids[p]);
                if p != place {
                    assert(ids[p] != user);
                    assert(balances.amounts()[p] == before[p]);
                }
            }
        }
        i += 1;
    }
    proof {
        assert(roster@.take(roster@.len() as int) =~= roster@);
        assert(charged@.take(charged@.len() as int) =~= charged@);
    }
}

/// Adds to the balance of each user who paid `expense` in advance the
/// share of the user.
fn credit_expense(balances: &mut Balances, expense: &Expense)
    requires
        expense.amount >= 0,
        expense.users@.len() >= 1,
        forall|user: i64| expense.users@.contains(user) ==> old(balances).ids().contains(user),
        forall|p: int|
            0 <= p < old(balances).amounts().len() ==> old(balances).amounts()[p] + expense.amount
                <= i64::MAX,
    ensures
        final(balances).ids() == old(balances).ids(),
        forall|p: int|
            0 <= p < final(balances).ids().len() ==> #[trigger] final(balances).amounts()[p] == old(
                balances,
            ).amounts()[p] + share_of(expense.value(), expense.users@, final(balances).ids()[p]),
        net(final(balances).amounts()) == net(old(balances).amounts()) + expense.amount,
{
    proof {
        use_type_invariant(&*balances);
        use_type_invariant(&expense.users);
    }
    let ghost ids = balances.ids();
    let ghost start = balances.amounts();
    let payers = &expense.users;
    let value: u64 = expense.amount as u64;
    let shares = divide_equally(value, payers.len() as u64);
    let mut j: usize = 0;
    assert(payers@.take(0).len() == 0);
    assert(total(shares@.take(0)) == 0);
    while j < payers.len()
        invariant
            j <= payers@.len(),
            ascending(payers@),
            ascending(ids),
            payers@ == expense.users@,
            value == expense.value(),
            value == expense.amount,
            balances.ids() == ids,
            balances.amounts().len() == ids.len(),
            start.len() == ids.len(),
            forall|user: i64| payers@.contains(user) ==> ids.contains(user),
            forall|p: int| 0 <= p < start.len() ==> start[p] + expense.amount <= i64::MAX,
            shares@ == equal_shares(value, payers@.len() as u64),
            shares@.len() == payers@.len(),
            total(shares@) == value,
            forall|p: int|
                0 <= p < ids.len() ==> #[trigger] balances.amounts()[p] == start[p] + (
                if payers@.take(j as int).contains(ids[p]) {
                    share_of(value, payers@, ids[p])
                } else {
                    0
                }),
            net(balances.amounts()) == net(start) + total(shares@.take(j as int)),
        decreases payers@.len() - j,
    {
        let user = payers.get(j);
        let ghost before = balances.amounts();
        let ghost place = ids.index_of(user);
        proof {
            lemma_take_contains(payers@, j as int, user);
            assert(ids.contains(user));
            assert(0 <= place < ids.len() && ids[place] == user);
            assert(before[place] == start[place]);
            lemma_share_at(value, payers@, j as int);
            lemma_equal_share_bounds(value, payers@.len() as int, j as int);
            lemma_total_take(shares@, j as int);
        }
        let share: u64 = shares[j];
        let current: i64 = match balances.get(user) {
            Some(amount) => amount,
            None => 0,
        };
        let raised: i64 = current + share as i64;
        proof {
            lemma_net_update(before, place, raised);
        }
        balances.put(user, raised);
        proof {
            assert forall|p: int| 0 <= p < ids.len() implies #[trigger] balances.amounts()[p]
                == start[p] + (if payers@.take(j + 1).contains(ids[p]) {
                share_of(value, payers@, ids[p])
            } else {
                0
            }) by {
                lemma_take_contains(payers@, j as int, ids[p]);
                if p != place {
                    assert(ids[p] != user);
                    assert(balances.amounts()[p] == before[p]);
                }
            }
        }
        j += 1;
    }
    proof {
        assert(payers@.take(payers@.len() as int) =~= payers@);
        assert(shares@.take(shares@.len() as int) =~= shares@);
    }
}

/// A user who paid none of the expenses paid nothing in advance.
pub proof fn lemma_prepaid_by_stranger(expenses: Seq<Expense>, user: i64)
    requires
        forall|i: int| 0 <= i < expenses.len() ==> !(#[trigger] expenses[i]).users@.contains(user),
    ensures
        prepaid_by(expenses, user) == 0,
    decreases expenses.len(),
{
    if expenses.len() > 0 {
        assert forall|i: int| 0 <= i < expenses.drop_last().len() implies !(
        #[trigger] expenses.drop_last()[i]).users@.contains(user) by {
            assert(!expenses[i].users@.contains(user));
        }
        lemma_prepaid_by_stranger(expenses.drop_last(), user);
        assert(!expenses[expenses.len() - 1].users@.contains(user));
    }
}

/// What a period comes to.
#[derive(Debug)]
pub struct SummaryResult {
    /// How far the user drove in the period.
    pub distance: u64,
    /// The amount of money the user paid in advance for expenses.
    pub prepaid: u64,
    /// The sum of the expenses of the period.
    pub total_amount: u64,
    /// The distance that the users of the roster drove together.
    pub total_distance: u64,
    /// What each user is owed, or owes where it is below zero.
    pub balances: Balances,
    /// Who pays how much to whom to settle the balances.
    pub payments: Vec<DebtorPayments>,
}

/// The trips, expenses and roster of a period can be summed up: there is a
/// user in the roster, every trip ends at or after its start, every expense
/// has an amount not below zero and a user who paid it, and the sums of the
/// distances and of the amounts fit their integer types.
pub open spec fn summary_ready(trips: Seq<Trip>, expenses: Seq<Expense>, roster: Seq<i64>) -> bool {
    &&& roster.len() >= 1
    &&& trips_sound(trips)
    &&& expenses_sound(expenses)
    &&& distance_total(trips) <= u64::MAX
    &&& amount_total(expenses) <= i64::MAX
}

/// Why a period cannot be summed up. None of these is the fault of the user
/// who asks for the summary: the records themselves are unsound.
#[derive(Debug, Clone, Copy, PartialEq, Eq, Structural)]
pub enum PreconditionError {
    /// The roster has no user to charge the expenses to.
    EmptyRoster,
    /// A trip ends before it starts.
    TripEndsBeforeStart,
    /// The distances of the trips sum to more than a `u64` holds.
    DistanceTooLarge,
    /// An expense has an amount below zero.
    NegativeAmount,
    /// An expense has no user among whom it could be divided.
    ExpenseWithoutUsers,
    /// The amounts of the expenses sum to more than an `i64` holds.
    AmountTooLarge,
}

/// What stands against summing up the period, if anything: the first of the
/// faults, in the order of `PreconditionError`, that the records show.
pub open spec fn summary_fault(
    trips: Seq<Trip>,
    expenses: Seq<Expense>,
    roster: Seq<i64>,
) -> Option<PreconditionError> {
    if roster.len() == 0 {
        Some(PreconditionError::EmptyRoster)
    } else if !trips_sound(trips) {
        Some(PreconditionError::TripEndsBeforeStart)
    } else if distance_total(trips) > u64::MAX {
        Some(PreconditionError::DistanceTooLarge)
    } else if exists|i: int| 0 <= i < expenses.len() && (#[trigger] expenses[i]).amount < 0 {
        Some(PreconditionError::NegativeAmount)
    } else if exists|i: int| 0 <= i < expenses.len() && (#[trigger] expenses[i]).users@.len() == 0 {
        Some(PreconditionError::ExpenseWithoutUsers)
    } else if amount_total(expenses) > i64::MAX {
        Some(PreconditionError::AmountTooLarge)
    } else {
        None
    }
}

/// Tells whether the period can be summed up, and if not, why.
pub fn check_summary_inputs(trips: &Vec<Trip>, expenses: &Vec<Expense>, roster: &UserSet) -> (verdict:
    Result<(), PreconditionError>)
    ensures
        verdict == match summary_fault(trips@, expenses@, roster@) {
            Some(fault) => Err::<(), PreconditionError>(fault),
            None => Ok(()),
        },
        verdict is Ok <==> summary_ready(trips@, expenses@, roster@),
{
    if roster.is_empty() {
        return Err(PreconditionError::EmptyRoster);
    }
    let mut i: usize = 0;
    while i < trips.len()
        invariant
            i <= trips@.len(),
            roster@.len() > 0,
            forall|j: int| 0 <= j < i ==> (#[trigger] trips@[j]).start <= trips@[j].end,
        decreases trips@.len() - i,
    {
        if trips[i].start > trips[i].end {
            assert(!(trips@[i as int].start <= trips@[i as int].end));
            return Err(PreconditionError::TripEndsBeforeStart);
        }
        i += 1;
    }
    let mut distance: u64 = 0;
    let mut i: usize = 0;
    assert(trips@.take(0).len() == 0);
    while i < trips.len()
        invariant
            i <= trips@.len(),
            roster@.len() > 0,
            trips_sound(trips@),
            distance == distance_total(trips@.take(i as int)),
        decreases trips@.len() - i,
    {
        proof {
            lemma_trips_prefix(trips@, i as int);
            lemma_trips_prefix(trips@, i + 1);
            assert(trips@[i as int].start <= trips@[i as int].end);
        }
        let part: u64 = trips[i].end - trips[i].start;
        if part > u64::MAX - distance {
            return Err(PreconditionError::DistanceTooLarge);
        }
        distance = distance + part;
        i += 1;
    }
    assert(trips@.take(trips@.len() as int) =~= trips@);
    let mut i: usize = 0;
    while i < expenses.len()
        invariant
            i <= expenses@.len(),
            roster@.len() > 0,
            trips_sound(trips@),
            distance_total(trips@) <= u64::MAX,
            forall|j: int| 0 <= j < i ==> (#[trigger] expenses@[j]).amount >= 0,
        decreases expenses@.len() - i,
    {
        if expenses[i].amount < 0 {
            assert(expenses@[i as int].amount < 0);
            return Err(PreconditionError::NegativeAmount);
        }
        i += 1;
    }
    let mut i: usize = 0;
    while i < expenses.len()
        invariant
            i <= expenses@.len(),
            roster@.len() > 0,
            trips_sound(trips@),
            distance_total(trips@) <= u64::MAX,
            forall|j: int| 0 <= j < expenses@.len() ==> (#[trigger] expenses@[j]).amount >= 0,
            forall|j: int| 0 <= j < i ==> (#[trigger] expenses@[j]).users@.len() >= 1,
        decreases expenses@.len() - i,
    {
        if expenses[i].users.is_empty() {
            assert(expenses@[i as int].users@.len() == 0);
            return Err(PreconditionError::ExpenseWithoutUsers);
        }
        i += 1;
    }
    let mut amount: i64 = 0;
    let mut i: usize = 0;
    assert(expenses@.take(0).len() == 0);
    while i < expenses.len()
        invariant
            i <= expenses@.len(),
            roster@.len() > 0,
            trips_sound(trips@),
            distance_total(trips@) <= u64::MAX,
            expenses_sound(expenses@),
            0 <= amount,
            amount == amount_total(expenses@.take(i as int)),
        decreases expenses@.len() - i,
    {
        proof {
            lemma_expenses_prefix(expenses@, i as int);
            lemma_expenses_prefix(expenses@, i + 1);
            assert(expenses@[i as int].amount >= 0);
        }
        let part: i64 = expenses[i].amount;
        if part > i64::MAX - amount {
            return Err(PreconditionError::AmountTooLarge);
        }
        amount = amount + part;
        i += 1;
    }
    assert(expenses@.take(expenses@.len() as int) =~= expenses@);
    Ok(())
}

/// Sums up a period for `user`. The users of `roster` are charged the
/// expenses in proportion to the distances they drove on `trips`; the users
/// who paid an expense in advance are credited their shares of it. Every
/// user of the roster and every user who paid an expense gets a balance:
/// what the user paid in advance less what the user is charged. The
/// balances sum to zero, and the payments are those that settle them.
pub fn summary(trips: &Vec<Trip>, expenses: &Vec<Expense>, roster: &UserSet, user: i64) -> (result:
    SummaryResult)
    requires
        summary_ready(trips@, expenses@, roster@),
    ensures
        result.distance == driven_by(trips@, user),
        result.prepaid == prepaid_by(expenses@, user),
        result.total_amount == amount_total(expenses@),
        result.total_distance == total(cost_weights(trips@, roster@)),
        result.total_distance == driven_total(trips@, roster@, roster@.len() as int),
        result.total_distance <= distance_total(trips@),
        ascending(result.balances.ids()),
        result.balances.ids().len() == result.balances.amounts().len(),
        forall|other: i64|
            result.balances.ids().contains(other) <==> takes_part(expenses@, roster@, other),
        forall|other: i64| #[trigger]
            result.balances.balance_of(other) == balance(trips@, expenses@, roster@, other),
        net(result.balances.amounts()) == 0,
        ledger(result.payments@) == settlement(
            result.balances.ids(),
            result.balances.amounts(),
        ),
{
    let total_amount = total_expenses(expenses);
    let weights = driven_weights(trips, roster);
    proof {
        use_type_invariant(roster);
        lemma_cost_weights_total(trips@, roster@, roster@.len() as int);
        assert(weights@.take(roster@.len() as int) =~= weights@);
    }
    let total_distance = sum_of(&weights);
    let charged = charge_roster(total_amount, weights);
    let users = participants(expenses, roster);
    let mut balances = Balances::zeroed(users);
    let ghost ids = balances.ids();
    proof {
        lemma_charges_total(total_amount, cost_weights(trips@, roster@));
    }
    charge_balances(&mut balances, roster, &charged);
    let ghost base = balances.amounts();
    let mut i: usize = 0;
    proof {
        use_type_invariant(&balances);
        assert(expenses@.take(0).len() == 0);
    }
    while i < expenses.len()
        invariant
            i <= expenses@.len(),
            expenses_sound(expenses@),
            amount_total(expenses@) <= i64::MAX,
            balances.ids() == ids,
            ascending(ids),
            balances.amounts().len() == ids.len(),
            base.len() == ids.len(),
            forall|other: i64| ids.contains(other) <==> takes_part(expenses@, roster@, other),
            forall|p: int| 0 <= p < ids.len() ==> #[trigger] base[p] <= 0,
            forall|p: int|
                0 <= p < ids.len() ==> #[trigger] balances.amounts()[p] == base[p] + prepaid_by(
                    expenses@.take(i as int),
                    ids[p],
                ),
            net(balances.amounts()) == net(base) + amount_total(expenses@.take(i as int)),
        decreases expenses@.len() - i,
    {
        let ghost before = balances.amounts();
        proof {
            lemma_expenses_prefix(expenses@, i as int);
            lemma_expenses_prefix(expenses@, i + 1);
            assert(expenses@.take(i + 1).drop_last() =~= expenses@.take(i as int));
            assert(expenses@[i as int].amount >= 0);
            assert forall|p: int| 0 <= p < before.len() implies before[p] + expenses@[i as int].amount
                <= i64::MAX by {
                lemma_prepaid_bounds(expenses@.take(i as int), ids[p]);
                assert(base[p] <= 0);
            }
            assert forall|other: i64| expenses@[i as int].users@.contains(other) implies ids.contains(
                other,
            ) by {
                assert(takes_part(expenses@, roster@, other));
            }
        }
        credit_expense(&mut balances, &expenses[i]);
        proof {
            use_type_invariant(&balances);
        }
        i += 1;
    }
    proof {
        assert(expenses@.take(expenses@.len() as int) =~= expenses@);
        assert forall|other: i64| #[trigger]
            balances.balance_of(other) == balance(trips@, expenses@, roster@, other) by {
            if ids.contains(other) {
                let p = ids.index_of(other);
                assert(0 <= p < ids.len() && ids[p] == other);
                assert(balances.amounts()[p] == base[p] + prepaid_by(expenses@, ids[p]));
                assert(base[p] == -charged_to(roster@, charged@, ids[p]));
            } else {
                assert(!takes_part(expenses@, roster@, other));
                lemma_prepaid_by_stranger(expenses@, other);
            }
        }
    }
    let distance = distance_driven(trips, user);
    let prepaid = amount_prepaid(expenses, user);
    let payments = calculate_payments(&balances);
    SummaryResult { distance, prepaid, total_amount, total_distance, balances, payments }
}

} // verus!
