//! Trips and expenses, and the share of each that falls to one user.

use vstd::prelude::*;
use crate::division::{divide_equally, equal_share, equal_shares, lemma_equal_share_bounds, lemma_equal_shares_total, lemma_total_take, total};
use crate::users::{ascending, lemma_ascending_unique, UserSet};

verus! {

/// The share of `value` that falls to `user` when it is split equally among
/// `users`, taken in their given order: nothing for a user outside of them,
/// else the quotient, and for the first of them the remainder on top.
pub open spec fn share_of(value: u64, users: Seq<i64>, user: i64) -> int {
    if users.contains(user) {
        equal_share(value, users.len() as int, users.index_of(user))
    } else {
        0
    }
}

/// In an ascending user sequence the user at place `i` gets share number `i`:
/// the smallest user takes the remainder, every other user the plain quotient.
pub proof fn lemma_share_at(value: u64, users: Seq<i64>, i: int)
    requires
        ascending(users),
        0 <= i < users.len(),
    ensures
        share_of(value, users, users[i]) == equal_share(value, users.len() as int, i),
        i == 0 ==> share_of(value, users, users[i]) == value as int / users.len() as int
            + value as int % users.len() as int,
        i > 0 ==> share_of(value, users, users[i]) == value as int / users.len() as int,
{
    assert(users.contains(users[i]));
    let c = users.index_of(users[i]);
    assert(0 <= c < users.len() && users[c] == users[i]);
    assert(c == i);
}

/// The share of a user does not depend on how the set of users was written
/// down: two ascending sequences of the same users give every user the same
/// share, so the remainder falls to the same user.
pub proof fn lemma_share_order_free(value: u64, a: Seq<i64>, b: Seq<i64>, user: i64)
    requires
        ascending(a),
        ascending(b),
        forall|x: i64| a.contains(x) <==> b.contains(x),
    ensures
        a == b,
        share_of(value, a, user) == share_of(value, b, user),
{
    lemma_ascending_unique(a, b);
}

/// A share is never negative and never more than the value that is split.
pub proof fn lemma_share_bounds(value: u64, users: Seq<i64>, user: i64)
    ensures
        0 <= share_of(value, users, user) <= value,
{
    if users.contains(user) {
        lemma_equal_share_bounds(value, users.len() as int, users.index_of(user));
    }
}

/// The sum of the shares of the first `k` users of `users`.
pub open spec fn shares_sum(value: u64, users: Seq<i64>, k: int) -> int
    decreases k,
{
    if k <= 0 {
        0
    } else {
        shares_sum(value, users, k - 1) + share_of(value, users, users[k - 1])
    }
}

/// The shares of all users of a record sum to the value of the record.
pub proof fn lemma_shares_sum(value: u64, users: Seq<i64>)
    requires
        ascending(users),
        1 <= users.len() <= u64::MAX,
    ensures
        shares_sum(value, users, users.len() as int) == value,
{
    lemma_shares_sum_prefix(value, users, users.len() as int);
    lemma_equal_shares_total(value, users.len() as u64, users.len() as int);
}

proof fn lemma_shares_sum_prefix(value: u64, users: Seq<i64>, k: int)
    requires
        ascending(users),
        1 <= users.len() <= u64::MAX,
        0 <= k <= users.len(),
    ensures
        shares_sum(value, users, k) == total(equal_shares(value, users.len() as u64).take(k)),
    decreases k,
{
    let shares = equal_shares(value, users.len() as u64);
    if k > 0 {
        lemma_shares_sum_prefix(value, users, k - 1);
        lemma_share_at(value, users, k - 1);
        lemma_total_take(shares, k - 1);
        lemma_equal_share_bounds(value, users.len() as int, k - 1);
    } else {
        assert(total(shares.take(0)) == 0);
    }
}

/// Computes the share of `value` that falls to `user` among `users`.
pub fn share_for(value: u64, users: &UserSet, user: i64) -> (share: u64)
    ensures
        share == share_of(value, users@, user),
        share <= value,
{
    proof {
        lemma_share_bounds(value, users@, user);
    }
    match users.position(user) {
        None => 0,
        Some(place) => {
            let shares = divide_equally(value, users.len() as u64);
            shares[place]
        },
    }
}

/// One entry of the logbook.
#[derive(Debug, Clone)]
pub struct Trip {
    /// The unique identifier of the trip.
    pub id: i64,
    /// When the entry was made, as Unix time in microseconds.
    pub created_at: i64,
    /// The odometer reading at the start of the trip.
    pub start: u64,
    /// The odometer reading at the end of the trip.
    pub end: u64,
    /// The reason for the trip.
    pub description: Option<String>,
    /// The users who pay for the trip.
    pub users: UserSet,
    /// The price of the trip.
    pub price: u64,
}

impl Trip {
    /// The distance as a number: the end reading minus the start reading.
    pub open spec fn spec_distance(&self) -> int {
        self.end - self.start
    }

    /// The distance driven on the trip.
    pub fn distance(&self) -> (d: u64)
        requires
            self.start <= self.end,
        ensures
            d == self.spec_distance(),
    {
        self.end - self.start
    }

    /// The part of the distance that falls to `user_id`: nothing where the
    /// user is not on the trip, else an equal share, with the remainder
    /// going to the user with the smallest identifier.
    pub fn distance_for(&self, user_id: i64) -> (d: u64)
        requires
            self.start <= self.end,
        ensures
            d == share_of((self.end - self.start) as u64, self.users@, user_id),
            d <= self.end - self.start,
    {
        share_for(self.distance(), &self.users, user_id)
    }
}

/// A trip as the trip store holds it: readings as signed integers, no users.
#[derive(Debug, Clone)]
pub struct TripEntry {
    /// The unique identifier of the trip.
    pub id: i64,
    /// When the entry was made, as Unix time in microseconds.
    pub created_at: i64,
    /// The odometer reading at the start of the trip.
    pub start: i64,
    /// The odometer reading at the end of the trip.
    pub end: i64,
    /// The reason for the trip.
    pub description: Option<String>,
}

/// An expense as the expense store holds it: without its users.
#[derive(Debug, Clone)]
pub struct ExpenseEntry {
    /// The unique identifier of the expense.
    pub id: i64,
    /// When the entry was made, as Unix time in microseconds.
    pub created_at: i64,
    /// The amount in currency subunits.
    pub amount: i64,
    /// What the money was spent on.
    pub description: Option<String>,
}

/// An amount of money that some users paid in advance for all.
#[derive(Debug, Clone)]
pub struct Expense {
    /// The unique identifier of the expense.
    pub id: i64,
    /// When the entry was made, as Unix time in microseconds.
    pub created_at: i64,
    /// The amount in currency subunits.
    pub amount: i64,
    /// What the money was spent on.
    pub description: Option<String>,
    /// The users who paid the expense in advance.
    pub users: UserSet,
}

impl Expense {
    /// The amount as the unsigned number that is split among the users.
    pub open spec fn value(&self) -> u64 {
        self.amount as u64
    }

    /// The part of the amount that `user_id` paid in advance: nothing where
    /// the user is not among the payers, else an equal share, with the
    /// remainder going to the user with the smallest identifier.
    pub fn amount_for(&self, user_id: i64) -> (a: u64)
        ensures
            a == share_of(self.value(), self.users@, user_id),
            a <= self.value(),
    {
        let value: u64 = #[verifier::truncate]
        (self.amount as u64);
        share_for(value, &self.users, user_id)
    }
}

} // verus!
