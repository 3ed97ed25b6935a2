//! One signed balance per user: below zero the user owes money into the
//! pool, above zero the pool owes the user.

use vstd::prelude::*;
use crate::users::{ascending, UserSet};

verus! {

/// The sum of a sequence of signed amounts.
pub open spec fn net(amounts: Seq<i64>) -> int
    decreases amounts.len(),
{
    if amounts.len() == 0 {
        0
    } else {
        net(amounts.drop_last()) + amounts.last()
    }
}

/// Replacing one amount changes the sum by the difference.
pub proof fn lemma_net_update(amounts: Seq<i64>, k: int, value: i64)
    requires
        0 <= k < amounts.len(),
    ensures
        net(amounts.update(k, value)) == net(amounts) - amounts[k] + value,
    decreases amounts.len(),
{
    let changed = amounts.update(k, value);
    if k == amounts.len() - 1 {
        assert(changed.drop_last() =~= amounts.drop_last());
    } else {
        lemma_net_update(amounts.drop_last(), k, value);
        assert(changed.drop_last() =~= amounts.drop_last().update(k, value));
    }
}

/// A sequence of zeros sums to zero.
pub proof fn lemma_net_zero(amounts: Seq<i64>)
    requires
        forall|i: int| 0 <= i < amounts.len() ==> amounts[i] == 0,
    ensures
        net(amounts) == 0,
    decreases amounts.len(),
{
    if amounts.len() > 0 {
        lemma_net_zero(amounts.drop_last());
    }
}

/// The amount of the last pair for `user`, zero where there is none.
pub open spec fn last_amount(pairs: Seq<(i64, i64)>, user: i64) -> i64
    decreases pairs.len(),
{
    if pairs.len() == 0 {
        0
    } else if pairs.last().0 == user {
        pairs.last().1
    } else {
        last_amount(pairs.drop_last(), user)
    }
}

/// One balance for each user of an ascending set of users.
#[derive(Debug)]
pub struct Balances {
    users: UserSet,
    amounts: Vec<i64>,
}

impl View for Balances {
    type V = Map<i64, i64>;

    /// The balance of each user that has one.
    open spec fn view(&self) -> Map<i64, i64> {
        Map::new(
            |user: i64| self.ids().contains(user),
            |user: i64| self.amounts()[self.ids().index_of(user)],
        )
    }
}

impl Balances {
    /// The users that have a balance, from the smallest identifier up.
    pub closed spec fn ids(&self) -> Seq<i64> {
        self.users@
    }

    /// The balances, in the order of `ids`.
    pub closed spec fn amounts(&self) -> Seq<i64> {
        self.amounts@
    }

    /// The users are in ascending order and each has one balance.
    #[verifier::type_invariant]
    pub open spec fn well_formed(&self) -> bool {
        ascending(self.ids()) && self.ids().len() == self.amounts().len()
    }

    /// The balance of `user`, zero for a user without one.
    pub open spec fn balance_of(&self, user: i64) -> int {
        if self.ids().contains(user) {
            self.amounts()[self.ids().index_of(user)] as int
        } else {
            0
        }
    }

    /// Gives each of `users` the balance zero.
    pub fn zeroed(users: UserSet) -> (balances: Balances)
        ensures
            balances.ids() == users@,
            balances.amounts().len() == users@.len(),
            forall|i: int| 0 <= i < users@.len() ==> balances.amounts()[i] == 0,
            net(balances.amounts()) == 0,
    {
        proof {
            use_type_invariant(&users);
        }
        let mut amounts: Vec<i64> = Vec::new();
        let n = users.len();
        while amounts.len() < n
            invariant
                n == users@.len(),
                amounts@.len() <= n,
                forall|i: int| 0 <= i < amounts@.len() ==> amounts@[i] == 0,
            decreases n - amounts@.len(),
        {
            amounts.push(0);
        }
        proof {
            lemma_net_zero(amounts@);
        }
        Balances { users, amounts }
    }

    /// The balances that `pairs` of user and amount give: one balance for
    /// each user that a pair names, and where several pairs name one user,
    /// the amount of the last of them.
    pub fn from_pairs(pairs: Vec<(i64, i64)>) -> (balances: Balances)
        ensures
            ascending(balances.ids()),
            balances.ids().len() == balances.amounts().len(),
            forall|user: i64|
                balances.ids().contains(user) <==> exists|i: int|
                    0 <= i < pairs@.len() && (#[trigger] pairs@[i]).0 == user,
            forall|i: int|
                0 <= i < balances.ids().len() ==> #[trigger] balances.amounts()[i] == last_amount(
                    pairs@,
                    balances.ids()[i],
                ),
    {
        let mut names: Vec<i64> = Vec::new();
        let mut i: usize = 0;
        while i < pairs.len()
            invariant
                i <= pairs@.len(),
                names@.len() == i,
                forall|j: int| 0 <= j < i ==> names@[j] == (#[trigger] pairs@[j]).0,
            decreases pairs@.len() - i,
        {
            names.push(pairs[i].0);
            i += 1;
        }
        let users = UserSet::from_vec(names);
        assert forall|user: i64| users@.contains(user) <==> exists|i: int|
            0 <= i < pairs@.len() && (#[trigger] pairs@[i]).0 == user by {
            if names@.contains(user) {
                let j = choose|j: int| 0 <= j < names@.len() && names@[j] == user;
                assert(pairs@[j].0 == user);
            }
            if exists|i: int| 0 <= i < pairs@.len() && (#[trigger] pairs@[i]).0 == user {
                let j = choose|j: int| 0 <= j < pairs@.len() && (#[trigger] pairs@[j]).0 == user;
                assert(names@[j] == user);
            }
        }
        let mut balances = Balances::zeroed(users);
        let mut i: usize = 0;
        while i < pairs.len()
            invariant
                i <= pairs@.len(),
                balances.ids() == users@,
                ascending(balances.ids()),
                balances.ids().len() == balances.amounts().len(),
                forall|j: int| 0 <= j < pairs@.len() ==> users@.contains((#[trigger] pairs@[j]).0),
                forall|j: int|
                    0 <= j < balances.ids().len() ==> #[trigger] balances.amounts()[j]
                        == last_amount(pairs@.take(i as int), balances.ids()[j]),
            decreases pairs@.len() - i,
        {
            let (user, amount) = pairs[i];
            assert(users@.contains(pairs@[i as int].0));
            let ghost before = balances.amounts();
            let ghost ids = balances.ids();
            let ghost place = ids.index_of(user);
            balances.put(user, amount);
            proof {
                assert(pairs@.take(i + 1).drop_last() =~= pairs@.take(i as int));
                assert forall|j: int| 0 <= j < ids.len() implies #[trigger] balances.amounts()[j]
                    == last_amount(pairs@.take(i + 1), ids[j]) by {
                    if ids[j] == user {
                        assert(0 <= place < ids.len() && ids[place] == user);
                        assert(j == place);
                    } else {
                        assert(before[j] == last_amount(pairs@.take(i as int), ids[j]));
                    }
                }
            }
            i += 1;
        }
        assert(pairs@.take(pairs@.len() as int) =~= pairs@);
        balances
    }

    /// How many users have a balance.
    pub fn len(&self) -> (n: usize)
        ensures
            n == self.ids().len(),
            n == self.amounts().len(),
    {
        proof {
            use_type_invariant(self);
        }
        self.amounts.len()
    }

    /// The user at place `i` of the ascending order.
    pub fn user(&self, i: usize) -> (id: i64)
        requires
            i < self.ids().len(),
        ensures
            id == self.ids()[i as int],
    {
        self.users.get(i)
    }

    /// The balance of the user at place `i` of the ascending order.
    pub fn amount(&self, i: usize) -> (amount: i64)
        requires
            i < self.amounts().len(),
        ensures
            amount == self.amounts()[i as int],
    {
        self.amounts[i]
    }

    /// The balance of `user`, if the user has one.
    pub fn get(&self, user: i64) -> (amount: Option<i64>)
        ensures
            amount == if self.ids().contains(user) {
                Some(self.amounts()[self.ids().index_of(user)])
            } else {
                None
            },
            amount == (if self@.dom().contains(user) {
                Some(self@[user])
            } else {
                None
            }),
    {
        proof {
            use_type_invariant(self);
        }
        match self.users.position(user) {
            Some(place) => Some(self.amounts[place]),
            None => None,
        }
    }

    /// Sets the balance of `user`, who has one, to `amount`.
    pub fn put(&mut self, user: i64, amount: i64)
        requires
            old(self).ids().contains(user),
        ensures
            final(self).ids() == old(self).ids(),
            final(self).amounts() == old(self).amounts().update(
                old(self).ids().index_of(user),
                amount,
            ),
    {
        proof {
            use_type_invariant(&*self);
        }
        match self.users.position(user) {
            Some(place) => {
                self.amounts[place] = amount;
            },
            None => {},
        }
    }

    /// The users with their balances, in ascending order of the users.
    pub fn to_pairs(&self) -> (pairs: Vec<(i64, i64)>)
        ensures
            pairs@.len() == self.ids().len(),
            forall|i: int|
                0 <= i < pairs@.len() ==> #[trigger] pairs@[i] == (
                    self.ids()[i],
                    self.amounts()[i],
                ),
    {
        proof {
            use_type_invariant(self);
        }
        let mut pairs: Vec<(i64, i64)> = Vec::new();
        let mut i: usize = 0;
        while i < self.amounts.len()
            invariant
                i <= self.amounts@.len(),
                self.users@.len() == self.amounts@.len(),
                pairs@.len() == i,
                forall|j: int|
                    0 <= j < i ==> #[trigger] pairs@[j] == (self.users@[j], self.amounts@[j]),
            decreases self.amounts@.len() - i,
        {
            pairs.push((self.users.get(i), self.amounts[i]));
            i += 1;
        }
        pairs
    }
}

} // verus!
