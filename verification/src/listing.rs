//! Puts together what the stores hold: each trip and each expense with its
//! users, the latest first.

use vstd::prelude::*;
use crate::records::{Expense, ExpenseEntry, Trip, TripEntry};
use crate::users::{ascending, UserSet};

verus! {

/// The entry at place `a` comes before the entry at place `b`: its key is
/// greater, or the keys are equal and it was earlier in the store's order.
pub open spec fn comes_before(keys: Seq<i128>, a: int, b: int) -> bool {
    keys[a] > keys[b] || (keys[a] == keys[b] && a < b)
}

/// `order` lists every place of `keys` once, the greatest key first, equal
/// keys in the order of their places.
pub open spec fn is_descending_order(keys: Seq<i128>, order: Seq<usize>) -> bool {
    &&& order.len() == keys.len()
    &&& forall|i: int| 0 <= i < order.len() ==> (#[trigger] order[i]) < keys.len()
    &&& forall|k: usize| k < keys.len() ==> order.contains(k)
    &&& forall|i: int, j: int|
        0 <= i < j < order.len() ==> comes_before(
            keys,
            (#[trigger] order[i]) as int,
            (#[trigger] order[j]) as int,
        )
}

/// The places of `keys`, ordered from the greatest key down; places with
/// equal keys stay in their order.
pub fn descending_order(keys: &Vec<i128>) -> (order: Vec<usize>)
    ensures
        is_descending_order(keys@, order@),
{
    let mut order: Vec<usize> = Vec::new();
    let mut i: usize = 0;
    while i < keys.len()
        invariant
            i <= keys@.len(),
            order@.len() == i,
            forall|p: int| 0 <= p < order@.len() ==> (#[trigger] order@[p]) < i,
            forall|k: usize| k < i ==> order@.contains(k),
            forall|p: int, q: int|
                0 <= p < q < order@.len() ==> comes_before(
                    keys@,
                    (#[trigger] order@[p]) as int,
                    (#[trigger] order@[q]) as int,
                ),
        decreases keys@.len() - i,
    {
        let key = keys[i];
        let mut p: usize = 0;
        while p < order.len() && keys[order[p]] >= key
            invariant
                p <= order@.len(),
                i < keys@.len(),
                key == keys@[i as int],
                forall|q: int| 0 <= q < order@.len() ==> (#[trigger] order@[q]) < i,
                forall|q: int| 0 <= q < p ==> keys@[(#[trigger] order@[q]) as int] >= key,
            decreases order@.len() - p,
        {
            p += 1;
        }
        let ghost before = order@;
        order.insert(p, i);
        proof {
            assert forall|a: int, b: int| 0 <= a < b < order@.len() implies comes_before(
                keys@,
                (#[trigger] order@[a]) as int,
                (#[trigger] order@[b]) as int,
            ) by {
                if b < p {
                    assert(order@[a] == before[a] && order@[b] == before[b]);
                } else if b == p {
                    assert(order@[a] == before[a]);
                    assert(before[a] < i);
                } else if a < p {
                    assert(order@[a] == before[a] && order@[b] == before[b - 1]);
                } else if a == p {
                    assert(order@[b] == before[b - 1]);
                    if b - 1 > p {
                        assert(comes_before(keys@, before[p as int] as int, before[b - 1] as int));
                    }
                } else {
                    assert(order@[a] == before[a - 1] && order@[b] == before[b - 1]);
                }
            }
            assert forall|k: usize| k < i + 1 implies order@.contains(k) by {
                if k < i {
                    assert(before.contains(k));
                    let q = choose|q: int| 0 <= q < before.len() && before[q] == k;
                    if q < p {
                        assert(order@[q] == k);
                    } else {
                        assert(order@[q + 1] == k);
                    }
                } else {
                    assert(order@[p as int] == k);
                }
            }
            assert forall|q: int| 0 <= q < order@.len() implies (#[trigger] order@[q]) < i + 1 by {
                if q < p {
                    assert(order@[q] == before[q]);
                } else if q > p {
                    assert(order@[q] == before[q - 1]);
                }
            }
        }
        i += 1;
    }
    order
}

/// Which pairs the first `k + 1` entries hold: those of the first `k`, and
/// entry `k`.
proof fn lemma_pairs_take(s: Seq<(i64, i64)>, k: int, x: (i64, i64))
    requires
        0 <= k < s.len(),
    ensures
        s.take(k + 1).contains(x) <==> s.take(k).contains(x) || x == s[k],
{
    let short = s.take(k);
    let long = s.take(k + 1);
    if short.contains(x) {
        let j = choose|j: int| 0 <= j < short.len() && short[j] == x;
        assert(long[j] == x);
    }
    if x == s[k] {
        assert(long[k] == x);
    }
    if long.contains(x) {
        let j = choose|j: int| 0 <= j < long.len() && long[j] == x;
        if j < k {
            assert(short[j] == x);
        }
    }
}

/// The users that `links`, pairs of a record and a user, give the record
/// `id`.
pub fn users_linked(links: &Vec<(i64, i64)>, id: i64) -> (users: UserSet)
    ensures
        ascending(users@),
        forall|user: i64| users@.contains(user) <==> links@.contains((id, user)),
{
    let mut names: Vec<i64> = Vec::new();
    let mut k: usize = 0;
    assert(links@.take(0).len() == 0);
    while k < links.len()
        invariant
            k <= links@.len(),
            forall|user: i64| #[trigger]
                names@.contains(user) <==> links@.take(k as int).contains((id, user)),
        decreases links@.len() - k,
    {
        let ghost held = names@;
        let (record, name) = links[k];
        if record == id {
            names.push(name);
        }
        proof {
            assert forall|user: i64| #[trigger]
                names@.contains(user) <==> links@.take(k + 1).contains((id, user)) by {
                lemma_pairs_take(links@, k as int, (id, user));
                assert(held.contains(user) <==> links@.take(k as int).contains((id, user)));
                if record == id {
                    let t = held.push(name);
                    if held.contains(user) {
                        let j = choose|j: int| 0 <= j < held.len() && held[j] == user;
                        assert(t[j] == user);
                    }
                    if user == name {
                        assert(t[held.len() as int] == user);
                    }
                    if t.contains(user) {
                        let j = choose|j: int| 0 <= j < t.len() && t[j] == user;
                        if j < held.len() {
                            assert(held[j] == user);
                        }
                    }
                }
            }
        }
        k += 1;
    }
    assert(links@.take(links@.len() as int) =~= links@);
    UserSet::from_vec(names)
}

/// The users that the record at place `k` of `ids` is given: those that
/// `links` gives its identifier, unless an earlier record has the same
/// identifier and took them.
pub open spec fn given_user(ids: Seq<i64>, links: Seq<(i64, i64)>, k: int, user: i64) -> bool {
    links.contains((ids[k], user)) && forall|j: int| 0 <= j < k ==> ids[j] != ids[k]
}

fn users_given(ids: &Vec<i64>, links: &Vec<(i64, i64)>, k: usize) -> (users: UserSet)
    requires
        k < ids@.len(),
    ensures
        ascending(users@),
        forall|user: i64| users@.contains(user) <==> given_user(ids@, links@, k as int, user),
{
    let mut j: usize = 0;
    while j < k
        invariant
            j <= k,
            k < ids@.len(),
            forall|i: int| 0 <= i < j ==> ids@[i] != ids@[k as int],
        decreases k - j,
    {
        if ids[j] == ids[k] {
            let nobody = UserSet::new();
            proof {
                use_type_invariant(&nobody);
            }
            return nobody;
        }
        j += 1;
    }
    users_linked(links, ids[k])
}

fn copy_text(text: &Option<String>) -> (copy: Option<String>)
    ensures
        copy == *text,
{
    match text {
        Some(s) => Some(s.clone()),
        None => None,
    }
}

/// The identifiers of `entries`, in their order.
pub open spec fn trip_ids(entries: Seq<TripEntry>) -> Seq<i64> {
    Seq::new(entries.len(), |i: int| entries[i].id)
}

/// The keys by which trips are ordered: their end readings.
pub open spec fn trip_keys(entries: Seq<TripEntry>) -> Seq<i128> {
    Seq::new(entries.len(), |i: int| (entries[i].end as u64) as i128)
}

/// `trip` is the entry at place `k` with the users that are given to it, its
/// readings taken as unsigned numbers, and no price yet.
pub open spec fn is_trip_of(
    trip: Trip,
    entries: Seq<TripEntry>,
    links: Seq<(i64, i64)>,
    k: int,
) -> bool {
    &&& trip.id == entries[k].id
    &&& trip.created_at == entries[k].created_at
    &&& trip.start == entries[k].start as u64
    &&& trip.end == entries[k].end as u64
    &&& trip.description == entries[k].description
    &&& trip.price == 0
    &&& ascending(trip.users@)
    &&& forall|user: i64|
        trip.users@.contains(user) <==> given_user(trip_ids(entries), links, k, user)
}

/// The trips of the store with their users, the one with the greatest end
/// reading first. `links` pairs the identifier of a trip with a user of it.
pub fn list_trips(entries: &Vec<TripEntry>, links: &Vec<(i64, i64)>) -> (trips: Vec<Trip>)
    ensures
        trips@.len() == entries@.len(),
        exists|order: Seq<usize>|
            is_descending_order(trip_keys(entries@), order) && forall|i: int|
                0 <= i < trips@.len() ==> is_trip_of(
                    #[trigger] trips@[i],
                    entries@,
                    links@,
                    order[i] as int,
                ),
{
    let mut ids: Vec<i64> = Vec::new();
    let mut keys: Vec<i128> = Vec::new();
    let mut i: usize = 0;
    while i < entries.len()
        invariant
            i <= entries@.len(),
            ids@ =~= trip_ids(entries@).take(i as int),
            keys@ =~= trip_keys(entries@).take(i as int),
        decreases entries@.len() - i,
    {
        ids.push(entries[i].id);
        let end: u64 = #[verifier::truncate]
        (entries[i].end as u64);
        keys.push(end as i128);
        i += 1;
    }
    assert(ids@ =~= trip_ids(entries@));
    assert(keys@ =~= trip_keys(entries@));
    let order = descending_order(&keys);
    let mut trips: Vec<Trip> = Vec::new();
    let mut i: usize = 0;
    while i < order.len()
        invariant
            i <= order@.len(),
            ids@ == trip_ids(entries@),
            is_descending_order(trip_keys(entries@), order@),
            trips@.len() == i,
            forall|j: int|
                0 <= j < i ==> is_trip_of(#[trigger] trips@[j], entries@, links@, order@[j] as int),
        decreases order@.len() - i,
    {
        let k = order[i];
        let entry = &entries[k];
        let users = users_given(&ids, links, k);
        let trip = Trip {
            id: entry.id,
            created_at: entry.created_at,
            start: #[verifier::truncate]
            (entry.start as u64),
            end: #[verifier::truncate]
            (entry.end as u64),
            description: copy_text(&entry.description),
            users,
            price: 0,
        };
        let ghost before = trips@;
        trips.push(trip);
        proof {
            assert forall|j: int| 0 <= j < i + 1 implies is_trip_of(
                #[trigger] trips@[j],
                entries@,
                links@,
                order@[j] as int,
            ) by {
                if j < i {
                    assert(trips@[j] == before[j]);
                }
            }
        }
        i += 1;
    }
    trips
}

/// The identifiers of `entries`, in their order.
pub open spec fn expense_ids(entries: Seq<ExpenseEntry>) -> Seq<i64> {
    Seq::new(entries.len(), |i: int| entries[i].id)
}

/// The keys by which expenses are ordered: their times of entry.
pub open spec fn expense_keys(entries: Seq<ExpenseEntry>) -> Seq<i128> {
    Seq::new(entries.len(), |i: int| entries[i].created_at as i128)
}

/// `expense` is the entry at place `k` with the users that are given to it.
pub open spec fn is_expense_of(
    expense: Expense,
    entries: Seq<ExpenseEntry>,
    links: Seq<(i64, i64)>,
    k: int,
) -> bool {
    &&& expense.id == entries[k].id
    &&& expense.created_at == entries[k].created_at
    &&& expense.amount == entries[k].amount
    &&& expense.description == entries[k].description
    &&& ascending(expense.users@)
    &&& forall|user: i64|
        expense.users@.contains(user) <==> given_user(expense_ids(entries), links, k, user)
}

/// The expenses of the store with their users, the latest first. `links`
/// pairs the identifier of an expense with a user who paid it.
pub fn list_expenses(entries: &Vec<ExpenseEntry>, links: &Vec<(i64, i64)>) -> (expenses: Vec<
    Expense,
>)
    ensures
        expenses@.len() == entries@.len(),
        exists|order: Seq<usize>|
            is_descending_order(expense_keys(entries@), order) && forall|i: int|
                0 <= i < expenses@.len() ==> is_expense_of(
                    #[trigger] expenses@[i],
                    entries@,
                    links@,
                    order[i] as int,
                ),
{
    let mut ids: Vec<i64> = Vec::new();
    let mut keys: Vec<i128> = Vec::new();
    let mut i: usize = 0;
    while i < entries.len()
        invariant
            i <= entries@.len(),
            ids@ =~= expense_ids(entries@).take(i as int),
            keys@ =~= expense_keys(entries@).take(i as int),
        decreases entries@.len() - i,
    {
        ids.push(entries[i].id);
        keys.push(entries[i].created_at as i128);
        i += 1;
    }
    assert(ids@ =~= expense_ids(entries@));
    assert(keys@ =~= expense_keys(entries@));
    let order = descending_order(&keys);
    let mut expenses: Vec<Expense> = Vec::new();
    let mut i: usize = 0;
    while i < order.len()
        invariant
            i <= order@.len(),
            ids@ == expense_ids(entries@),
            is_descending_order(expense_keys(entries@), order@),
            expenses@.len() == i,
            forall|j: int|
                0 <= j < i ==> is_expense_of(
                    #[trigger] expenses@[j],
                    entries@,
                    links@,
                    order@[j] as int,
                ),
        decreases order@.len() - i,
    {
        let k = order[i];
        let entry = &entries[k];
        let users = users_given(&ids, links, k);
        let expense = Expense {
            id: entry.id,
            created_at: entry.created_at,
            amount: entry.amount,
            description: copy_text(&entry.description),
            users,
        };
        let ghost before = expenses@;
        expenses.push(expense);
        proof {
            assert forall|j: int| 0 <= j < i + 1 implies is_expense_of(
                #[trigger] expenses@[j],
                entries@,
                links@,
                order@[j] as int,
            ) by {
                if j < i {
                    assert(expenses@[j] == before[j]);
                }
            }
        }
        i += 1;
    }
    expenses
}

} // verus!
