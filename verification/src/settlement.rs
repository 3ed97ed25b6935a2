//! Turns balances into payments from the users who owe to the users who are
//! owed.
//!
//! The debtors are served in ascending order of their identifiers. Each pays
//! the creditors in ascending order, every one as much as the debtor still
//! owes and the creditor is still owed, until the debt is gone. The number of
//! payments is not the least possible; their order and amounts are fixed.

use vstd::prelude::*;
use crate::balances::{net, Balances};
use crate::users::lemma_ascending_unique;

verus! {

/// An amount of money paid to one user.
#[derive(Debug, Clone, Copy, PartialEq, Eq, Structural)]
pub struct Transfer {
    /// The user who is paid.
    pub to: i64,
    /// The amount, above zero.
    pub amount: i64,
}

/// What one debtor pays, creditor by creditor in ascending order.
#[derive(Debug, Clone, PartialEq, Eq)]
pub struct DebtorPayments {
    /// The user who pays.
    pub debtor: i64,
    /// The payments of that user.
    pub transfers: Vec<Transfer>,
}

impl View for DebtorPayments {
    type V = (i64, Seq<Transfer>);

    open spec fn view(&self) -> (i64, Seq<Transfer>) {
        (self.debtor, self.transfers@)
    }
}

/// The payments of all debtors as plain values.
pub open spec fn ledger(payments: Seq<DebtorPayments>) -> Seq<(i64, Seq<Transfer>)> {
    Seq::new(payments.len(), |i: int| payments[i]@)
}

/// The sum of the amounts of `transfers`.
pub open spec fn paid_out(transfers: Seq<Transfer>) -> int
    decreases transfers.len(),
{
    if transfers.len() == 0 {
        0
    } else {
        paid_out(transfers.drop_last()) + transfers.last().amount
    }
}

/// Where one debtor stands after some creditors were asked.
pub struct Scan {
    /// What each user is still owed (or owes, below zero).
    pub credits: Seq<i64>,
    /// What the debtor still owes.
    pub debt: int,
    /// The payments made so far.
    pub transfers: Seq<Transfer>,
}

/// The debtor who owes `debt` has asked the first `asked` users of `ids`,
/// who are owed `credits`: each of them who is still owed something was paid
/// the smaller of the remaining debt and what that user is owed, as long as
/// the debt lasted.
pub open spec fn scan(ids: Seq<i64>, credits: Seq<i64>, debt: int, asked: int) -> Scan
    decreases asked,
{
    if asked <= 0 {
        Scan { credits, debt, transfers: Seq::empty() }
    } else {
        let prev = scan(ids, credits, debt, asked - 1);
        let credit = prev.credits[asked - 1];
        if prev.debt > 0 && credit > 0 {
            let payment = if prev.debt < credit {
                prev.debt
            } else {
                credit as int
            };
            Scan {
                credits: prev.credits.update(asked - 1, (credit - payment) as i64),
                debt: prev.debt - payment,
                transfers: prev.transfers.push(
                    Transfer { to: ids[asked - 1], amount: payment as i64 },
                ),
            }
        } else {
            prev
        }
    }
}

/// Where the settlement stands after some users were served.
pub struct Progress {
    /// What each user is still owed (or owes, below zero).
    pub credits: Seq<i64>,
    /// The payments of the debtors served so far.
    pub entries: Seq<(i64, Seq<Transfer>)>,
}

/// The settlement after the first `served` users of `ids` had their turn:
/// each of them with a balance below zero has paid the creditors.
pub open spec fn settle_upto(ids: Seq<i64>, amounts: Seq<i64>, served: int) -> Progress
    decreases served,
{
    if served <= 0 {
        Progress { credits: amounts, entries: Seq::empty() }
    } else {
        let prev = settle_upto(ids, amounts, served - 1);
        if amounts[served - 1] < 0 {
            let done = scan(ids, prev.credits, -amounts[served - 1], ids.len() as int);
            Progress {
                credits: done.credits,
                entries: prev.entries.push((ids[served - 1], done.transfers)),
            }
        } else {
            prev
        }
    }
}

/// The payments that come of serving every user of `ids` in turn: one entry
/// for each user with a balance below zero, in the order of `ids`.
pub open spec fn greedy_settlement(ids: Seq<i64>, amounts: Seq<i64>) -> Seq<(i64, Seq<Transfer>)> {
    settle_upto(ids, amounts, ids.len() as int).entries
}

/// What the first `k` users are owed together: the sum of their balances
/// above zero.
pub open spec fn credit_before(amounts: Seq<i64>, k: int) -> int
    decreases k,
{
    if k <= 0 {
        0
    } else {
        credit_before(amounts, k - 1) + if amounts[k - 1] > 0 {
            amounts[k - 1] as int
        } else {
            0
        }
    }
}

/// The length of what the ranges from `a0` to `a1` and from `b0` to `b1`
/// have in common.
pub open spec fn overlap(a0: int, a1: int, b0: int, b1: int) -> int {
    let low = if a0 > b0 {
        a0
    } else {
        b0
    };
    let high = if a1 < b1 {
        a1
    } else {
        b1
    };
    if high > low {
        high - low
    } else {
        0
    }
}

/// What the user at place `d` pays to the user at place `c`. Lay the debts
/// end to end on one line, in the order of the users, and the credits on
/// another: a debtor pays a creditor the length that their two stretches
/// have in common.
pub open spec fn payment(amounts: Seq<i64>, d: int, c: int) -> int {
    if amounts[d] < 0 && amounts[c] > 0 {
        overlap(
            debt_before(amounts, d),
            debt_before(amounts, d + 1),
            credit_before(amounts, c),
            credit_before(amounts, c + 1),
        )
    } else {
        0
    }
}

/// What the user at place `c` is still owed when the first `d` users were
/// served: the balance less what the debts of those users cover of it.
pub open spec fn credit_left(amounts: Seq<i64>, d: int, c: int) -> int {
    if amounts[c] > 0 {
        amounts[c] - overlap(
            0,
            debt_before(amounts, d),
            credit_before(amounts, c),
            credit_before(amounts, c + 1),
        )
    } else {
        amounts[c] as int
    }
}

/// The payments of the user at place `d` to the first `k` users: one for
/// each of them who gets an amount above zero.
pub open spec fn transfers_to(ids: Seq<i64>, amounts: Seq<i64>, d: int, k: int) -> Seq<Transfer>
    decreases k,
{
    if k <= 0 {
        Seq::empty()
    } else {
        let prev = transfers_to(ids, amounts, d, k - 1);
        if payment(amounts, d, k - 1) > 0 {
            prev.push(Transfer { to: ids[k - 1], amount: payment(amounts, d, k - 1) as i64 })
        } else {
            prev
        }
    }
}

/// The entries of the debtors among the first `k` users.
pub open spec fn entries_of(ids: Seq<i64>, amounts: Seq<i64>, k: int) -> Seq<(i64, Seq<Transfer>)>
    decreases k,
{
    if k <= 0 {
        Seq::empty()
    } else {
        let prev = entries_of(ids, amounts, k - 1);
        if amounts[k - 1] < 0 {
            prev.push((ids[k - 1], transfers_to(ids, amounts, k - 1, ids.len() as int)))
        } else {
            prev
        }
    }
}

/// The payments that settle `amounts`, the balances of `ids`: one entry for
/// each user with a balance below zero, in the order of `ids`, and in it one
/// payment for each creditor whom that user pays, in the order of `ids`.
pub open spec fn settlement(ids: Seq<i64>, amounts: Seq<i64>) -> Seq<(i64, Seq<Transfer>)> {
    entries_of(ids, amounts, ids.len() as int)
}

/// The sum of the amounts above zero: what the creditors are owed together.
pub open spec fn credit_sum(credits: Seq<i64>) -> int
    decreases credits.len(),
{
    if credits.len() == 0 {
        0
    } else {
        credit_sum(credits.drop_last()) + if credits.last() > 0 {
            credits.last() as int
        } else {
            0
        }
    }
}

/// What the first `k` users owe together: the sum of their balances below
/// zero, as a number above zero.
pub open spec fn debt_before(amounts: Seq<i64>, k: int) -> int
    decreases k,
{
    if k <= 0 {
        0
    } else {
        debt_before(amounts, k - 1) + if amounts[k - 1] < 0 {
            -amounts[k - 1]
        } else {
            0
        }
    }
}

/// How many of the first `k` users have a balance below zero.
pub open spec fn debtors_before(amounts: Seq<i64>, k: int) -> int
    decreases k,
{
    if k <= 0 {
        0
    } else {
        debtors_before(amounts, k - 1) + if amounts[k - 1] < 0 {
            1int
        } else {
            0
        }
    }
}

proof fn lemma_credit_sum_nonneg(credits: Seq<i64>)
    ensures
        credit_sum(credits) >= 0,
    decreases credits.len(),
{
    if credits.len() > 0 {
        lemma_credit_sum_nonneg(credits.drop_last());
    }
}

proof fn lemma_credit_sum_update(credits: Seq<i64>, k: int, value: i64)
    requires
        0 <= k < credits.len(),
        credits[k] > 0,
        value >= 0,
    ensures
        credit_sum(credits.update(k, value)) == credit_sum(credits) - credits[k] + value,
    decreases credits.len(),
{
    let changed = credits.update(k, value);
    if k == credits.len() - 1 {
        assert(changed.drop_last() =~= credits.drop_last());
    } else {
        lemma_credit_sum_update(credits.drop_last(), k, value);
        assert(changed.drop_last() =~= credits.drop_last().update(k, value));
    }
}

/// What a scan keeps: no credit grows or falls below zero, the debt falls by
/// what was paid, and the credits fall by the same. While a debt is left,
/// nothing is left of the credits that were asked.
pub proof fn lemma_scan(ids: Seq<i64>, credits: Seq<i64>, debt: int, asked: int)
    requires
        debt >= 0,
        0 <= asked <= credits.len(),
    ensures
        ({
            let s = scan(ids, credits, debt, asked);
            &&& s.credits.len() == credits.len()
            &&& 0 <= s.debt <= debt
            &&& s.debt + paid_out(s.transfers) == debt
            &&& credit_sum(s.credits) + paid_out(s.transfers) == credit_sum(credits)
            &&& s.debt > 0 ==> credit_sum(s.credits.take(asked)) == 0
            &&& forall|j: int| asked <= j < credits.len() ==> s.credits[j] == credits[j]
            &&& forall|j: int|
                0 <= j < credits.len() && credits[j] <= 0 ==> s.credits[j] == credits[j]
            &&& forall|j: int|
                0 <= j < credits.len() && credits[j] > 0 ==> 0 <= s.credits[j] <= credits[j]
            &&& forall|j: int| 0 <= j < s.transfers.len() ==> (#[trigger] s.transfers[j]).amount > 0
        }),
    decreases asked,
{
    let s = scan(ids, credits, debt, asked);
    if asked > 0 {
        lemma_scan(ids, credits, debt, asked - 1);
        let prev = scan(ids, credits, debt, asked - 1);
        let credit = prev.credits[asked - 1];
        assert(credit == credits[asked - 1]);
        if prev.debt > 0 && credit > 0 {
            let payment = if prev.debt < credit {
                prev.debt
            } else {
                credit as int
            };
            let left = (credit - payment) as i64;
            lemma_credit_sum_update(prev.credits, asked - 1, left);
            assert(s.transfers.drop_last() =~= prev.transfers);
            assert(s.credits.take(asked).drop_last() =~= prev.credits.take(asked - 1));
        } else {
            assert(s.credits.take(asked).drop_last() =~= prev.credits.take(asked - 1));
        }
    } else {
        assert(s.credits.take(0).len() == 0);
    }
}

/// Once the debt is gone, asking more creditors changes nothing.
pub proof fn lemma_scan_settled(ids: Seq<i64>, credits: Seq<i64>, debt: int, asked: int, more: int)
    requires
        0 <= asked <= more,
        scan(ids, credits, debt, asked).debt <= 0,
    ensures
        scan(ids, credits, debt, more) == scan(ids, credits, debt, asked),
    decreases more,
{
    if more > asked {
        lemma_scan_settled(ids, credits, debt, asked, more - 1);
    }
}

/// A debtor who owes no more than the creditors are owed together pays the
/// whole debt.
pub proof fn lemma_scan_pays_in_full(ids: Seq<i64>, credits: Seq<i64>, debt: int)
    requires
        0 <= debt <= credit_sum(credits),
    ensures
        paid_out(scan(ids, credits, debt, credits.len() as int).transfers) == debt,
        credit_sum(scan(ids, credits, debt, credits.len() as int).credits) == credit_sum(credits)
            - debt,
{
    let s = scan(ids, credits, debt, credits.len() as int);
    lemma_scan(ids, credits, debt, credits.len() as int);
    assert(s.credits.take(credits.len() as int) =~= s.credits);
    lemma_credit_sum_nonneg(s.credits);
}

/// The balances sum to what the creditors are owed less what the debtors owe.
pub proof fn lemma_net_split(amounts: Seq<i64>)
    ensures
        net(amounts) == credit_sum(amounts) - debt_before(amounts, amounts.len() as int),
    decreases amounts.len(),
{
    if amounts.len() > 0 {
        lemma_net_split(amounts.drop_last());
        lemma_debt_before_prefix(amounts, amounts.drop_last(), amounts.len() - 1);
    }
}

proof fn lemma_debt_before_prefix(amounts: Seq<i64>, prefix: Seq<i64>, k: int)
    requires
        0 <= k <= prefix.len() <= amounts.len(),
        forall|j: int| 0 <= j < prefix.len() ==> prefix[j] == amounts[j],
    ensures
        debt_before(prefix, k) == debt_before(amounts, k),
    decreases k,
{
    if k > 0 {
        lemma_debt_before_prefix(amounts, prefix, k - 1);
    }
}

proof fn lemma_debt_before_monotone(amounts: Seq<i64>, k: int, n: int)
    requires
        0 <= k <= n,
    ensures
        0 <= debt_before(amounts, k) <= debt_before(amounts, n),
    decreases n,
{
    if n > k {
        lemma_debt_before_monotone(amounts, k, n - 1);
    } else if k > 0 {
        lemma_debt_before_monotone(amounts, k - 1, k - 1);
    }
}

/// While the creditors are owed at least what the debtors owe, every debtor
/// served so far has paid the whole debt, and the creditors are still owed
/// the rest.
pub proof fn lemma_settle_upto(ids: Seq<i64>, amounts: Seq<i64>, served: int)
    requires
        ids.len() == amounts.len(),
        0 <= served <= amounts.len(),
        debt_before(amounts, amounts.len() as int) <= credit_sum(amounts),
    ensures
        ({
            let p = settle_upto(ids, amounts, served);
            &&& p.credits.len() == amounts.len()
            &&& credit_sum(p.credits) == credit_sum(amounts) - debt_before(amounts, served)
            &&& p.entries.len() == debtors_before(amounts, served)
            &&& forall|d: int|
                0 <= d < served && amounts[d] < 0 ==> {
                    let entry = p.entries[#[trigger] debtors_before(amounts, d)];
                    entry.0 == ids[d] && paid_out(entry.1) == -amounts[d]
                }
            &&& forall|d: int|
                0 <= d <= served ==> 0 <= #[trigger] debtors_before(amounts, d) <= p.entries.len()
            &&& forall|d: int|
                0 <= d < served && amounts[d] < 0 ==> #[trigger] debtors_before(amounts, d)
                    < p.entries.len()
        }),
    decreases served,
{
    let p = settle_upto(ids, amounts, served);
    if served > 0 {
        lemma_settle_upto(ids, amounts, served - 1);
        let prev = settle_upto(ids, amounts, served - 1);
        lemma_debt_before_monotone(amounts, served, amounts.len() as int);
        lemma_debt_before_monotone(amounts, served - 1, served);
        if amounts[served - 1] < 0 {
            let debt = -amounts[served - 1];
            lemma_scan_pays_in_full(ids, prev.credits, debt);
            lemma_scan(ids, prev.credits, debt, prev.credits.len() as int);
            assert forall|d: int| 0 <= d < served && amounts[d] < 0 implies {
                let entry = p.entries[#[trigger] debtors_before(amounts, d)];
                entry.0 == ids[d] && paid_out(entry.1) == -amounts[d]
            } by {
                if d < served - 1 {
                    assert(debtors_before(amounts, d) < prev.entries.len());
                    assert(p.entries[debtors_before(amounts, d)]
                        == prev.entries[debtors_before(amounts, d)]);
                }
            }
        }
    }
}

proof fn lemma_credit_before_monotone(amounts: Seq<i64>, k: int, n: int)
    requires
        0 <= k <= n,
    ensures
        0 <= credit_before(amounts, k) <= credit_before(amounts, n),
    decreases n,
{
    if n > k {
        lemma_credit_before_monotone(amounts, k, n - 1);
    } else if k > 0 {
        lemma_credit_before_monotone(amounts, k - 1, k - 1);
    }
}

/// One creditor asked by one debtor, in numbers: `debts` is owed by the
/// debtors before, `owed` by this one; `credits` is owed to the creditors
/// before, `credit` to this one.
proof fn lemma_pay_step(debts: int, owed: int, credits: int, credit: int)
    requires
        debts >= 0,
        owed > 0,
        credits >= 0,
        credit > 0,
    ensures
        ({
            let debt_left = if owed - overlap(debts, debts + owed, 0, credits) > 0 {
                owed - overlap(debts, debts + owed, 0, credits)
            } else {
                0
            };
            let still_owed = credit - overlap(0, debts, credits, credits + credit);
            let paid = if debt_left > 0 && still_owed > 0 {
                if debt_left < still_owed {
                    debt_left
                } else {
                    still_owed
                }
            } else {
                0
            };
            &&& paid == overlap(debts, debts + owed, credits, credits + credit)
            &&& 0 <= still_owed <= credit
            &&& still_owed - paid == credit - overlap(
                0,
                debts + owed,
                credits,
                credits + credit,
            )
            &&& debt_left - paid == owed - overlap(debts, debts + owed, 0, credits + credit)
            &&& debt_left - paid >= 0
        }),
{
}

/// A scan pays what the two lines of debts and credits give: the debtor at
/// place `d` pays each creditor the stretch that the two have in common.
proof fn lemma_scan_closed_form(ids: Seq<i64>, amounts: Seq<i64>, start: Seq<i64>, d: int, k: int)
    requires
        ids.len() == amounts.len(),
        start.len() == amounts.len(),
        0 <= d < amounts.len(),
        amounts[d] < 0,
        0 <= k <= amounts.len(),
        forall|c: int| 0 <= c < amounts.len() ==> #[trigger] start[c] == credit_left(amounts, d, c),
    ensures
        ({
            let s = scan(ids, start, -amounts[d], k);
            &&& s.credits.len() == amounts.len()
            &&& s.debt == -amounts[d] - overlap(
                debt_before(amounts, d),
                debt_before(amounts, d + 1),
                0,
                credit_before(amounts, k),
            )
            &&& s.debt >= 0
            &&& forall|c: int|
                0 <= c < k ==> #[trigger] s.credits[c] == credit_left(amounts, d + 1, c)
            &&& forall|c: int| k <= c < amounts.len() ==> #[trigger] s.credits[c] == start[c]
            &&& s.transfers == transfers_to(ids, amounts, d, k)
        }),
    decreases k,
{
    let owed = -amounts[d];
    let debts = debt_before(amounts, d);
    lemma_debt_before_monotone(amounts, d, d);
    assert(debt_before(amounts, d + 1) == debts + owed);
    let s = scan(ids, start, owed, k);
    if k > 0 {
        lemma_scan_closed_form(ids, amounts, start, d, k - 1);
        let prev = scan(ids, start, owed, k - 1);
        let credits = credit_before(amounts, k - 1);
        lemma_credit_before_monotone(amounts, k - 1, k - 1);
        let a = amounts[k - 1];
        assert(prev.credits[k - 1] == start[k - 1]);
        assert(start[k - 1] == credit_left(amounts, d, k - 1));
        if a > 0 {
            assert(credit_before(amounts, k) == credits + a);
            lemma_pay_step(debts, owed, credits, a as int);
            assert(payment(amounts, d, k - 1) == overlap(
                debts,
                debts + owed,
                credits,
                credits + a,
            ));
            assert(credit_left(amounts, d + 1, k - 1) == a - overlap(
                0,
                debts + owed,
                credits,
                credits + a,
            ));
        } else {
            assert(credit_before(amounts, k) == credits);
            assert(payment(amounts, d, k - 1) == 0);
        }
        assert forall|c: int| 0 <= c < k implies #[trigger] s.credits[c] == credit_left(
            amounts,
            d + 1,
            c,
        ) by {
            if c < k - 1 {
                assert(prev.credits[c] == credit_left(amounts, d + 1, c));
            }
        }
        assert forall|c: int| k <= c < amounts.len() implies #[trigger] s.credits[c] == start[c] by {
            assert(prev.credits[c] == start[c]);
        }
    } else {
        assert(credit_before(amounts, 0) == 0);
    }
}

/// Serving the users in turn leaves every creditor with what the lines of
/// debts and credits give, and makes the entries that they give.
proof fn lemma_settle_closed_form(ids: Seq<i64>, amounts: Seq<i64>, served: int)
    requires
        ids.len() == amounts.len(),
        0 <= served <= amounts.len(),
    ensures
        settle_upto(ids, amounts, served).credits.len() == amounts.len(),
        forall|c: int|
            0 <= c < amounts.len() ==> #[trigger] settle_upto(ids, amounts, served).credits[c]
                == credit_left(amounts, served, c),
        settle_upto(ids, amounts, served).entries == entries_of(ids, amounts, served),
    decreases served,
{
    let p = settle_upto(ids, amounts, served);
    if served > 0 {
        lemma_settle_closed_form(ids, amounts, served - 1);
        let prev = settle_upto(ids, amounts, served - 1);
        if amounts[served - 1] < 0 {
            lemma_scan_closed_form(
                ids,
                amounts,
                prev.credits,
                served - 1,
                amounts.len() as int,
            );
        } else {
            assert(debt_before(amounts, served) == debt_before(amounts, served - 1));
        }
    } else {
        assert(debt_before(amounts, 0) == 0);
    }
}

/// Serving the debtors in turn, each paying the creditors in turn, gives
/// exactly the payments of the settlement.
pub proof fn lemma_greedy_is_settlement(ids: Seq<i64>, amounts: Seq<i64>)
    requires
        ids.len() == amounts.len(),
    ensures
        greedy_settlement(ids, amounts) == settlement(ids, amounts),
{
    lemma_settle_closed_form(ids, amounts, amounts.len() as int);
}

/// Where the balances sum to zero, every debtor pays exactly what the
/// debtor owes: the entry of the user at place `d`, whose balance is below
/// zero, names that user, and its payments sum to the balance without its
/// sign. The entries are those of the users with a balance below zero, in
/// their order.
pub proof fn lemma_debtors_pay_in_full(ids: Seq<i64>, amounts: Seq<i64>, d: int)
    requires
        ids.len() == amounts.len(),
        net(amounts) == 0,
        0 <= d < amounts.len(),
        amounts[d] < 0,
    ensures
        settlement(ids, amounts).len() == debtors_before(amounts, amounts.len() as int),
        0 <= debtors_before(amounts, d) < settlement(ids, amounts).len(),
        settlement(ids, amounts)[debtors_before(amounts, d)].0 == ids[d],
        paid_out(settlement(ids, amounts)[debtors_before(amounts, d)].1) == -amounts[d],
{
    lemma_net_split(amounts);
    lemma_settle_upto(ids, amounts, amounts.len() as int);
    lemma_greedy_is_settlement(ids, amounts);
}

/// What the user at place `c` gets from the first `k` users together.
pub open spec fn received(amounts: Seq<i64>, c: int, k: int) -> int
    decreases k,
{
    if k <= 0 {
        0
    } else {
        received(amounts, c, k - 1) + payment(amounts, k - 1, c)
    }
}

/// No creditor gets more than the creditor is owed: what the user at place
/// `c` gets from the first `k` users and what is then left of the credit
/// make up the balance of that user.
pub proof fn lemma_creditor_receives(amounts: Seq<i64>, c: int, k: int)
    requires
        0 <= c < amounts.len(),
        0 <= k <= amounts.len(),
    ensures
        0 <= received(amounts, c, k),
        amounts[c] > 0 ==> received(amounts, c, k) + credit_left(amounts, k, c) == amounts[c],
        amounts[c] > 0 ==> received(amounts, c, k) <= amounts[c],
        amounts[c] <= 0 ==> received(amounts, c, k) == 0,
    decreases k,
{
    lemma_credit_before_monotone(amounts, c, c + 1);
    lemma_debt_before_monotone(amounts, k, k);
    if k > 0 {
        lemma_creditor_receives(amounts, c, k - 1);
        lemma_debt_before_monotone(amounts, k - 1, k);
    }
}

proof fn lemma_credit_sum_is_credit_before(amounts: Seq<i64>, k: int)
    requires
        0 <= k <= amounts.len(),
    ensures
        credit_sum(amounts.take(k)) == credit_before(amounts, k),
    decreases k,
{
    if k > 0 {
        lemma_credit_sum_is_credit_before(amounts, k - 1);
        assert(amounts.take(k).drop_last() =~= amounts.take(k - 1));
    }
}

/// Where the balances sum to zero, every creditor gets exactly what the
/// creditor is owed.
pub proof fn lemma_creditors_are_paid(amounts: Seq<i64>, c: int)
    requires
        net(amounts) == 0,
        0 <= c < amounts.len(),
        amounts[c] > 0,
    ensures
        received(amounts, c, amounts.len() as int) == amounts[c],
        credit_left(amounts, amounts.len() as int, c) == 0,
{
    let n = amounts.len() as int;
    lemma_net_split(amounts);
    lemma_credit_sum_is_credit_before(amounts, n);
    assert(amounts.take(n) =~= amounts);
    lemma_credit_before_monotone(amounts, c + 1, n);
    lemma_credit_before_monotone(amounts, c, c + 1);
    lemma_creditor_receives(amounts, c, n);
}

/// The payments follow from the balances as a map from users to amounts,
/// whichever way the balances were put together: two sets of balances that
/// give every user the same balance have the same users in the same order,
/// the same amounts, and so the same payments.
pub proof fn lemma_payments_follow_the_map(a: Balances, b: Balances)
    requires
        a.well_formed(),
        b.well_formed(),
        a@ == b@,
    ensures
        a.ids() == b.ids(),
        a.amounts() == b.amounts(),
        settlement(a.ids(), a.amounts()) == settlement(b.ids(), b.amounts()),
{
    assert forall|x: i64| a.ids().contains(x) <==> b.ids().contains(x) by {
        assert(a@.dom().contains(x) <==> a.ids().contains(x));
        assert(b@.dom().contains(x) <==> b.ids().contains(x));
    }
    lemma_ascending_unique(a.ids(), b.ids());
    let ids = a.ids();
    assert forall|i: int| 0 <= i < ids.len() implies a.amounts()[i] == b.amounts()[i] by {
        let x = ids[i];
        assert(ids.contains(x));
        let c = ids.index_of(x);
        assert(0 <= c < ids.len() && ids[c] == x);
        assert(c == i);
        assert(a@.dom().contains(x));
        assert(a@[x] == a.amounts()[i]);
        assert(b@[x] == b.amounts()[i]);
    }
    assert(a.amounts() =~= b.amounts());
}

/// Computes the payments that settle the balances. Each user with a balance
/// below zero gets one entry, in ascending order of the users; the entry
/// lists what that user pays to the users who are owed money, in ascending
/// order as well, each payment above zero.
pub fn calculate_payments(balances: &Balances) -> (payments: Vec<DebtorPayments>)
    ensures
        ledger(payments@) == settlement(balances.ids(), balances.amounts()),
{
    proof {
        use_type_invariant(balances);
    }
    let n = balances.len();
    let ghost ids = balances.ids();
    let ghost amounts = balances.amounts();
    let mut credits: Vec<i64> = Vec::new();
    let mut i: usize = 0;
    while i < n
        invariant
            i <= n,
            n == amounts.len(),
            amounts == balances.amounts(),
            credits@ =~= amounts.take(i as int),
        decreases n - i,
    {
        credits.push(balances.amount(i));
        i += 1;
    }
    assert(amounts.take(n as int) =~= amounts);
    let mut payments: Vec<DebtorPayments> = Vec::new();
    let mut d: usize = 0;
    assert(ledger(payments@) =~= Seq::empty());
    while d < n
        invariant
            d <= n,
            n == amounts.len(),
            n == ids.len(),
            ids == balances.ids(),
            amounts == balances.amounts(),
            credits@.len() == n,
            credits@ == settle_upto(ids, amounts, d as int).credits,
            ledger(payments@) == settle_upto(ids, amounts, d as int).entries,
        decreases n - d,
    {
        let amount: i64 = balances.amount(d);
        if amount < 0 {
            let owed: u64 = (0 - amount as i128) as u64;
            let ghost start = credits@;
            let mut debt: u64 = owed;
            let mut transfers: Vec<Transfer> = Vec::new();
            let mut c: usize = 0;
            while c < n && debt > 0
                invariant
                    c <= n,
                    n == start.len(),
                    n == ids.len(),
                    ids == balances.ids(),
                    owed > 0,
                    scan(ids, start, owed as int, c as int) == (Scan {
                        credits: credits@,
                        debt: debt as int,
                        transfers: transfers@,
                    }),
                    credits@.len() == n,
                decreases n - c,
            {
                proof {
                    lemma_scan(ids, start, owed as int, c as int);
                }
                let credit: i64 = credits[c];
                if credit > 0 {
                    let payment: i64 = if debt < credit as u64 {
                        debt as i64
                    } else {
                        credit
                    };
                    credits[c] = credit - payment;
                    debt = debt - payment as u64;
                    transfers.push(Transfer { to: balances.user(c), amount: payment });
                }
                c += 1;
            }
            proof {
                if c < n {
                    lemma_scan_settled(ids, start, owed as int, c as int, n as int);
                }
                assert(ledger(payments@.push(DebtorPayments { debtor: ids[d as int], transfers }))
                    =~= ledger(payments@).push((ids[d as int], transfers@)));
            }
            payments.push(DebtorPayments { debtor: balances.user(d), transfers });
        }
        d += 1;
    }
    proof {
        lemma_greedy_is_settlement(ids, amounts);
    }
    payments
}

} // verus!
