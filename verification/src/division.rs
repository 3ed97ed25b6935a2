//! Integer division of an amount into shares, with a fixed place for the
//! remainder.

use vstd::prelude::*;
use vstd::arithmetic::div_mod::lemma_fundamental_div_mod;

verus! {

/// The sum of a sequence of unsigned amounts.
pub open spec fn total(s: Seq<u64>) -> int
    decreases s.len(),
{
    if s.len() == 0 {
        0
    } else {
        total(s.drop_last()) + s.last()
    }
}

/// The sum of the first `k + 1` entries is the sum of the first `k` plus entry `k`.
pub proof fn lemma_total_take(s: Seq<u64>, k: int)
    requires
        0 <= k < s.len(),
    ensures
        total(s.take(k + 1)) == total(s.take(k)) + s[k],
{
    assert(s.take(k + 1).drop_last() =~= s.take(k));
}

/// Replacing one entry changes the sum by the difference.
pub proof fn lemma_total_update(s: Seq<u64>, k: int, value: u64)
    requires
        0 <= k < s.len(),
    ensures
        total(s.update(k, value)) == total(s) - s[k] + value,
    decreases s.len(),
{
    let changed = s.update(k, value);
    if k == s.len() - 1 {
        assert(changed.drop_last() =~= s.drop_last());
    } else {
        lemma_total_update(s.drop_last(), k, value);
        assert(changed.drop_last() =~= s.drop_last().update(k, value));
    }
}

/// A sum of `u64` entries is at least zero and at most `u64::MAX` per entry.
pub proof fn lemma_total_bounds(s: Seq<u64>)
    ensures
        0 <= total(s) <= s.len() * 0xffff_ffff_ffff_ffff,
    decreases s.len(),
{
    if s.len() > 0 {
        lemma_total_bounds(s.drop_last());
        assert((s.len() - 1) * 0xffff_ffff_ffff_ffff + 0xffff_ffff_ffff_ffff
            == s.len() * 0xffff_ffff_ffff_ffff) by (nonlinear_arith);
    }
}

/// Share number `i` of `amount` split among `n`: the quotient, and on the
/// first share the whole remainder on top.
pub open spec fn equal_share(amount: u64, n: int, i: int) -> int {
    if n <= 0 {
        0
    } else if i == 0 {
        amount as int / n + amount as int % n
    } else {
        amount as int / n
    }
}

/// The `n` shares of `amount`, in order.
pub open spec fn equal_shares(amount: u64, n: u64) -> Seq<u64> {
    Seq::new(n as nat, |i: int| equal_share(amount, n as int, i) as u64)
}

/// Every share of an equal split lies between zero and the amount.
pub proof fn lemma_equal_share_bounds(amount: u64, n: int, i: int)
    ensures
        0 <= equal_share(amount, n, i) <= amount,
{
    if n > 0 {
        lemma_fundamental_div_mod(amount as int, n);
        assert(0 <= amount as int / n <= amount && 0 <= amount as int % n < n && amount as int / n
            + amount as int % n <= amount) by (nonlinear_arith)
            requires
                n > 0,
                amount >= 0,
                amount as int == n * (amount as int / n) + amount as int % n,
        ;
    }
}

/// The first `k` shares of an equal split sum to `k` quotients plus the
/// remainder; all `n` of them sum to the amount.
pub proof fn lemma_equal_shares_total(amount: u64, n: u64, k: int)
    requires
        n >= 1,
        0 <= k <= n,
    ensures
        total(equal_shares(amount, n).take(k)) == if k == 0 {
            0
        } else {
            k * (amount as int / n as int) + amount as int % n as int
        },
        k == n ==> total(equal_shares(amount, n).take(k)) == amount,
    decreases k,
{
    let shares = equal_shares(amount, n);
    if k > 0 {
        lemma_equal_shares_total(amount, n, k - 1);
        lemma_total_take(shares, k - 1);
        lemma_equal_share_bounds(amount, n as int, k - 1);
        let q = amount as int / n as int;
        assert((k - 1) * q + q == k * q) by (nonlinear_arith);
        if k == n {
            lemma_fundamental_div_mod(amount as int, n as int);
        }
    }
}

/// An equal split of any amount among any number of at least one has
/// exactly that many shares; they sum to the amount; the first is the
/// quotient and the whole remainder, and every other share the quotient.
pub proof fn lemma_equal_split(amount: u64, n: u64)
    requires
        n >= 1,
    ensures
        equal_shares(amount, n).len() == n,
        total(equal_shares(amount, n)) == amount,
        equal_shares(amount, n)[0] == amount / n + amount % n,
        forall|i: int| 1 <= i < n ==> #[trigger] equal_shares(amount, n)[i] == amount / n,
{
    lemma_equal_shares_total(amount, n, n as int);
    assert(equal_shares(amount, n).take(n as int) =~= equal_shares(amount, n));
    lemma_equal_share_bounds(amount, n as int, 0);
    lemma_equal_share_bounds(amount, n as int, 1);
}

/// Splits `amount` into `n` shares that sum to `amount`. Every share is the
/// quotient `amount / n`; the remainder `amount % n` goes on top of the first.
pub fn divide_equally(amount: u64, n: u64) -> (shares: Vec<u64>)
    requires
        n >= 1,
    ensures
        shares@ == equal_shares(amount, n),
        shares@.len() == n,
        shares@[0] == amount / n + amount % n,
        forall|i: int| 1 <= i < n ==> shares@[i] == amount / n,
        total(shares@) == amount,
{
    let part: u64 = amount / n;
    let remainder: u64 = amount % n;
    proof {
        lemma_equal_share_bounds(amount, n as int, 0);
        lemma_equal_share_bounds(amount, n as int, 1);
    }
    let mut shares: Vec<u64> = Vec::new();
    shares.push(part + remainder);
    let mut i: u64 = 1;
    while i < n
        invariant
            1 <= i <= n,
            part == amount / n,
            shares@.len() == i,
            shares@ =~= equal_shares(amount, n).take(i as int),
        decreases n - i,
    {
        shares.push(part);
        i += 1;
    }
    proof {
        assert(equal_shares(amount, n).take(n as int) =~= equal_shares(amount, n));
        lemma_equal_shares_total(amount, n, n as int);
    }
    shares
}

/// The share of `numerator` that falls to `weight` out of `sum` of all
/// weights, rounded down. With no weight at all every share is zero.
pub open spec fn proportional_share(numerator: u64, weight: u64, sum: int) -> int {
    if sum <= 0 {
        0
    } else {
        (numerator as int * weight as int) / sum
    }
}

/// The shares of `numerator` for each of `weights`, in order.
pub open spec fn proportional_shares(numerator: u64, weights: Seq<u64>) -> Seq<u64> {
    Seq::new(
        weights.len(),
        |i: int| proportional_share(numerator, weights[i], total(weights)) as u64,
    )
}

/// One proportional share is at most the numerator, and `sum` times the share
/// is at most the numerator times the weight.
pub proof fn lemma_proportional_share_bounds(numerator: u64, weight: u64, sum: int)
    requires
        weight <= sum,
    ensures
        0 <= proportional_share(numerator, weight, sum) <= numerator,
        proportional_share(numerator, weight, sum) * sum <= numerator * weight,
{
    if sum > 0 {
        let p = numerator as int * weight as int;
        lemma_fundamental_div_mod(p, sum);
        assert(0 <= p / sum <= numerator && (p / sum) * sum <= p) by (nonlinear_arith)
            requires
                sum > 0,
                0 <= weight <= sum,
                0 <= numerator,
                p == numerator * weight,
                p == sum * (p / sum) + p % sum,
                0 <= p % sum < sum,
        ;
    } else {
        assert(numerator * weight >= 0) by (nonlinear_arith)
            requires
                numerator >= 0,
                weight >= 0,
        ;
    }
}

/// Each entry of a sequence is at most the sum of the sequence.
pub proof fn lemma_entry_le_total(s: Seq<u64>, i: int)
    requires
        0 <= i < s.len(),
    ensures
        s[i] <= total(s),
    decreases s.len(),
{
    lemma_total_bounds(s.drop_last());
    if i < s.len() - 1 {
        lemma_entry_le_total(s.drop_last(), i);
    }
}

/// The first `k` proportional shares, times the sum of all weights, stay
/// within the numerator times the first `k` weights. So all shares together
/// never exceed the numerator.
pub proof fn lemma_proportional_shares_total(numerator: u64, weights: Seq<u64>, k: int)
    requires
        0 <= k <= weights.len(),
    ensures
        0 <= total(proportional_shares(numerator, weights).take(k)),
        total(proportional_shares(numerator, weights).take(k)) * total(weights) <= numerator
            * total(weights.take(k)),
        total(weights.take(k)) <= total(weights),
        total(proportional_shares(numerator, weights).take(k)) <= numerator,
    decreases k,
{
    let shares = proportional_shares(numerator, weights);
    let sum = total(weights);
    lemma_total_bounds(shares.take(k));
    lemma_total_bounds(weights.take(k));
    if k == 0 {
        assert(total(shares.take(0)) == 0);
        assert(total(weights.take(0)) == 0);
        lemma_total_bounds(weights);
    } else {
        lemma_proportional_shares_total(numerator, weights, k - 1);
        lemma_total_take(shares, k - 1);
        lemma_total_take(weights, k - 1);
        lemma_entry_le_total(weights, k - 1);
        lemma_proportional_share_bounds(numerator, weights[k - 1], sum);
        let a = total(shares.take(k - 1));
        let b = shares[k - 1] as int;
        let wa = total(weights.take(k - 1));
        let wb = weights[k - 1] as int;
        assert(b == proportional_share(numerator, weights[k - 1], sum));
        assert((a + b) * sum <= numerator * (wa + wb)) by (nonlinear_arith)
            requires
                a * sum <= numerator * wa,
                b * sum <= numerator * wb,
        ;
        // the first k weights are part of all weights
        lemma_weights_prefix(weights, k);
        if sum > 0 {
            assert(a + b <= numerator) by (nonlinear_arith)
                requires
                    (a + b) * sum <= numerator * (wa + wb),
                    wa + wb <= sum,
                    sum > 0,
                    numerator >= 0,
            ;
        } else {
            lemma_total_zero(shares.take(k - 1), numerator, weights, k - 1);
        }
    }
}

/// A prefix of a sequence sums to no more than the sequence.
pub proof fn lemma_weights_prefix(s: Seq<u64>, k: int)
    requires
        0 <= k <= s.len(),
    ensures
        total(s.take(k)) <= total(s),
    decreases s.len() - k,
{
    if k == s.len() {
        assert(s.take(k) =~= s);
    } else {
        lemma_weights_prefix(s, k + 1);
        lemma_total_take(s, k);
    }
}

proof fn lemma_total_zero(prefix: Seq<u64>, numerator: u64, weights: Seq<u64>, k: int)
    requires
        0 <= k <= weights.len(),
        total(weights) <= 0,
        prefix == proportional_shares(numerator, weights).take(k),
    ensures
        total(prefix) == 0,
    decreases k,
{
    if k > 0 {
        assert(prefix.drop_last() =~= proportional_shares(numerator, weights).take(k - 1));
        lemma_total_zero(prefix.drop_last(), numerator, weights, k - 1);
        assert(prefix.last() == proportional_shares(numerator, weights)[k - 1]);
    }
}

/// Replaces each weight by its share of `numerator`, rounded down, and
/// returns what is left of `numerator` after all shares. Where all weights
/// are zero, every share is zero and the whole `numerator` is left. Who takes
/// the rest is the caller's choice.
pub fn divide_proportionally(numerator: u64, proportion: &mut Vec<u64>) -> (remainder: u64)
    ensures
        final(proportion)@ == proportional_shares(numerator, old(proportion)@),
        remainder == numerator - total(final(proportion)@),
        total(old(proportion)@) == 0 ==> remainder == numerator,
{
    let ghost weights = proportion@;
    let n = proportion.len();
    let mut sum: u128 = 0;
    let mut i: usize = 0;
    while i < n
        invariant
            0 <= i <= n,
            n == proportion@.len(),
            proportion@ == weights,
            sum == total(weights.take(i as int)),
            sum <= i * 0xffff_ffff_ffff_ffff,
        decreases n - i,
    {
        proof {
            lemma_total_take(weights, i as int);
            assert(i * 0xffff_ffff_ffff_ffff + 0xffff_ffff_ffff_ffff == (i + 1)
                * 0xffff_ffff_ffff_ffff) by (nonlinear_arith);
            assert((i + 1) * 0xffff_ffff_ffff_ffff <= 0xffff_ffff_ffff_ffff
                * 0xffff_ffff_ffff_ffff) by (nonlinear_arith)
                requires
                    i + 1 <= 0xffff_ffff_ffff_ffff,
            ;
        }
        sum = sum + proportion[i] as u128;
        i += 1;
    }
    assert(weights.take(n as int) =~= weights);
    let ghost shares = proportional_shares(numerator, weights);
    let mut remainder: u64 = numerator;
    let mut i: usize = 0;
    while i < n
        invariant
            0 <= i <= n,
            n == proportion@.len(),
            n == weights.len(),
            sum == total(weights),
            shares == proportional_shares(numerator, weights),
            proportion@.take(i as int) =~= shares.take(i as int),
            proportion@.skip(i as int) =~= weights.skip(i as int),
            remainder == numerator - total(shares.take(i as int)),
        decreases n - i,
    {
        let weight: u64 = proportion[i];
        proof {
            assert(weight == proportion@.skip(i as int)[0]);
            assert(weight == weights[i as int]);
            lemma_entry_le_total(weights, i as int);
            lemma_proportional_share_bounds(numerator, weight, sum as int);
            lemma_proportional_shares_total(numerator, weights, i + 1);
            lemma_total_take(shares, i as int);
            assert(numerator * weight <= 0xffff_ffff_ffff_ffff * 0xffff_ffff_ffff_ffff)
                by (nonlinear_arith)
                requires
                    0 <= numerator <= 0xffff_ffff_ffff_ffff,
                    0 <= weight <= 0xffff_ffff_ffff_ffff,
            ;
        }
        let share: u64 = if sum == 0 {
            0
        } else {
            ((numerator as u128 * weight as u128) / sum) as u64
        };
        assert(share == shares[i as int]);
        let ghost before = proportion@;
        proportion[i] = share;
        remainder = remainder - share;
        proof {
            assert(proportion@ == before.update(i as int, share));
            let ghost done = proportion@.take(i + 1);
            let ghost want = shares.take(i + 1);
            assert forall|j: int| 0 <= j < done.len() implies done[j] == want[j] by {
                if j < i {
                    assert(before.take(i as int)[j] == shares.take(i as int)[j]);
                }
            }
            assert(done =~= want);
            let ghost rest = proportion@.skip(i + 1);
            let ghost kept = weights.skip(i + 1);
            assert forall|j: int| 0 <= j < rest.len() implies rest[j] == kept[j] by {
                assert(before.skip(i as int)[j + 1] == weights.skip(i as int)[j + 1]);
            }
            assert(rest =~= kept);
        }
        i += 1;
    }
    proof {
        assert(proportion@.take(n as int) =~= proportion@);
        assert(shares.take(n as int) =~= shares);
        if sum == 0 {
            lemma_total_zero(shares, numerator, weights, n as int);
        }
    }
    remainder
}

} // verus!
