//! User identifiers and sets of users in their canonical, ascending order.
//!
//! Every split that places a remainder walks the users of a record from the
//! smallest identifier up, so the order of a user set is part of its meaning.

use vstd::prelude::*;

verus! {

/// Identifies a user. Identifiers are ordered as integers.
pub type UserId = i64;

/// What can be asked when the users are listed: nothing so far.
#[derive(Debug, Clone)]
pub struct ListUsersOptions {}

/// No entry is greater than a later one.
pub open spec fn sorted(s: Seq<i64>) -> bool {
    forall|i: int, j: int| 0 <= i < j < s.len() ==> s[i] <= s[j]
}

/// Every entry is smaller than each later one: sorted, and nothing twice.
pub open spec fn ascending(s: Seq<i64>) -> bool {
    forall|i: int, j: int| 0 <= i < j < s.len() ==> s[i] < s[j]
}

/// Inserting one entry into a sequence adds that entry to its multiset.
pub proof fn lemma_insert_to_multiset(s: Seq<i64>, k: int, x: i64)
    requires
        0 <= k <= s.len(),
    ensures
        s.insert(k, x).to_multiset() =~= s.to_multiset().insert(x),
{
    broadcast use vstd::multiset::group_multiset_axioms;

    let t = s.insert(k, x);
    t.to_multiset_ensures();
    assert(t.remove(k) =~= s);
    assert(t[k] == x);
    assert(t.contains(x));
    assert(s.to_multiset() =~= t.to_multiset().remove(x));
}

/// Two ascending sequences with the same entries are the same sequence: a
/// set of users has one canonical order, however it was written down.
pub proof fn lemma_ascending_unique(a: Seq<i64>, b: Seq<i64>)
    requires
        ascending(a),
        ascending(b),
        forall|x: i64| a.contains(x) <==> b.contains(x),
    ensures
        a == b,
    decreases a.len(),
{
    if a.len() == 0 {
        if b.len() > 0 {
            assert(b.contains(b[0]));
        }
        assert(a =~= b);
    } else {
        assert(a.contains(a.last()));
        assert(b.contains(a.last()));
        assert(b.len() > 0);
        assert(b.contains(b.last()));
        assert(a.contains(b.last()));
        // both last entries are the greatest entry
        let ia = choose|i: int| 0 <= i < a.len() && a[i] == b.last();
        let ib = choose|i: int| 0 <= i < b.len() && b[i] == a.last();
        assert(a.last() == b.last());
        let a0 = a.drop_last();
        let b0 = b.drop_last();
        assert forall|x: i64| a0.contains(x) <==> b0.contains(x) by {
            if a0.contains(x) {
                let i = choose|i: int| 0 <= i < a0.len() && a0[i] == x;
                assert(a[i] == x);
                assert(a.contains(x));
                let j = choose|j: int| 0 <= j < b.len() && b[j] == x;
                assert(x < a.last());
                assert(j < b.len() - 1);
                assert(b0[j] == x);
            }
            if b0.contains(x) {
                let i = choose|i: int| 0 <= i < b0.len() && b0[i] == x;
                assert(b[i] == x);
                assert(b.contains(x));
                let j = choose|j: int| 0 <= j < a.len() && a[j] == x;
                assert(x < b.last());
                assert(j < a.len() - 1);
                assert(a0[j] == x);
            }
        }
        lemma_ascending_unique(a0, b0);
        assert(a =~= a0.push(a.last()));
        assert(b =~= b0.push(b.last()));
    }
}

/// The first place in a sorted vector whose entry is not below `x`.
fn insertion_point(v: &Vec<i64>, x: i64) -> (k: usize)
    requires
        sorted(v@),
    ensures
        k <= v@.len(),
        forall|i: int| 0 <= i < k ==> v@[i] < x,
        forall|i: int| k <= i < v@.len() ==> x <= v@[i],
{
    let mut k: usize = 0;
    while k < v.len() && v[k] < x
        invariant
            k <= v@.len(),
            sorted(v@),
            forall|i: int| 0 <= i < k ==> v@[i] < x,
        decreases v@.len() - k,
    {
        k += 1;
    }
    k
}

/// Returns the items in ascending order. Nothing is added or lost: an item
/// that comes several times comes as often in the result.
pub fn sorted_vec(items: Vec<i64>) -> (out: Vec<i64>)
    ensures
        sorted(out@),
        out@.to_multiset() == items@.to_multiset(),
        out@.len() == items@.len(),
{
    let mut out: Vec<i64> = Vec::new();
    let mut i: usize = 0;
    assert(out@ =~= items@.take(0));
    while i < items.len()
        invariant
            i <= items@.len(),
            sorted(out@),
            out@.to_multiset() == items@.take(i as int).to_multiset(),
        decreases items@.len() - i,
    {
        let x: i64 = items[i];
        let k: usize = insertion_point(&out, x);
        proof {
            lemma_insert_to_multiset(out@, k as int, x);
            assert(items@.take(i + 1) =~= items@.take(i as int).push(x));
            items@.take(i as int).to_multiset_ensures();
        }
        out.insert(k, x);
        i += 1;
    }
    proof {
        assert(items@.take(items@.len() as int) =~= items@);
        out@.to_multiset_ensures();
        items@.to_multiset_ensures();
    }
    out
}

/// A finite set of users, kept in ascending order of their identifiers.
#[derive(Debug)]
pub struct UserSet {
    ids: Vec<i64>,
}

impl View for UserSet {
    type V = Seq<i64>;

    /// The users of the set, from the smallest identifier up.
    closed spec fn view(&self) -> Seq<i64> {
        self.ids@
    }
}

impl UserSet {
    /// The users are in ascending order, none of them twice.
    #[verifier::type_invariant]
    pub open spec fn canonical(&self) -> bool {
        ascending(self@)
    }

    /// The set without users.
    pub fn new() -> (set: UserSet)
        ensures
            set@.len() == 0,
    {
        UserSet { ids: Vec::new() }
    }

    /// The set of the users that `ids` names, in whatever order and however
    /// often it names them.
    pub fn from_vec(ids: Vec<i64>) -> (set: UserSet)
        ensures
            ascending(set@),
            forall|x: i64| set@.contains(x) <==> ids@.contains(x),
    {
        let mut out: Vec<i64> = Vec::new();
        let mut i: usize = 0;
        while i < ids.len()
            invariant
                i <= ids@.len(),
                ascending(out@),
                forall|x: i64| out@.contains(x) <==> ids@.take(i as int).contains(x),
            decreases ids@.len() - i,
        {
            let x: i64 = ids[i];
            let k: usize = insertion_point(&out, x);
            let ghost before = out@;
            let ghost seen = ids@.take(i as int);
            if k == out.len() || out[k] != x {
                out.insert(k, x);
                proof {
                    assert forall|y: i64| out@.contains(y) <==> (before.contains(y) || y == x) by {
                        if before.contains(y) {
                            let j = choose|j: int| 0 <= j < before.len() && before[j] == y;
                            if j < k {
                                assert(out@[j] == y);
                            } else {
                                assert(out@[j + 1] == y);
                            }
                        }
                        if y == x {
                            assert(out@[k as int] == y);
                        }
                        if out@.contains(y) {
                            let j = choose|j: int| 0 <= j < out@.len() && out@[j] == y;
                            if j < k {
                                assert(before[j] == y);
                            } else if j > k {
                                assert(before[j - 1] == y);
                            }
                        }
                    }
                }
            } else {
                proof {
                    assert(before[k as int] == x);
                    assert(before.contains(x));
                }
            }
            proof {
                let now = ids@.take(i + 1);
                assert(now =~= seen.push(x));
                assert forall|y: i64| now.contains(y) <==> (seen.contains(y) || y == x) by {
                    if seen.contains(y) {
                        let j = choose|j: int| 0 <= j < seen.len() && seen[j] == y;
                        assert(now[j] == y);
                    }
                    if y == x {
                        assert(now[i as int] == y);
                    }
                    if now.contains(y) {
                        let j = choose|j: int| 0 <= j < now.len() && now[j] == y;
                        if j < i {
                            assert(seen[j] == y);
                        }
                    }
                }
                assert forall|y: i64| out@.contains(y) <==> now.contains(y) by {
                    assert(before.contains(y) <==> seen.contains(y));
                }
            }
            i += 1;
        }
        proof {
            assert(ids@.take(ids@.len() as int) =~= ids@);
        }
        UserSet { ids: out }
    }

    /// How many users the set has.
    pub fn len(&self) -> (n: usize)
        ensures
            n == self@.len(),
    {
        self.ids.len()
    }

    /// Whether the set has no user.
    pub fn is_empty(&self) -> (empty: bool)
        ensures
            empty == (self@.len() == 0),
    {
        self.ids.len() == 0
    }

    /// The user at place `i` of the ascending order.
    pub fn get(&self, i: usize) -> (id: i64)
        requires
            i < self@.len(),
        ensures
            id == self@[i as int],
    {
        self.ids[i]
    }

    /// The place of `id` in the ascending order, if the set holds it.
    pub fn position(&self, id: i64) -> (place: Option<usize>)
        ensures
            match place {
                Some(p) => p < self@.len() && self@[p as int] == id && p == self@.index_of(id),
                None => !self@.contains(id),
            },
    {
        proof {
            use_type_invariant(self);
        }
        let mut i: usize = 0;
        while i < self.ids.len()
            invariant
                i <= self.ids@.len(),
                ascending(self.ids@),
                forall|j: int| 0 <= j < i ==> self.ids@[j] != id,
            decreases self.ids@.len() - i,
        {
            if self.ids[i] == id {
                assert(self@[i as int] == id);
                assert(self@.contains(id));
                assert(self@.index_of(id) == i) by {
                    let c = self@.index_of(id);
                    assert(0 <= c < self@.len() && self@[c] == id);
                }
                return Some(i);
            }
            i += 1;
        }
        None
    }

    /// Whether the set holds `id`.
    pub fn contains(&self, id: i64) -> (found: bool)
        ensures
            found == self@.contains(id),
    {
        self.position(id).is_some()
    }

    /// The users as a vector in ascending order.
    pub fn to_vec(&self) -> (ids: Vec<i64>)
        ensures
            ids@ == self@,
            ascending(ids@),
    {
        proof {
            use_type_invariant(self);
        }
        let mut out: Vec<i64> = Vec::new();
        let mut i: usize = 0;
        while i < self.ids.len()
            invariant
                i <= self.ids@.len(),
                out@ =~= self.ids@.take(i as int),
            decreases self.ids@.len() - i,
        {
            out.push(self.ids[i]);
            i += 1;
        }
        proof {
            assert(self.ids@.take(self.ids@.len() as int) =~= self.ids@);
        }
        out
    }
}

impl Clone for UserSet {
    fn clone(&self) -> (copy: UserSet)
        ensures
            copy@ == self@,
    {
        UserSet { ids: self.to_vec() }
    }
}

} // verus!
