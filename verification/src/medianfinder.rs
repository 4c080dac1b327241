//! A streaming median of non-negative integers: amortized-cheap insert,
//! constant-time query.
//!
//! The structure keeps the inserted values split into a lower and an upper
//! half. Every value in the lower half is at most every value in the upper
//! half, and the lower half holds either exactly as many values as the upper
//! half or one more. The median is then the top of the lower half (odd count)
//! or the floor of the mean of the two inner tops (even count).

use vstd::prelude::*;
use vstd::multiset::Multiset;
use vstd::seq_lib::lemma_multiset_commutative;
use vstd::seq_lib::lemma_sorted_unique;

verus! {

/// The sequence is sorted in non-decreasing order.
pub open spec fn sorted(s: Seq<u128>) -> bool {
    forall|i: int, j: int| 0 <= i < j < s.len() ==> s[i] <= s[j]
}

/// The median of a sorted, non-empty sequence: the middle element for an odd
/// length, the floor of the mean of the two middle elements for an even one.
pub open spec fn median_of(s: Seq<u128>) -> int
    recommends
        s.len() > 0,
{
    if s.len() % 2 == 1 {
        s[s.len() as int / 2] as int
    } else {
        (s[s.len() as int / 2 - 1] + s[s.len() as int / 2]) as int / 2
    }
}

/// Streaming median accumulator over `u128` values.
///
/// `lower` and `upper` are each kept sorted in non-decreasing order; the top
/// of the lower half is its last element, the top of the upper half is its
/// first.
pub struct MedianFinder {
    lower: Vec<u128>,
    upper: Vec<u128>,
}

impl View for MedianFinder {
    type V = Seq<u128>;

    /// All inserted values, in sorted order.
    closed spec fn view(&self) -> Seq<u128> {
        self.lower@ + self.upper@
    }
}

impl MedianFinder {
    /// Well-formedness: both halves sorted, lower at most one longer than
    /// upper, and everything in the lower half at most everything in the
    /// upper half.
    pub closed spec fn wf(self) -> bool {
        &&& sorted(self.lower@)
        &&& sorted(self.upper@)
        &&& (self.lower@.len() == self.upper@.len() || self.lower@.len() == self.upper@.len()
            + 1)
        &&& (self.lower@.len() > 0 && self.upper@.len() > 0 ==> self.lower@.last()
            <= self.upper@.first())
    }

    /// A well-formed accumulator presents its values in sorted order.
    pub proof fn lemma_view_sorted(self)
        requires
            self.wf(),
        ensures
            sorted(self@),
    {
        lemma_sorted_concat(self.lower@, self.upper@);
    }

    /// An empty accumulator: no values, no median yet.
    pub fn new() -> (r: Self)
        ensures
            r.wf(),
            r@ == Seq::<u128>::empty(),
    {
        let r = Self { lower: Vec::new(), upper: Vec::new() };
        proof {
            assert(r@ =~= Seq::<u128>::empty());
        }
        r
    }
}

/// Insert `x` into a sorted vector, keeping it sorted.
fn insert_sorted(v: &mut Vec<u128>, x: u128)
    requires
        sorted(old(v)@),
    ensures
        sorted(final(v)@),
        final(v)@.len() == old(v)@.len() + 1,
        exists|k: int| #![auto] 0 <= k <= old(v)@.len() && final(v)@ == old(v)@.insert(k, x),
        final(v)@.to_multiset() == old(v)@.to_multiset().insert(x),
{
    broadcast use vstd::seq_lib::to_multiset_insert;

    let mut i: usize = 0;
    while i < v.len() && v[i] <= x
        invariant
            i <= v@.len(),
            v@ == old(v)@,
            forall|j: int| 0 <= j < i ==> v@[j] <= x,
        decreases v@.len() - i,
    {
        i = i + 1;
    }
    proof {
        old(v)@.insert_ensures(i as int, x);
    }
    v.insert(i, x);
    proof {
        let s = old(v)@;
        let n = s.len() as int;
        let k = i as int;
        assert forall|a: int, b: int| 0 <= a < b < v@.len() implies v@[a] <= v@[b] by {
            if b < k {
                assert(v@[a] == s[a] && v@[b] == s[b]);
            } else if a < k && b == k {
                assert(v@[a] == s[a]);
            } else if a < k && b > k {
                assert(v@[a] == s[a] && v@[b] == s[b - 1]);
            } else if a == k {
                assert(v@[b] == s[b - 1]);
                assert(k < n ==> s[k] > x);
                assert(s[k] <= s[b - 1]);
            } else {
                assert(v@[a] == s[a - 1] && v@[b] == s[b - 1]);
            }
        }
        assert(0 <= k <= s.len() && v@ == s.insert(k, x));
    }
}

/// Moving one copy of `u` from `b` over to `a` leaves the combined multiset
/// unchanged.
proof fn lemma_move_between_halves(a: Multiset<u128>, b: Multiset<u128>, u: u128)
    requires
        b.count(u) > 0,
    ensures
        a.insert(u).add(b.remove(u)) == a.add(b),
{
    broadcast use vstd::multiset::group_multiset_axioms;

    assert(a.insert(u).add(b.remove(u)) =~= a.add(b)) by {
        assert(a.insert(u).count(u) == a.count(u) + 1);
        assert(forall|x: u128| x != u ==> #[trigger] a.insert(u).count(x) == a.count(x));
    }
}

/// If the lower half gave up `t` while gaining `num`, and the upper half
/// gained `t`, the combined multiset gained exactly `num`.
proof fn lemma_shift_between_halves(
    l0: Multiset<u128>,
    u0: Multiset<u128>,
    l2: Multiset<u128>,
    u1: Multiset<u128>,
    t: u128,
    num: u128,
)
    requires
        l2.insert(t) == l0.insert(num),
        u1 == u0.insert(t),
    ensures
        l2.add(u1) == l0.add(u0).insert(num),
{
    broadcast use vstd::multiset::group_multiset_axioms;

    assert(l2.add(u1) =~= l0.add(u0).insert(num)) by {
        assert forall|x: u128| #![auto] l2.add(u1).count(x) == l0.add(u0).insert(num).count(
            x,
        ) by {
            assert(l2.insert(t).count(x) == l0.insert(num).count(x));
            assert(l2.insert(t).count(x) == l2.count(x) + if x == t {
                1int
            } else {
                0int
            });
            assert(l0.insert(num).count(x) == l0.count(x) + if x == num {
                1int
            } else {
                0int
            });
            assert(u1.count(x) == u0.count(x) + if x == t {
                1int
            } else {
                0int
            });
        }
    }
}

impl MedianFinder {
    /// Insert a value. The lower half receives it first; the top of the
    /// lower half then moves to the upper half, and if the upper half has
    /// grown past the lower one its smallest value moves back.
    #[verifier::rlimit(50)]
    pub fn add_latency(&mut self, num: u128)
        requires
            old(self).wf(),
        ensures
            final(self).wf(),
            final(self)@.len() == old(self)@.len() + 1,
            final(self)@.to_multiset() == old(self)@.to_multiset().insert(num),
    {
        broadcast use vstd::seq_lib::group_to_multiset_ensures;
        broadcast use vstd::multiset::group_multiset_axioms;

        let ghost l0 = self.lower@;
        let ghost u0 = self.upper@;
        proof {
            lemma_multiset_commutative(l0, u0);
        }
        insert_sorted(&mut self.lower, num);
        let ghost l1 = self.lower@;
        let ghost k1: int = choose|k: int| #![auto] 0 <= k <= l0.len() && l1 == l0.insert(k, num);
        proof {
            l0.insert_ensures(k1, num);
        }
        let t = match self.lower.pop() {
            Some(t) => t,
            None => {
                proof {
                    assert(false);
                }
                0
            },
        };
        let ghost l2 = self.lower@;
        proof {
            // The remaining lower half is sorted, lies below `t`, and lies
            // below the old upper half's first element.
            assert(l1 =~= l2.push(t));
            assert(sorted(l2));
            if l2.len() > 0 && u0.len() > 0 {
                let n = l1.len() as int;
                assert(l2.last() == l1[n - 2]);
                assert(l0.len() > 0);
                if k1 == n - 1 {
                    assert(l1[n - 2] == l0[n - 2]);
                } else if k1 == n - 2 {
                    assert(l1[n - 1] == l0[n - 2]);
                } else {
                    assert(l1[n - 2] == l0[n - 3]);
                    assert(l0[n - 3] <= l0[l0.len() - 1]);
                }
                assert(l2.last() <= u0.first());
            }
        }
        insert_sorted(&mut self.upper, t);
        let ghost u1 = self.upper@;
        let ghost k2: int = choose|k: int| #![auto] 0 <= k <= u0.len() && u1 == u0.insert(k, t);
        proof {
            u0.insert_ensures(k2, t);
            if l2.len() > 0 {
                if k2 == 0 {
                    assert(u1.first() == t);
                    assert(l2.last() == l1[l1.len() - 2]);
                    assert(l2.last() <= t);
                } else {
                    assert(u1.first() == u0.first());
                }
                assert(l2.last() <= u1.first());
            }
        }
        if self.upper.len() > self.lower.len() {
            let u = self.upper.remove(0);
            let ghost u2 = self.upper@;
            proof {
                assert(u == u1.first());
                assert(u2 == u1.remove(0));
                assert(sorted(u2)) by {
                    assert forall|a: int, b: int| 0 <= a < b < u2.len() implies u2[a] <= u2[b] by {
                        assert(u2[a] == u1[a + 1] && u2[b] == u1[b + 1]);
                    }
                }
                assert(l2.len() > 0 ==> l2.last() <= u);
            }
            insert_sorted(&mut self.lower, u);
            let ghost l3 = self.lower@;
            let ghost k3: int = choose|k: int| #![auto] 0 <= k <= l2.len() && l3 == l2.insert(
                k,
                u,
            );
            proof {
                l2.insert_ensures(k3, u);
                // Cross invariant after the rebalance.
                if u2.len() > 0 {
                    assert(u2.first() == u1[1]);
                    assert(u <= u1[1]);
                    if k3 == l2.len() {
                        assert(l3.last() == u);
                    } else {
                        assert(l3.last() == l2.last());
                        assert(l2.len() > 0);
                    }
                    assert(l3.last() <= u2.first());
                }
                // Multiset accounting.
                assert(l1.to_multiset() == l2.to_multiset().insert(t));
                assert(l2.to_multiset().insert(t) == l0.to_multiset().insert(num));
                assert(u1.contains(u));
                assert(u1.to_multiset().count(u) > 0);
                assert(u2.to_multiset() == u1.to_multiset().remove(u));
                assert(l3.to_multiset() == l2.to_multiset().insert(u));
                lemma_multiset_commutative(l3, u2);
                lemma_move_between_halves(l2.to_multiset(), u1.to_multiset(), u);
                lemma_shift_between_halves(
                    l0.to_multiset(),
                    u0.to_multiset(),
                    l2.to_multiset(),
                    u1.to_multiset(),
                    t,
                    num,
                );
                assert((l3 + u2).to_multiset() == (l0 + u0).to_multiset().insert(num));
            }
        } else {
            proof {
                assert(l1.to_multiset() == l2.to_multiset().insert(t));
                assert(l2.to_multiset().insert(t) == l0.to_multiset().insert(num));
                lemma_multiset_commutative(l2, u1);
                lemma_shift_between_halves(
                    l0.to_multiset(),
                    u0.to_multiset(),
                    l2.to_multiset(),
                    u1.to_multiset(),
                    t,
                    num,
                );
                assert((l2 + u1).to_multiset() == (l0 + u0).to_multiset().insert(num));
            }
        }
    }
}

impl MedianFinder {
    /// The current median, or `None` when nothing was inserted yet: the top
    /// of the lower half when it is the longer one, otherwise the floor of
    /// the mean of the two inner tops.
    pub fn find_median(&self) -> (r: Option<u128>)
        requires
            self.wf(),
        ensures
            self@.len() == 0 <==> r is None,
            self@.len() > 0 ==> r == Some(median_of(self@) as u128),
    {
        proof {
            self.lemma_view_sorted();
        }
        if self.lower.is_empty() {
            return None;
        }
        let l = self.lower.len();
        let u = self.upper.len();
        if l > u {
            let m = self.lower[l - 1];
            proof {
                assert(self@.len() == 2 * u + 1);
                assert(self@[u as int] == self.lower@[u as int]);
            }
            Some(m)
        } else {
            let a = self.lower[l - 1];
            let b = self.upper[0];
            proof {
                assert(self@.len() == 2 * l);
                assert(self@[l - 1] == self.lower@[l - 1]);
                assert(self@[l as int] == self.upper@[0]);
                assert(a <= b);
                lemma_floor_mean(a, b);
            }
            Some(a / 2 + b / 2 + (a % 2) * (b % 2))
        }
    }
}

/// The floor of the mean of two values, computed without overflowing.
proof fn lemma_floor_mean(a: u128, b: u128)
    ensures
        a / 2 + b / 2 + (a % 2) * (b % 2) == (a + b) as int / 2,
{
    assert(a % 2 == 0 || a % 2 == 1);
    assert(b % 2 == 0 || b % 2 == 1);
    assert(a == 2 * (a / 2) + a % 2);
    assert(b == 2 * (b / 2) + b % 2);
    assert(a / 2 + b / 2 + (a % 2) * (b % 2) == (a + b) as int / 2) by (nonlinear_arith)
        requires
            a % 2 == 0 || a % 2 == 1,
            b % 2 == 0 || b % 2 == 1,
            a == 2 * (a / 2) + a % 2,
            b == 2 * (b / 2) + b % 2,
    ;
}

/// Any sorted enumeration of the inserted multiset is exactly the
/// accumulator's contents, so the reported median is the floor of the
/// mathematical median of everything inserted so far.
pub proof fn lemma_median_of_multiset(m: MedianFinder, s: Seq<u128>)
    requires
        m.wf(),
        sorted(s),
        s.to_multiset() == m@.to_multiset(),
    ensures
        s == m@,
        s.len() > 0 ==> median_of(s) == median_of(m@),
{
    m.lemma_view_sorted();
    let leq = |a: u128, b: u128| a <= b;
    assert(vstd::relations::sorted_by(s, leq));
    assert(vstd::relations::sorted_by(m@, leq));
    assert(vstd::relations::total_ordering(leq)) by {
        assert(vstd::relations::reflexive(leq));
        assert(vstd::relations::antisymmetric(leq));
        assert(vstd::relations::transitive(leq));
        assert(vstd::relations::strongly_connected(leq));
    }
    lemma_sorted_unique(s, m@, leq);
}

/// Concatenating two sorted halves whose boundary elements are ordered gives
/// a sorted sequence.
proof fn lemma_sorted_concat(a: Seq<u128>, b: Seq<u128>)
    requires
        sorted(a),
        sorted(b),
        a.len() > 0 && b.len() > 0 ==> a.last() <= b.first(),
    ensures
        sorted(a + b),
{
    let c = a + b;
    assert forall|i: int, j: int| 0 <= i < j < c.len() implies c[i] <= c[j] by {
        if j < a.len() {
        } else if i >= a.len() {
            assert(c[i] == b[i - a.len()]);
            assert(c[j] == b[j - a.len()]);
        } else {
            assert(c[i] == a[i]);
            assert(c[j] == b[j - a.len()]);
            assert(a[i] <= a.last());
            assert(b.first() <= b[j - a.len()]);
        }
    }
}

} // verus!
