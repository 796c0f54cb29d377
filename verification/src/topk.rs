//! Bounded top-K retention of search candidates.
//!
//! The selector keeps a buffer of candidates under a capacity that doubles
//! whenever it overflows; at every overflow the buffer is sorted by distance
//! and cut back to the capacity that was exceeded.  Because the cut always
//! keeps the smallest distances seen so far, any candidate ever discarded has
//! at least the initial capacity's worth of kept candidates at or below its
//! distance — so the `n` smallest candidates survive for every `n` up to the
//! initial capacity, whatever order the candidates arrive in.

use vstd::prelude::*;
use vstd::multiset::Multiset;
use vstd::multiset::group_multiset_axioms;
use vstd::seq_lib::group_to_multiset_ensures;

verus! {

/// A search candidate: a solvent pair, the compound it was measured against,
/// and their distance (a fixed-point value, see the geometry module).
#[derive(Clone, Copy, Debug, PartialEq, Eq, Structural)]
pub struct Solution {
    pub mix_id: u64,
    pub drug_id: u64,
    pub distance: u64,
}

/// The sequence is ordered by ascending distance.
pub open spec fn sorted_dist(s: Seq<Solution>) -> bool {
    forall|i: int, j: int| 0 <= i <= j < s.len() ==> s[i].distance <= s[j].distance
}

/// Candidates at distance at most `d`.
pub open spec fn at_most(d: u64) -> spec_fn(Solution) -> bool {
    |s: Solution| s.distance <= d
}

/// How many candidates of `m` lie at distance at most `d`.
pub open spec fn count_le(m: Multiset<Solution>, d: u64) -> nat {
    m.filter(at_most(d)).len()
}

/// A sub-multiset has no more elements than its superset.
proof fn lemma_subset_len<V>(m1: Multiset<V>, m2: Multiset<V>)
    requires
        m1.subset_of(m2),
    ensures
        m1.len() <= m2.len(),
{
    broadcast use group_multiset_axioms;

    assert(m2 =~= m1.add(m2.sub(m1)));
}

/// Filtering a sub-multiset keeps it a sub-multiset.
proof fn lemma_filter_subset<V>(m1: Multiset<V>, m2: Multiset<V>, f: spec_fn(V) -> bool)
    requires
        m1.subset_of(m2),
    ensures
        m1.filter(f).subset_of(m2.filter(f)),
        m1.filter(f).len() <= m2.filter(f).len(),
{
    broadcast use group_multiset_axioms;

    assert forall|v: V| m1.filter(f).count(v) <= m2.filter(f).count(v) by {
        assert(m1.filter(f).count(v) == if f(v) {
            m1.count(v)
        } else {
            0
        });
        assert(m2.filter(f).count(v) == if f(v) {
            m2.count(v)
        } else {
            0
        });
    }
    lemma_subset_len(m1.filter(f), m2.filter(f));
}

/// Inserting one element grows the filtered size by one exactly when the
/// element satisfies the filter.
proof fn lemma_filter_insert<V>(m: Multiset<V>, x: V, f: spec_fn(V) -> bool)
    ensures
        f(x) ==> m.insert(x).filter(f).len() == m.filter(f).len() + 1,
        !f(x) ==> m.insert(x).filter(f).len() == m.filter(f).len(),
{
    broadcast use group_multiset_axioms;

    if f(x) {
        assert(m.insert(x).filter(f) =~= m.filter(f).insert(x)) by {
            assert forall|v: V|
                m.insert(x).filter(f).count(v) == m.filter(f).insert(x).count(v) by {
                assert(m.insert(x).count(v) == m.count(v) + if v == x {
                    1int
                } else {
                    0int
                });
            }
        }
        assert(m.filter(f).insert(x).len() == m.filter(f).len() + 1);
    } else {
        assert(m.insert(x).filter(f) =~= m.filter(f)) by {
            assert forall|v: V| m.insert(x).filter(f).count(v) == m.filter(f).count(v) by {
                assert(m.insert(x).count(v) == m.count(v) + if v == x {
                    1int
                } else {
                    0int
                });
            }
        }
    }
}

/// `count_le` after inserting a candidate.
pub proof fn lemma_count_le_insert(m: Multiset<Solution>, x: Solution, d: u64)
    ensures
        x.distance <= d ==> count_le(m.insert(x), d) == count_le(m, d) + 1,
        x.distance > d ==> count_le(m.insert(x), d) == count_le(m, d),
{
    lemma_filter_insert(m, x, at_most(d));
}

/// `count_le` never shrinks when the multiset grows.
pub proof fn lemma_count_le_subset(m1: Multiset<Solution>, m2: Multiset<Solution>, d: u64)
    requires
        m1.subset_of(m2),
    ensures
        count_le(m1, d) <= count_le(m2, d),
{
    lemma_filter_subset(m1, m2, at_most(d));
}

/// In a distance-sorted sequence the candidates at distance at most `d`
/// form a prefix whose length is exactly `count_le` of the sequence's
/// multiset.
pub proof fn lemma_sorted_count_le(s: Seq<Solution>, d: u64)
    requires
        sorted_dist(s),
    ensures
        count_le(s.to_multiset(), d) <= s.len(),
        forall|i: int|
            0 <= i < s.len() ==> (s[i].distance <= d <==> i < count_le(s.to_multiset(), d)),
    decreases s.len(),
{
    broadcast use group_multiset_axioms;
    broadcast use group_to_multiset_ensures;

    if s.len() == 0 {
        assert(s.to_multiset() =~= Multiset::<Solution>::empty());
        assert(s.to_multiset().filter(at_most(d)) =~= Multiset::<Solution>::empty()) by {
            assert forall|v: Solution|
                s.to_multiset().filter(at_most(d)).count(v) == 0 by {
                assert(s.to_multiset().count(v) == 0);
            }
        }
    } else {
        let t = s.drop_last();
        let x = s.last();
        assert(sorted_dist(t));
        lemma_sorted_count_le(t, d);
        assert(s =~= t.push(x));
        assert(s.to_multiset() == t.to_multiset().insert(x));
        lemma_count_le_insert(t.to_multiset(), x, d);
        let cnt_t = count_le(t.to_multiset(), d);
        let cnt = count_le(s.to_multiset(), d);
        if x.distance <= d {
            // the last (largest) candidate qualifies, so every candidate does
            assert forall|i: int| 0 <= i < t.len() implies t[i].distance <= d by {
                assert(t[i] == s[i]);
                assert(s[i].distance <= s[s.len() - 1].distance);
            }
            if cnt_t < t.len() {
                assert(t[cnt_t as int].distance <= d);
                assert(false);
            }
            assert(cnt == s.len());
            assert forall|i: int| 0 <= i < s.len() implies s[i].distance <= d by {
                assert(s[i].distance <= s[s.len() - 1].distance);
            }
        } else {
            assert(cnt == cnt_t);
            assert forall|i: int|
                0 <= i < s.len() implies (s[i].distance <= d <==> i < cnt) by {
                if i < s.len() - 1 {
                    assert(s[i] == t[i]);
                } else {
                    assert(cnt <= s.len() - 1);
                }
            }
        }
    }
}

/// A prefix of a sequence is a sub-multiset, and anything beyond the
/// prefix's counts has a witness index past the prefix.
pub proof fn lemma_take_submultiset<V>(s: Seq<V>, k: int)
    requires
        0 <= k <= s.len(),
    ensures
        s.take(k).to_multiset().subset_of(s.to_multiset()),
        forall|x: V|
            s.take(k).to_multiset().count(x) < s.to_multiset().count(x) ==> exists|j: int|
                k <= j < s.len() && s[j] == x,
{
    broadcast use group_multiset_axioms;
    broadcast use group_to_multiset_ensures;

    assert(s =~= s.take(k) + s.skip(k));
    vstd::seq_lib::lemma_multiset_commutative(s.take(k), s.skip(k));
    assert forall|x: V|
        s.take(k).to_multiset().count(x) < s.to_multiset().count(x) implies exists|j: int|
        k <= j < s.len() && s[j] == x by {
        assert(s.skip(k).to_multiset().count(x) > 0);
        assert(s.skip(k).contains(x));
        let j0 = choose|j0: int| 0 <= j0 < s.skip(k).len() && s.skip(k)[j0] == x;
        assert(s[j0 + k] == x);
    }
}

/// `r` is a sorted selection of `r.len()` smallest-distance candidates of
/// `ins`: it is part of `ins`, it is sorted, and no candidate of `ins`
/// outside it lies below any candidate inside it.
pub open spec fn is_smallest_selection(ins: Multiset<Solution>, r: Seq<Solution>) -> bool {
    &&& sorted_dist(r)
    &&& r.to_multiset().subset_of(ins)
    &&& forall|y: Solution|
        ins.count(y) > r.to_multiset().count(y) ==> forall|i: int|
            0 <= i < r.len() ==> (#[trigger] r[i]).distance <= y.distance
}

/// A smallest selection holds, at or below any distance `d`, exactly as many
/// candidates as `ins` does there — capped by the selection's length.  This
/// pins the selection's multiset of distances.
proof fn lemma_smallest_selection_counts(ins: Multiset<Solution>, r: Seq<Solution>, d: u64)
    requires
        is_smallest_selection(ins, r),
    ensures
        count_le(r.to_multiset(), d) == vstd::math::min(
            count_le(ins, d) as int,
            r.len() as int,
        ),
{
    broadcast use group_multiset_axioms;

    lemma_sorted_count_le(r, d);
    lemma_count_le_subset(r.to_multiset(), ins, d);
    let cnt_r = count_le(r.to_multiset(), d);
    if exists|y: Solution| ins.count(y) > r.to_multiset().count(y) && y.distance <= d {
        // something at or below `d` was left out, so the whole selection
        // lies at or below `d`
        let y = choose|y: Solution| ins.count(y) > r.to_multiset().count(y) && y.distance <= d;
        if cnt_r < r.len() {
            assert(r[cnt_r as int].distance <= y.distance);
            assert(false);
        }
    } else {
        // everything at or below `d` is fully inside the selection
        assert(ins.filter(at_most(d)) =~= r.to_multiset().filter(at_most(d))) by {
            assert forall|v: Solution|
                ins.filter(at_most(d)).count(v) == r.to_multiset().filter(at_most(d)).count(
                    v,
                ) by {
                assert(r.to_multiset().count(v) <= ins.count(v));
                if v.distance <= d {
                    assert(!(ins.count(v) > r.to_multiset().count(v) && v.distance <= d));
                }
            }
        }
    }
}

/// The `n` smallest distances of a candidate multiset are unique: two sorted
/// smallest selections of the same candidates, of the same length, list the
/// same distances in the same order.  In particular the selector's result
/// does not depend on the order in which candidates were inserted.
pub proof fn lemma_topk_order_independent(
    ins: Multiset<Solution>,
    r1: Seq<Solution>,
    r2: Seq<Solution>,
)
    requires
        is_smallest_selection(ins, r1),
        is_smallest_selection(ins, r2),
        r1.len() == r2.len(),
    ensures
        forall|i: int| 0 <= i < r1.len() ==> (#[trigger] r1[i]).distance == r2[i].distance,
{
    assert forall|i: int|
        0 <= i < r1.len() implies (#[trigger] r1[i]).distance == r2[i].distance by {
        let d1 = r1[i].distance;
        let d2 = r2[i].distance;
        lemma_sorted_count_le(r1, d1);
        lemma_sorted_count_le(r2, d1);
        lemma_sorted_count_le(r1, d2);
        lemma_sorted_count_le(r2, d2);
        lemma_smallest_selection_counts(ins, r1, d1);
        lemma_smallest_selection_counts(ins, r2, d1);
        lemma_smallest_selection_counts(ins, r1, d2);
        lemma_smallest_selection_counts(ins, r2, d2);
        if d1 < d2 {
            assert(i < count_le(r1.to_multiset(), d1));
            assert(!(r2[i].distance <= d1));
            assert(false);
        }
        if d2 < d1 {
            assert(i < count_le(r2.to_multiset(), d2));
            assert(!(r1[i].distance <= d2));
            assert(false);
        }
    }
}

/// Sort candidates by ascending distance; the result is a permutation of
/// the input.
pub fn sort_by_distance(v: &Vec<Solution>) -> (r: Vec<Solution>)
    ensures
        sorted_dist(r@),
        r@.to_multiset() == v@.to_multiset(),
        r@.len() == v@.len(),
{
    proof {
        broadcast use group_to_multiset_ensures;

    }
    let mut r: Vec<Solution> = Vec::new();
    let mut idx: usize = 0;
    while idx < v.len()
        invariant
            idx <= v@.len(),
            sorted_dist(r@),
            r@.len() == idx,
            r@.to_multiset() == v@.take(idx as int).to_multiset(),
        decreases v@.len() - idx,
    {
        let x: Solution = v[idx];
        let mut p: usize = 0;
        while p < r.len() && r[p].distance <= x.distance
            invariant
                p <= r@.len(),
                sorted_dist(r@),
                forall|q: int| 0 <= q < p ==> r@[q].distance <= x.distance,
            decreases r@.len() - p,
        {
            p = p + 1;
        }
        let ghost old_r = r@;
        r.insert(p, x);
        proof {
            broadcast use group_multiset_axioms;
            broadcast use group_to_multiset_ensures;

            old_r.insert_ensures(p as int, x);
            vstd::seq_lib::to_multiset_insert(old_r, p as int, x);
            assert(sorted_dist(r@)) by {
                assert forall|i: int, j: int|
                    0 <= i <= j < r@.len() implies r@[i].distance <= r@[j].distance by {
                    if j < p {
                        assert(r@[i] == old_r[i] && r@[j] == old_r[j]);
                    } else if i > p {
                        assert(r@[i] == old_r[i - 1] && r@[j] == old_r[j - 1]);
                    } else if i < p && j == p {
                        assert(r@[i] == old_r[i]);
                    } else if i == p && j > p {
                        assert(r@[j] == old_r[j - 1]);
                        assert(p < old_r.len());
                        assert(!(old_r[p as int].distance <= x.distance));
                        assert(old_r[p as int].distance <= old_r[j - 1].distance);
                    } else if i < p && j > p {
                        assert(r@[i] == old_r[i] && r@[j] == old_r[j - 1]);
                        assert(!(old_r[p as int].distance <= x.distance));
                        assert(old_r[i].distance <= old_r[p as int].distance);
                        assert(old_r[p as int].distance <= old_r[j - 1].distance);
                    }
                }
            }
            assert(v@.take(idx + 1).drop_last() =~= v@.take(idx as int));
            assert(v@.take(idx + 1) =~= v@.take(idx as int).push(x));
            assert(r@.to_multiset() == v@.take(idx + 1).to_multiset());
        }
        idx = idx + 1;
    }
    proof {
        assert(v@.take(v@.len() as int) =~= v@);
    }
    r
}

/// Bounded, self-growing selector of the smallest-distance candidates.
///
/// Candidates accumulate in a buffer; when the buffer exceeds the current
/// capacity it is sorted and cut back to the capacity, which then doubles.
/// Every candidate ever discarded is provably no better than the buffer's
/// best `initial capacity` candidates, so `finalize(n)` returns the true
/// `n` smallest of everything inserted, for any `n` up to the initial
/// capacity.
pub struct TopK {
    buf: Vec<Solution>,
    cap: usize,
    base: usize,
    inserted: Ghost<Multiset<Solution>>,
}

impl TopK {
    /// Everything that was ever inserted, as a multiset.
    pub closed spec fn inserted_ms(self) -> Multiset<Solution> {
        self.inserted@
    }

    /// The capacity the selector started with.
    pub closed spec fn base_cap(self) -> int {
        self.base as int
    }

    /// Internal soundness: the buffer is part of what was inserted, and any
    /// candidate missing from the buffer has at least `base` buffered
    /// candidates at or below its distance.
    pub closed spec fn wf(self) -> bool {
        &&& 1 <= self.base <= self.cap
        &&& self.buf@.len() <= self.cap
        &&& self.buf@.to_multiset().subset_of(self.inserted@)
        &&& (self.inserted@.len() != self.buf@.len() ==> self.buf@.len() >= self.base)
        &&& forall|y: Solution|
            self.inserted@.count(y) > self.buf@.to_multiset().count(y)
                ==> count_le(self.buf@.to_multiset(), y.distance) >= self.base
    }

    /// A fresh selector with the given initial capacity.
    pub fn new(capacity: usize) -> (t: TopK)
        requires
            capacity >= 1,
        ensures
            t.wf(),
            t.inserted_ms() == Multiset::<Solution>::empty(),
            t.base_cap() == capacity,
    {
        let t = TopK {
            buf: Vec::new(),
            cap: capacity,
            base: capacity,
            inserted: Ghost(Multiset::empty()),
        };
        proof {
            broadcast use group_multiset_axioms;
            broadcast use group_to_multiset_ensures;

            assert(t.buf@.to_multiset() =~= Multiset::<Solution>::empty());
        }
        t
    }

    /// Record one candidate.  The buffer may be cut back to the smallest
    /// distances, but everything ever inserted stays accounted for.
    pub fn push(&mut self, x: Solution)
        requires
            old(self).wf(),
        ensures
            final(self).wf(),
            final(self).inserted_ms() == old(self).inserted_ms().insert(x),
            final(self).base_cap() == old(self).base_cap(),
    {
        proof {
            broadcast use group_multiset_axioms;
            broadcast use group_to_multiset_ensures;

        }
        let ghost b0 = self.buf@.to_multiset();
        let ghost i0 = self.inserted@;
        self.buf.push(x);
        self.inserted = Ghost(self.inserted@.insert(x));
        proof {
            let b1 = self.buf@.to_multiset();
            let i1 = self.inserted@;
            assert(b1 == b0.insert(x));
            assert(b1.subset_of(i1)) by {
                assert forall|v: Solution| b1.count(v) <= i1.count(v) by {
                    assert(b0.count(v) <= i0.count(v));
                }
            }
            assert forall|y: Solution|
                i1.count(y) > b1.count(y) implies count_le(b1, y.distance) >= self.base by {
                assert(i0.count(y) > b0.count(y));
                assert(count_le(b0, y.distance) >= self.base);
                lemma_count_le_insert(b0, x, y.distance);
            }
        }
        if self.buf.len() > self.cap {
            let ghost b1 = self.buf@.to_multiset();
            let ghost i1 = self.inserted@;
            let sorted = sort_by_distance(&self.buf);
            self.buf = sorted;
            let ghost s = self.buf@;
            let cap = self.cap;
            self.buf.truncate(cap);
            proof {
                broadcast use group_multiset_axioms;
                broadcast use group_to_multiset_ensures;

                let t = s.take(cap as int);
                assert(self.buf@ == t);
                let b2 = t.to_multiset();
                let last = s[cap as int];
                assert(s =~= t.push(last));
                assert(b1 == b2.insert(last));
                assert(sorted_dist(t)) by {
                    assert forall|i: int, j: int|
                        0 <= i <= j < t.len() implies t[i].distance <= t[j].distance by {
                        assert(t[i] == s[i] && t[j] == s[j]);
                    }
                }
                // every kept candidate is at or below the dropped one
                assert forall|i: int| 0 <= i < t.len() implies t[i].distance <= last.distance by {
                    assert(t[i] == s[i]);
                    assert(s[i].distance <= s[cap as int].distance);
                }
                lemma_sorted_count_le(t, last.distance);
                assert(count_le(b2, last.distance) == t.len()) by {
                    if count_le(b2, last.distance) < t.len() {
                        let i = count_le(b2, last.distance) as int;
                        assert(t[i].distance <= last.distance);
                        assert(false);
                    }
                }
                assert(b2.subset_of(i1)) by {
                    assert forall|v: Solution| b2.count(v) <= i1.count(v) by {
                        assert(b2.count(v) <= b1.count(v)) by {
                            assert(b1.count(v) == b2.count(v) + if v == last {
                                1int
                            } else {
                                0int
                            });
                        }
                        assert(b1.count(v) <= i1.count(v));
                    }
                }
                assert forall|y: Solution|
                    i1.count(y) > b2.count(y) implies count_le(b2, y.distance) >= self.base by {
                    if b1.count(y) > b2.count(y) {
                        // only the dropped candidate lost a copy
                        assert(b1.count(y) == b2.count(y) + if y == last {
                            1int
                        } else {
                            0int
                        });
                        assert(y == last);
                        lemma_sorted_count_le(t, y.distance);
                        if count_le(b2, y.distance) < t.len() {
                            let i = count_le(b2, y.distance) as int;
                            assert(t[i].distance <= y.distance);
                            assert(false);
                        }
                    } else {
                        assert(i1.count(y) > b1.count(y));
                        assert(count_le(b1, y.distance) >= self.base);
                        lemma_count_le_insert(b2, last, y.distance);
                        if last.distance <= y.distance {
                            lemma_sorted_count_le(t, y.distance);
                            if count_le(b2, y.distance) < t.len() {
                                let i = count_le(b2, y.distance) as int;
                                assert(t[i].distance <= last.distance);
                                assert(false);
                            }
                        }
                    }
                }
                // lengths: the buffer was just cut to exactly the capacity
                assert(b2.len() == t.len()) by {
                    assert(t.len() == b2.len());
                }
                lemma_subset_len(b2, i1);
            }
            if self.cap <= usize::MAX / 2 {
                self.cap = self.cap * 2;
            } else {
                self.cap = usize::MAX;
            }
        }
    }

    /// The `n` smallest-distance candidates ever inserted (all of them, if
    /// fewer than `n` were inserted), sorted by ascending distance.
    ///
    /// The postconditions say exactly that: the result is a sub-multiset of
    /// everything inserted, of the right length, and nothing outside it has
    /// a smaller distance than anything inside it.
    pub fn finalize(&self, n: usize) -> (r: Vec<Solution>)
        requires
            self.wf(),
            n <= self.base_cap(),
        ensures
            is_smallest_selection(self.inserted_ms(), r@),
            r@.len() == vstd::math::min(n as int, self.inserted_ms().len() as int),
    {
        proof {
            broadcast use group_multiset_axioms;
            broadcast use group_to_multiset_ensures;

        }
        let sorted = sort_by_distance(&self.buf);
        let ghost s = sorted@;
        let ghost b = self.buf@.to_multiset();
        let ghost ins = self.inserted@;
        let k: usize = if n <= sorted.len() {
            n
        } else {
            sorted.len()
        };
        proof {
            lemma_subset_len(b, ins);
            if self.buf@.len() < n {
                // a short buffer means nothing was ever cut
                assert(ins.len() == self.buf@.len());
            }
        }
        let mut r = sorted;
        r.truncate(k);
        proof {
            broadcast use group_multiset_axioms;
            broadcast use group_to_multiset_ensures;

            let t = s.take(k as int);
            assert(r@ == t);
            assert(sorted_dist(t)) by {
                assert forall|i: int, j: int|
                    0 <= i <= j < t.len() implies t[i].distance <= t[j].distance by {
                    assert(t[i] == s[i] && t[j] == s[j]);
                }
            }
            lemma_take_submultiset(s, k as int);
            assert(t.to_multiset().subset_of(ins)) by {
                assert forall|v: Solution| t.to_multiset().count(v) <= ins.count(v) by {
                    assert(t.to_multiset().count(v) <= s.to_multiset().count(v));
                    assert(s.to_multiset().count(v) <= ins.count(v));
                }
            }
            assert forall|y: Solution|
                ins.count(y) > t.to_multiset().count(y) implies forall|i: int|
                0 <= i < t.len() ==> (#[trigger] t[i]).distance <= y.distance by {
                if s.to_multiset().count(y) > t.to_multiset().count(y) {
                    // the witness sits past the kept prefix of the sorted buffer
                    let j = choose|j: int| k <= j < s.len() && s[j] == y;
                    assert forall|i: int| 0 <= i < t.len() implies t[i].distance <= y.distance by {
                        assert(t[i] == s[i]);
                        assert(s[i].distance <= s[j].distance);
                    }
                } else {
                    // the candidate was cut away earlier: the buffer holds at
                    // least `base >= n >= k` candidates at or below it
                    assert(ins.count(y) > s.to_multiset().count(y));
                    assert(count_le(b, y.distance) >= self.base);
                    lemma_sorted_count_le(s, y.distance);
                    assert forall|i: int| 0 <= i < t.len() implies t[i].distance <= y.distance by {
                        assert(t[i] == s[i]);
                        assert(i < count_le(s.to_multiset(), y.distance));
                    }
                }
            }
        }
        r
    }
}

} // verus!
