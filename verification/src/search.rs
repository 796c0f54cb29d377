//! Search orchestration: enumerate solvent pairs per compound, keep the
//! nearest pairs, merge across compounds, rank pairs by how many compounds
//! chose them, and resolve the winning distances into mixing ratios.

use vstd::prelude::*;
use vstd::multiset::Multiset;
use vstd::multiset::group_multiset_axioms;
use vstd::seq_lib::group_to_multiset_ensures;
use crate::codec::cantor;
use crate::codec::spec_cantor;
use crate::geom::Drug;
use crate::geom::Solvent;
use crate::geom::Vec3;
use crate::geom::distance;
use crate::geom::line_segment;
use crate::geom::spec_distance;
use crate::geom::spec_mixture;
use crate::codec::inv_cantor;
use crate::solver::mix_solver;
use crate::topk::Solution;
use crate::topk::TopK;
use crate::topk::is_smallest_selection;

verus! {

/// Starting capacity of every compound's top-K selector.  The per-compound
/// retention `n` must not exceed it.
pub const INITIAL_CAPACITY: usize = 100_000;

/// The candidate formed for the solvents at indexes `i` and `j`: the pair id
/// encodes the two solvent ids in ascending order, and the distance is from
/// the compound to the pair's achievable blend segment.
pub open spec fn spec_candidate(drug: Drug, solves: Seq<Solvent>, i: int, j: int) -> Solution {
    let a = solves[i];
    let b = solves[j];
    let lo_id = if a.id <= b.id {
        a.id
    } else {
        b.id
    };
    let hi_id = if a.id <= b.id {
        b.id
    } else {
        a.id
    };
    Solution {
        mix_id: spec_cantor(lo_id as int, hi_id as int) as u64,
        drug_id: drug.id,
        distance: spec_distance(
            drug.spec_params(),
            spec_mixture(a.spec_params(), b.spec_params(), 90),
            spec_mixture(a.spec_params(), b.spec_params(), 10),
        ) as u64,
    }
}

/// Candidates of the pairs `(i, j0), (i, j0 + 1), ...` up to the end of the
/// solvent table.
pub open spec fn spec_row_cands(drug: Drug, solves: Seq<Solvent>, i: int, j0: int) -> Seq<
    Solution,
>
    decreases solves.len() - j0,
{
    if j0 < 0 || j0 >= solves.len() {
        Seq::empty()
    } else {
        seq![spec_candidate(drug, solves, i, j0)] + spec_row_cands(drug, solves, i, j0 + 1)
    }
}

/// Candidates of every pair `(i, j)` with `i0 <= i < j`.
pub open spec fn spec_cands_from(drug: Drug, solves: Seq<Solvent>, i0: int) -> Seq<Solution>
    decreases solves.len() - i0,
{
    if i0 < 0 || i0 >= solves.len() {
        Seq::empty()
    } else {
        spec_row_cands(drug, solves, i0, i0 + 1) + spec_cands_from(drug, solves, i0 + 1)
    }
}

/// Every unordered solvent pair's candidate for this compound, each pair
/// exactly once.
pub open spec fn spec_candidates(drug: Drug, solves: Seq<Solvent>) -> Seq<Solution> {
    spec_cands_from(drug, solves, 0)
}

/// Each row's candidate list holds one candidate per remaining pair partner.
proof fn lemma_row_cands_len(drug: Drug, solves: Seq<Solvent>, i: int, j0: int)
    requires
        0 <= j0,
    ensures
        spec_row_cands(drug, solves, i, j0).len() as int == if j0 >= solves.len() {
            0int
        } else {
            solves.len() - j0
        },
    decreases solves.len() - j0,
{
    if j0 < solves.len() {
        lemma_row_cands_len(drug, solves, i, j0 + 1);
    }
}

/// Doubled pair count of the rows from `i0` on: two candidates per pair.
proof fn lemma_cands_from_len(drug: Drug, solves: Seq<Solvent>, i0: int)
    requires
        0 <= i0,
    ensures
        2 * (spec_cands_from(drug, solves, i0).len() as int) == if i0 >= solves.len() {
            0int
        } else {
            (solves.len() - i0) * (solves.len() - i0 - 1)
        },
    decreases solves.len() - i0,
{
    if i0 < solves.len() {
        lemma_row_cands_len(drug, solves, i0, i0 + 1);
        lemma_cands_from_len(drug, solves, i0 + 1);
        if i0 + 1 >= solves.len() {
            assert((solves.len() - i0) * (solves.len() - i0 - 1) == 0) by (nonlinear_arith)
                requires
                    solves.len() - i0 == 1,
            ;
        } else {
            assert(2 * (solves.len() - (i0 + 1)) + (solves.len() - (i0 + 1)) * (solves.len() - (
            i0 + 1) - 1) == (solves.len() - i0) * (solves.len() - i0 - 1)) by (nonlinear_arith);
        }
    }
}

/// The enumeration measures the compound against every unordered solvent
/// pair exactly once: with `m` solvents there are exactly
/// `m * (m - 1) / 2` candidates.
pub proof fn lemma_candidates_len(drug: Drug, solves: Seq<Solvent>)
    ensures
        2 * (spec_candidates(drug, solves).len() as int) == solves.len() * (solves.len() - 1),
        solves.len() <= 1 ==> spec_candidates(drug, solves).len() == 0,
{
    lemma_cands_from_len(drug, solves, 0);
    if solves.len() <= 1 {
        assert(solves.len() * (solves.len() - 1) == 0) by (nonlinear_arith)
            requires
                0 <= solves.len() <= 1,
        ;
    }
}

/// The candidate was formed from this compound and some pair of the solvent
/// table.
pub open spec fn spec_from_tables(x: Solution, drug: Drug, solves: Seq<Solvent>) -> bool {
    exists|i: int, j: int| 0 <= i < j < solves.len() && x == spec_candidate(drug, solves, i, j)
}

/// Everything in a row's candidate list is the candidate of a concrete pair.
proof fn lemma_row_cands_membership(drug: Drug, solves: Seq<Solvent>, i: int, j0: int, x: Solution)
    requires
        spec_row_cands(drug, solves, i, j0).contains(x),
    ensures
        exists|j: int| j0 <= j < solves.len() && x == spec_candidate(drug, solves, i, j),
    decreases solves.len() - j0,
{
    let s = spec_row_cands(drug, solves, i, j0);
    let k = choose|k: int| 0 <= k < s.len() && s[k] == x;
    if k == 0 {
        assert(x == spec_candidate(drug, solves, i, j0));
    } else {
        let rest = spec_row_cands(drug, solves, i, j0 + 1);
        assert(rest[k - 1] == x);
        assert(rest.contains(x));
        lemma_row_cands_membership(drug, solves, i, j0 + 1, x);
    }
}

/// Everything in the candidate list is the candidate of a concrete pair.
proof fn lemma_cands_membership(drug: Drug, solves: Seq<Solvent>, i0: int, x: Solution)
    requires
        spec_cands_from(drug, solves, i0).contains(x),
        0 <= i0,
    ensures
        exists|i: int, j: int|
            i0 <= i < j < solves.len() && x == spec_candidate(drug, solves, i, j),
    decreases solves.len() - i0,
{
    let row = spec_row_cands(drug, solves, i0, i0 + 1);
    let rest = spec_cands_from(drug, solves, i0 + 1);
    let s = spec_cands_from(drug, solves, i0);
    let k = choose|k: int| 0 <= k < s.len() && s[k] == x;
    if k < row.len() {
        assert(row[k] == x);
        assert(row.contains(x));
        lemma_row_cands_membership(drug, solves, i0, i0 + 1, x);
        let j = choose|j: int|
            i0 + 1 <= j < solves.len() && x == spec_candidate(drug, solves, i0, j);
        assert(i0 <= i0 < j < solves.len() && x == spec_candidate(drug, solves, i0, j));
    } else {
        assert(rest[k - row.len()] == x);
        assert(rest.contains(x));
        lemma_cands_membership(drug, solves, i0 + 1, x);
    }
}

/// Everything the candidate multiset holds comes from a concrete pair.
pub proof fn lemma_candidates_from_tables(drug: Drug, solves: Seq<Solvent>, x: Solution)
    requires
        spec_candidates(drug, solves).to_multiset().count(x) > 0,
    ensures
        spec_from_tables(x, drug, solves),
{
    broadcast use group_to_multiset_ensures;

    assert(spec_candidates(drug, solves).contains(x));
    lemma_cands_membership(drug, solves, 0, x);
}

/// Every solvent of the table is well formed.
pub open spec fn spec_solvents_wf(solves: Seq<Solvent>) -> bool {
    forall|k: int| 0 <= k < solves.len() ==> (#[trigger] solves[k]).wf()
}

/// Enumerate every solvent pair once, measure how close the pair's blend
/// segment comes to the compound, and keep the `n` nearest pairs: the result
/// is exactly the `n` smallest-distance candidates (in ascending order) of
/// the full enumeration.
pub fn search_compound(drug: &Drug, solves: &Vec<Solvent>, n: usize) -> (r: Vec<Solution>)
    requires
        drug.wf(),
        spec_solvents_wf(solves@),
        n <= INITIAL_CAPACITY,
    ensures
        is_smallest_selection(spec_candidates(*drug, solves@).to_multiset(), r@),
        r@.len() == vstd::math::min(
            n as int,
            spec_candidates(*drug, solves@).to_multiset().len() as int,
        ),
        forall|k: int| 0 <= k < r@.len() ==> spec_from_tables(#[trigger] r@[k], *drug, solves@),
        2 * (spec_candidates(*drug, solves@).to_multiset().len() as int) == solves@.len() * (
        solves@.len() - 1),
{
    proof {
        broadcast use group_multiset_axioms;
        broadcast use group_to_multiset_ensures;

        lemma_candidates_len(*drug, solves@);
        assert(spec_candidates(*drug, solves@).to_multiset().len() == spec_candidates(
            *drug,
            solves@,
        ).len());
    }
    let ghost full = spec_candidates(*drug, solves@).to_multiset();
    let mut t = TopK::new(INITIAL_CAPACITY);
    proof {
        assert(full =~= t.inserted_ms().add(spec_cands_from(*drug, solves@, 0).to_multiset()));
    }
    let mut i: usize = 0;
    while i < solves.len()
        invariant
            i <= solves@.len(),
            drug.wf(),
            spec_solvents_wf(solves@),
            t.wf(),
            t.base_cap() == INITIAL_CAPACITY,
            full == t.inserted_ms().add(spec_cands_from(*drug, solves@, i as int).to_multiset()),
        decreases solves@.len() - i,
    {
        proof {
            broadcast use group_multiset_axioms;
            broadcast use group_to_multiset_ensures;

            assert(spec_cands_from(*drug, solves@, i as int) == spec_row_cands(
                *drug,
                solves@,
                i as int,
                i as int + 1,
            ) + spec_cands_from(*drug, solves@, i as int + 1));
            vstd::seq_lib::lemma_multiset_commutative(
                spec_row_cands(*drug, solves@, i as int, i as int + 1),
                spec_cands_from(*drug, solves@, i as int + 1),
            );
        }
        let mut j: usize = i + 1;
        while j < solves.len()
            invariant
                i < solves@.len(),
                i + 1 <= j <= solves@.len(),
                drug.wf(),
                spec_solvents_wf(solves@),
                t.wf(),
                t.base_cap() == INITIAL_CAPACITY,
                full == t.inserted_ms().add(
                    (spec_row_cands(*drug, solves@, i as int, j as int) + spec_cands_from(
                        *drug,
                        solves@,
                        i as int + 1,
                    )).to_multiset(),
                ),
            decreases solves@.len() - j,
        {
            let sa = &solves[i];
            let sb = &solves[j];
            let seg: (Vec3, Vec3) = line_segment(sa, sb);
            let c: u64 = distance(drug, &seg.0, &seg.1);
            let mid: u64 = if sa.id <= sb.id {
                cantor(sa.id, sb.id)
            } else {
                cantor(sb.id, sa.id)
            };
            let sol = Solution { mix_id: mid, drug_id: drug.id, distance: c };
            proof {
                broadcast use group_multiset_axioms;
                broadcast use group_to_multiset_ensures;

                assert(sol == spec_candidate(*drug, solves@, i as int, j as int));
                let row = spec_row_cands(*drug, solves@, i as int, j as int);
                let row1 = spec_row_cands(*drug, solves@, i as int, j as int + 1);
                let rest = spec_cands_from(*drug, solves@, i as int + 1);
                assert(row == seq![sol] + row1);
                assert(seq![sol] =~= Seq::<Solution>::empty().push(sol));
                assert(seq![sol].to_multiset() =~= Multiset::<Solution>::empty().insert(sol));
                assert(row + rest =~= seq![sol] + (row1 + rest));
                vstd::seq_lib::lemma_multiset_commutative(seq![sol], row1 + rest);
                vstd::seq_lib::lemma_multiset_commutative(row1, rest);
                assert((row + rest).to_multiset() =~= (row1 + rest).to_multiset().insert(sol));
            }
            t.push(sol);
            proof {
                broadcast use group_multiset_axioms;

                assert(full =~= t.inserted_ms().add(
                    (spec_row_cands(*drug, solves@, i as int, j as int + 1) + spec_cands_from(
                        *drug,
                        solves@,
                        i as int + 1,
                    )).to_multiset(),
                ));
            }
            j = j + 1;
        }
        proof {
            broadcast use group_multiset_axioms;
            broadcast use group_to_multiset_ensures;

            assert(spec_row_cands(*drug, solves@, i as int, j as int) =~= Seq::<
                Solution,
            >::empty());
            assert(spec_row_cands(*drug, solves@, i as int, j as int) + spec_cands_from(
                *drug,
                solves@,
                i as int + 1,
            ) =~= spec_cands_from(*drug, solves@, i as int + 1));
        }
        i = i + 1;
    }
    proof {
        broadcast use group_multiset_axioms;
        broadcast use group_to_multiset_ensures;

        assert(spec_cands_from(*drug, solves@, i as int) =~= Seq::<Solution>::empty());
        assert(spec_cands_from(*drug, solves@, i as int).to_multiset() =~= Multiset::<
            Solution,
        >::empty());
        assert(full =~= t.inserted_ms());
    }
    let r = t.finalize(n);
    proof {
        broadcast use group_to_multiset_ensures;

        assert forall|k: int|
            0 <= k < r@.len() implies spec_from_tables(#[trigger] r@[k], *drug, solves@) by {
            assert(r@.contains(r@[k]));
            assert(r@.to_multiset().count(r@[k]) > 0);
            assert(full.count(r@[k]) > 0);
            lemma_candidates_from_tables(*drug, solves@, r@[k]);
        }
    }
    r
}

/// Per-pair aggregate over the merged per-compound results: how many results
/// chose this pair, and the result that chose it at the smallest distance
/// (the first such, scanning in merge order).
#[derive(Clone, Copy, Debug, PartialEq, Eq, Structural)]
pub struct PairStat {
    pub mix_id: u64,
    pub count: usize,
    pub best: Solution,
}

/// How many results carry this pair id.
pub open spec fn spec_count_id(s: Seq<Solution>, id: u64) -> nat
    decreases s.len(),
{
    if s.len() == 0 {
        0
    } else {
        spec_count_id(s.drop_last(), id) + if s.last().mix_id == id {
            1nat
        } else {
            0nat
        }
    }
}

/// The distinct pair ids of `s`, in order of first appearance.
pub open spec fn spec_first_ids(s: Seq<Solution>) -> Seq<u64>
    decreases s.len(),
{
    if s.len() == 0 {
        Seq::empty()
    } else {
        let t = spec_first_ids(s.drop_last());
        if t.contains(s.last().mix_id) {
            t
        } else {
            t.push(s.last().mix_id)
        }
    }
}

/// The first result of `s` with this pair id whose distance is minimal among
/// all results with this pair id.
pub open spec fn spec_best_for(s: Seq<Solution>, id: u64) -> Solution
    decreases s.len(),
{
    if s.len() == 0 {
        Solution { mix_id: id, drug_id: 0, distance: 0 }
    } else if s.last().mix_id == id {
        if spec_count_id(s.drop_last(), id) == 0 {
            s.last()
        } else {
            let p = spec_best_for(s.drop_last(), id);
            if s.last().distance < p.distance {
                s.last()
            } else {
                p
            }
        }
    } else {
        spec_best_for(s.drop_last(), id)
    }
}

/// The distinct-id list holds an id exactly when some result carries it, and
/// holds no id twice.
pub proof fn lemma_first_ids_facts(s: Seq<Solution>)
    ensures
        forall|id: u64| spec_first_ids(s).contains(id) <==> spec_count_id(s, id) > 0,
        forall|k1: int, k2: int|
            0 <= k1 < k2 < spec_first_ids(s).len() ==> spec_first_ids(s)[k1] != spec_first_ids(
                s,
            )[k2],
    decreases s.len(),
{
    if s.len() == 0 {
    } else {
        lemma_first_ids_facts(s.drop_last());
        let t = spec_first_ids(s.drop_last());
        let r = spec_first_ids(s);
        let x = s.last().mix_id;
        assert forall|id: u64| r.contains(id) implies spec_count_id(s, id) > 0 by {
            if id == x {
            } else {
                assert(t.contains(id) ==> spec_count_id(s.drop_last(), id) > 0);
                if !t.contains(x) {
                    // r is t extended by x; membership of id != x falls on t
                    let k = choose|k: int| 0 <= k < r.len() && r[k] == id;
                    assert(k < t.len());
                    assert(t.contains(id));
                }
            }
        }
        assert forall|id: u64| spec_count_id(s, id) > 0 implies r.contains(id) by {
            if id == x {
                if t.contains(x) {
                } else {
                    assert(r[r.len() - 1] == x);
                }
            } else {
                assert(spec_count_id(s.drop_last(), id) > 0);
                assert(t.contains(id));
                let k = choose|k: int| 0 <= k < t.len() && t[k] == id;
                assert(r[k] == id);
            }
        }
        if !t.contains(x) {
            assert forall|k1: int, k2: int|
                0 <= k1 < k2 < r.len() implies r[k1] != r[k2] by {
                if k2 == r.len() - 1 {
                    assert(r[k1] == t[k1]);
                    assert(t.contains(t[k1]));
                }
            }
        }
    }
}

/// The representative result of a pair id carries that id, appears among the
/// results, and no result with the id lies below it.
pub proof fn lemma_best_for_facts(s: Seq<Solution>, id: u64)
    requires
        spec_count_id(s, id) > 0,
    ensures
        spec_best_for(s, id).mix_id == id,
        s.contains(spec_best_for(s, id)),
        forall|k: int|
            0 <= k < s.len() && (#[trigger] s[k]).mix_id == id ==> spec_best_for(
                s,
                id,
            ).distance <= s[k].distance,
    decreases s.len(),
{
    let b = spec_best_for(s, id);
    let t = s.drop_last();
    if s.last().mix_id == id && spec_count_id(t, id) == 0 {
        assert(s[s.len() - 1] == s.last());
        assert forall|k: int|
            0 <= k < s.len() && (#[trigger] s[k]).mix_id == id implies b.distance
            <= s[k].distance by {
            if k < s.len() - 1 {
                lemma_count_id_positive(t, k);
                assert(false);
            }
        }
    } else if s.last().mix_id == id {
        lemma_best_for_facts(t, id);
        assert(t.contains(spec_best_for(t, id)) ==> s.contains(spec_best_for(t, id))) by {
            if t.contains(spec_best_for(t, id)) {
                let k = choose|k: int| 0 <= k < t.len() && t[k] == spec_best_for(t, id);
                assert(s[k] == spec_best_for(t, id));
            }
        }
        assert(s[s.len() - 1] == s.last());
        assert forall|k: int|
            0 <= k < s.len() && (#[trigger] s[k]).mix_id == id implies b.distance
            <= s[k].distance by {
            if k < s.len() - 1 {
                assert(t[k] == s[k]);
            }
        }
    } else {
        assert(spec_count_id(t, id) > 0);
        lemma_best_for_facts(t, id);
        let k0 = choose|k: int| 0 <= k < t.len() && t[k] == spec_best_for(t, id);
        assert(s[k0] == b);
        assert(s.contains(b));
        assert forall|k: int|
            0 <= k < s.len() && (#[trigger] s[k]).mix_id == id implies b.distance
            <= s[k].distance by {
            if k < s.len() - 1 {
                assert(t[k] == s[k]);
            }
        }
    }
}

/// A result with the id at index `k` makes the id's count positive.
proof fn lemma_count_id_positive(s: Seq<Solution>, k: int)
    requires
        0 <= k < s.len(),
    ensures
        spec_count_id(s, s[k].mix_id) > 0,
    decreases s.len(),
{
    if k == s.len() - 1 {
    } else {
        lemma_count_id_positive(s.drop_last(), k);
        assert(s.drop_last()[k] == s[k]);
    }
}

/// Does the id list hold this id?
fn contains_id(ids: &Vec<u64>, id: u64) -> (b: bool)
    ensures
        b == ids@.contains(id),
{
    let mut p: usize = 0;
    while p < ids.len()
        invariant
            p <= ids@.len(),
            forall|q: int| 0 <= q < p ==> ids@[q] != id,
        decreases ids@.len() - p,
    {
        if ids[p] == id {
            return true;
        }
        p = p + 1;
    }
    false
}

/// The distinct pair ids of the results, in order of first appearance.
fn distinct_ids(res: &Vec<Solution>) -> (ids: Vec<u64>)
    ensures
        ids@ == spec_first_ids(res@),
{
    let mut ids: Vec<u64> = Vec::new();
    let mut k: usize = 0;
    while k < res.len()
        invariant
            k <= res@.len(),
            ids@ == spec_first_ids(res@.take(k as int)),
        decreases res@.len() - k,
    {
        let id = res[k].mix_id;
        let found = contains_id(&ids, id);
        if !found {
            ids.push(id);
        }
        proof {
            assert(res@.take(k + 1).drop_last() =~= res@.take(k as int));
            assert(res@.take(k + 1).last() == res@[k as int]);
        }
        k = k + 1;
    }
    proof {
        assert(res@.take(res@.len() as int) =~= res@);
    }
    ids
}

/// Count the results that carry this pair id.
fn count_for(res: &Vec<Solution>, id: u64) -> (c: usize)
    ensures
        c == spec_count_id(res@, id),
{
    let mut c: usize = 0;
    let mut k: usize = 0;
    while k < res.len()
        invariant
            k <= res@.len(),
            c <= k,
            c == spec_count_id(res@.take(k as int), id),
        decreases res@.len() - k,
    {
        proof {
            assert(res@.take(k + 1).drop_last() =~= res@.take(k as int));
            assert(res@.take(k + 1).last() == res@[k as int]);
        }
        if res[k].mix_id == id {
            c = c + 1;
        }
        k = k + 1;
    }
    proof {
        assert(res@.take(res@.len() as int) =~= res@);
    }
    c
}

/// The representative result of this pair id: the first one whose distance
/// is minimal among all results carrying the id.
fn best_for(res: &Vec<Solution>, id: u64) -> (b: Solution)
    requires
        spec_count_id(res@, id) > 0,
    ensures
        b == spec_best_for(res@, id),
{
    let mut cur = Solution { mix_id: id, drug_id: 0, distance: 0 };
    let mut found = false;
    let mut k: usize = 0;
    while k < res.len()
        invariant
            k <= res@.len(),
            found == (spec_count_id(res@.take(k as int), id) > 0),
            found ==> cur == spec_best_for(res@.take(k as int), id),
        decreases res@.len() - k,
    {
        proof {
            assert(res@.take(k + 1).drop_last() =~= res@.take(k as int));
            assert(res@.take(k + 1).last() == res@[k as int]);
        }
        if res[k].mix_id == id {
            if !found || res[k].distance < cur.distance {
                cur = res[k];
            }
            found = true;
        }
        k = k + 1;
    }
    proof {
        assert(res@.take(res@.len() as int) =~= res@);
    }
    cur
}

/// The full per-pair aggregate of the merged results: one stat per distinct
/// pair id, in order of first appearance.
pub open spec fn spec_stats_of(res: Seq<Solution>) -> Seq<PairStat> {
    Seq::new(
        spec_first_ids(res).len(),
        |k: int|
            PairStat {
                mix_id: spec_first_ids(res)[k],
                count: spec_count_id(res, spec_first_ids(res)[k]) as usize,
                best: spec_best_for(res, spec_first_ids(res)[k]),
            },
    )
}

/// Aggregate the merged results by pair id: one stat per distinct pair, in
/// order of first appearance, with its occurrence count and its
/// minimal-distance representative.
pub fn count_pairs(res: &Vec<Solution>) -> (stats: Vec<PairStat>)
    ensures
        stats@ == spec_stats_of(res@),
        stats@.len() == spec_first_ids(res@).len(),
        forall|k: int|
            0 <= k < stats@.len() ==> (#[trigger] stats@[k]).mix_id == spec_first_ids(res@)[k],
        forall|k: int|
            0 <= k < stats@.len() ==> (#[trigger] stats@[k]).count == spec_count_id(
                res@,
                stats@[k].mix_id,
            ),
        forall|k: int|
            0 <= k < stats@.len() ==> (#[trigger] stats@[k]).best == spec_best_for(
                res@,
                stats@[k].mix_id,
            ),
{
    let ids = distinct_ids(res);
    proof {
        lemma_first_ids_facts(res@);
    }
    let mut stats: Vec<PairStat> = Vec::new();
    let mut k: usize = 0;
    while k < ids.len()
        invariant
            k <= ids@.len(),
            ids@ == spec_first_ids(res@),
            forall|id: u64| ids@.contains(id) ==> spec_count_id(res@, id) > 0,
            stats@.len() == k,
            forall|q: int| 0 <= q < k ==> (#[trigger] stats@[q]).mix_id == ids@[q],
            forall|q: int|
                0 <= q < k ==> (#[trigger] stats@[q]).count == spec_count_id(
                    res@,
                    stats@[q].mix_id,
                ),
            forall|q: int|
                0 <= q < k ==> (#[trigger] stats@[q]).best == spec_best_for(
                    res@,
                    stats@[q].mix_id,
                ),
        decreases ids@.len() - k,
    {
        let id = ids[k];
        proof {
            assert(ids@.contains(id));
        }
        let c = count_for(res, id);
        let b = best_for(res, id);
        // counts are bounded by the number of results
        proof {
            lemma_count_id_le_len(res@, id);
        }
        stats.push(PairStat { mix_id: id, count: c, best: b });
        k = k + 1;
    }
    proof {
        assert(stats@ =~= spec_stats_of(res@));
    }
    stats
}

/// An id's count never exceeds the number of results.
proof fn lemma_count_id_le_len(s: Seq<Solution>, id: u64)
    ensures
        spec_count_id(s, id) <= s.len(),
    decreases s.len(),
{
    if s.len() > 0 {
        lemma_count_id_le_len(s.drop_last(), id);
    }
}

/// Ranking of pair stats: more occurrences first; ties broken by the smaller
/// representative distance, then by the smaller pair id, so that the ranking
/// is total and the selection deterministic.
pub open spec fn spec_rank_le(p: PairStat, q: PairStat) -> bool {
    ||| p.count > q.count
    ||| (p.count == q.count && p.best.distance < q.best.distance)
    ||| (p.count == q.count && p.best.distance == q.best.distance && p.mix_id <= q.mix_id)
}

/// The stats are ordered from best-ranked to worst-ranked.
pub open spec fn sorted_rank(s: Seq<PairStat>) -> bool {
    forall|i: int, j: int| 0 <= i <= j < s.len() ==> spec_rank_le(s[i], s[j])
}

/// Does `p` rank at or above `q`?
fn rank_le(p: &PairStat, q: &PairStat) -> (b: bool)
    ensures
        b == spec_rank_le(*p, *q),
{
    if p.count > q.count {
        true
    } else if p.count == q.count && p.best.distance < q.best.distance {
        true
    } else if p.count == q.count && p.best.distance == q.best.distance && p.mix_id <= q.mix_id {
        true
    } else {
        false
    }
}

/// Sort stats from best-ranked to worst-ranked; the result is a permutation
/// of the input.
fn sort_by_rank(v: &Vec<PairStat>) -> (r: Vec<PairStat>)
    ensures
        sorted_rank(r@),
        r@.to_multiset() == v@.to_multiset(),
        r@.len() == v@.len(),
{
    proof {
        broadcast use group_to_multiset_ensures;

    }
    let mut r: Vec<PairStat> = Vec::new();
    let mut idx: usize = 0;
    while idx < v.len()
        invariant
            idx <= v@.len(),
            sorted_rank(r@),
            r@.len() == idx,
            r@.to_multiset() == v@.take(idx as int).to_multiset(),
        decreases v@.len() - idx,
    {
        let x: PairStat = v[idx];
        let mut p: usize = 0;
        while p < r.len() && rank_le(&r[p], &x)
            invariant
                p <= r@.len(),
                sorted_rank(r@),
                forall|q: int| 0 <= q < p ==> spec_rank_le(#[trigger] r@[q], x),
            decreases r@.len() - p,
        {
            p = p + 1;
        }
        let ghost old_r = r@;
        r.insert(p, x);
        proof {
            broadcast use group_multiset_axioms;
            broadcast use group_to_multiset_ensures;

            old_r.insert_ensures(p as int, x);
            vstd::seq_lib::to_multiset_insert(old_r, p as int, x);
            assert(sorted_rank(r@)) by {
                assert forall|i: int, j: int|
                    0 <= i <= j < r@.len() implies spec_rank_le(r@[i], r@[j]) by {
                    if j < p {
                        assert(r@[i] == old_r[i] && r@[j] == old_r[j]);
                    } else if i > p {
                        assert(r@[i] == old_r[i - 1] && r@[j] == old_r[j - 1]);
                    } else if i < p && j == p {
                        assert(r@[i] == old_r[i]);
                    } else if i == p && j > p {
                        assert(r@[j] == old_r[j - 1]);
                        assert(p < old_r.len());
                        assert(!spec_rank_le(old_r[p as int], x));
                        assert(spec_rank_le(old_r[p as int], old_r[j - 1]));
                    } else if i < p && j > p {
                        assert(r@[i] == old_r[i] && r@[j] == old_r[j - 1]);
                        assert(!spec_rank_le(old_r[p as int], x));
                        assert(spec_rank_le(old_r[i], old_r[p as int]));
                        assert(spec_rank_le(old_r[p as int], old_r[j - 1]));
                    }
                }
            }
            assert(v@.take(idx + 1).drop_last() =~= v@.take(idx as int));
            assert(v@.take(idx + 1) =~= v@.take(idx as int).push(x));
            assert(r@.to_multiset() == v@.take(idx + 1).to_multiset());
        }
        idx = idx + 1;
    }
    proof {
        assert(v@.take(v@.len() as int) =~= v@);
    }
    r
}

/// The `m` best-ranked stats, best first (all of them, if fewer exist):
/// nothing outside the returned prefix ranks above anything inside it.
pub fn rank_stats(stats: &Vec<PairStat>, m: usize) -> (top: Vec<PairStat>)
    ensures
        sorted_rank(top@),
        top@.len() == vstd::math::min(m as int, stats@.len() as int),
        top@.to_multiset().subset_of(stats@.to_multiset()),
        forall|y: PairStat|
            stats@.to_multiset().count(y) > top@.to_multiset().count(y) ==> forall|k: int|
                0 <= k < top@.len() ==> spec_rank_le(#[trigger] top@[k], y),
{
    proof {
        broadcast use group_multiset_axioms;
        broadcast use group_to_multiset_ensures;

    }
    let sorted = sort_by_rank(stats);
    let ghost s = sorted@;
    let k: usize = if m <= sorted.len() {
        m
    } else {
        sorted.len()
    };
    let mut top = sorted;
    top.truncate(k);
    proof {
        broadcast use group_multiset_axioms;
        broadcast use group_to_multiset_ensures;

        let t = s.take(k as int);
        assert(top@ == t);
        assert(sorted_rank(t)) by {
            assert forall|i: int, j: int|
                0 <= i <= j < t.len() implies spec_rank_le(t[i], t[j]) by {
                assert(t[i] == s[i] && t[j] == s[j]);
            }
        }
        crate::topk::lemma_take_submultiset(s, k as int);
        assert forall|y: PairStat|
            stats@.to_multiset().count(y) > t.to_multiset().count(y) implies forall|q: int|
            0 <= q < t.len() ==> spec_rank_le(#[trigger] t[q], y) by {
            assert(s.to_multiset().count(y) > t.to_multiset().count(y));
            let j = choose|j: int| k <= j < s.len() && s[j] == y;
            assert forall|q: int| 0 <= q < t.len() implies spec_rank_le(#[trigger] t[q], y) by {
                assert(t[q] == s[q]);
                assert(spec_rank_le(s[q], s[j]));
            }
        }
    }
    top
}

/// Results belonging to the compound with this id.
pub open spec fn by_drug(id: u64) -> spec_fn(Solution) -> bool {
    |x: Solution| x.drug_id == id
}

/// Both tables are well formed: every record has its id within the codec's
/// range and its coordinates within the supported range, and ids are unique
/// within each table.
pub open spec fn spec_tables_wf(drugs: Seq<Drug>, solves: Seq<Solvent>) -> bool {
    &&& forall|k: int| 0 <= k < drugs.len() ==> (#[trigger] drugs[k]).wf()
    &&& spec_solvents_wf(solves)
    &&& forall|k1: int, k2: int| 0 <= k1 < k2 < drugs.len() ==> drugs[k1].id != drugs[k2].id
    &&& forall|k1: int, k2: int| 0 <= k1 < k2 < solves.len() ==> solves[k1].id != solves[k2].id
}

/// The result was formed for one of the table's compounds from one of the
/// table's solvent pairs.
#[verifier::opaque]
pub open spec fn spec_res_from_tables(x: Solution, drugs: Seq<Drug>, solves: Seq<Solvent>) -> bool {
    exists|di: int|
        0 <= di < drugs.len() && x.drug_id == (#[trigger] drugs[di]).id && spec_from_tables(
            x,
            drugs[di],
            solves,
        )
}

/// Every result comes from the tables.
pub open spec fn spec_res_ok(res: Seq<Solution>, drugs: Seq<Drug>, solves: Seq<Solvent>) -> bool {
    forall|q: int| 0 <= q < res.len() ==> spec_res_from_tables(#[trigger] res[q], drugs, solves)
}

/// Within the merged results, the results measured for this compound are
/// exactly its `n` nearest solvent pairs (ascending): the `n` smallest of its
/// full pair enumeration.
#[verifier::opaque]
pub open spec fn drug_slice_ok(res: Seq<Solution>, drug: Drug, solves: Seq<Solvent>, n: int) -> bool {
    &&& is_smallest_selection(
        spec_candidates(drug, solves).to_multiset(),
        res.filter(by_drug(drug.id)),
    )
    &&& res.filter(by_drug(drug.id)).len() == vstd::math::min(
        n,
        spec_candidates(drug, solves).to_multiset().len() as int,
    )
}

/// Filtering keeps nothing when nothing qualifies.
proof fn lemma_filter_none<V>(s: Seq<V>, f: spec_fn(V) -> bool)
    requires
        forall|q: int| 0 <= q < s.len() ==> !f(#[trigger] s[q]),
    ensures
        s.filter(f) == Seq::<V>::empty(),
    decreases s.len(),
{
    reveal(Seq::filter);
    if s.len() == 0 {
        assert(s.filter(f) =~= Seq::<V>::empty());
    } else {
        assert forall|q: int| 0 <= q < s.drop_last().len() implies !f(#[trigger] s.drop_last()[q]) by {
            assert(s.drop_last()[q] == s[q]);
        }
        lemma_filter_none(s.drop_last(), f);
        assert(!f(s.last()));
    }
}

/// Filtering keeps everything when everything qualifies.
proof fn lemma_filter_all<V>(s: Seq<V>, f: spec_fn(V) -> bool)
    requires
        forall|q: int| 0 <= q < s.len() ==> f(#[trigger] s[q]),
    ensures
        s.filter(f) == s,
    decreases s.len(),
{
    reveal(Seq::filter);
    if s.len() == 0 {
    } else {
        assert forall|q: int| 0 <= q < s.drop_last().len() implies f(#[trigger] s.drop_last()[q]) by {
            assert(s.drop_last()[q] == s[q]);
        }
        lemma_filter_all(s.drop_last(), f);
        assert(f(s.last()));
        assert(s.filter(f) =~= s);
    }
}

/// A candidate formed for a compound carries that compound's id.
proof fn lemma_from_tables_drug_id(x: Solution, drug: Drug, solves: Seq<Solvent>)
    requires
        spec_from_tables(x, drug, solves),
    ensures
        x.drug_id == drug.id,
{
    let (i, j) = choose|i: int, j: int|
        0 <= i < j < solves.len() && x == spec_candidate(drug, solves, i, j);
    assert(x == spec_candidate(drug, solves, i, j));
}

/// Search every compound independently and merge the per-compound results.
/// For each compound, the merged list's results for that compound are
/// exactly its `n` nearest solvent pairs.
pub fn search_all(drugs: &Vec<Drug>, solves: &Vec<Solvent>, n: usize) -> (res: Vec<Solution>)
    requires
        spec_tables_wf(drugs@, solves@),
        n <= INITIAL_CAPACITY,
    ensures
        spec_res_ok(res@, drugs@, solves@),
        forall|di: int|
            0 <= di < drugs@.len() ==> drug_slice_ok(
                res@,
                (#[trigger] drugs@[di]),
                solves@,
                n as int,
            ),
{
    let mut res: Vec<Solution> = Vec::new();
    let mut k: usize = 0;
    while k < drugs.len()
        invariant
            k <= drugs@.len(),
            spec_tables_wf(drugs@, solves@),
            n <= INITIAL_CAPACITY,
            forall|q: int|
                0 <= q < res@.len() ==> exists|di: int|
                    0 <= di < k && (#[trigger] res@[q]).drug_id == drugs@[di].id
                        && spec_from_tables(res@[q], drugs@[di], solves@),
            forall|di: int|
                0 <= di < k ==> drug_slice_ok(res@, (#[trigger] drugs@[di]), solves@, n as int),
        decreases drugs@.len() - k,
    {
        let drug = &drugs[k];
        let mut part = search_compound(drug, solves, n);
        let ghost old_res = res@;
        let ghost part_seq = part@;
        res.append(&mut part);
        proof {
            assert(res@ == old_res + part_seq);
            // every new result belongs to the compound just searched
            assert forall|q: int|
                0 <= q < part_seq.len() implies (#[trigger] part_seq[q]).drug_id == drugs@[
            k as int].id && spec_from_tables(part_seq[q], drugs@[k as int], solves@) by {
                lemma_from_tables_drug_id(part_seq[q], drugs@[k as int], solves@);
            }
            // results of other compounds are untouched by this append
            assert forall|di: int|
                0 <= di < k implies drug_slice_ok(res@, (#[trigger] drugs@[di]), solves@, n as int) by {
                assert forall|q: int|
                    0 <= q < part_seq.len() implies !(by_drug(drugs@[di].id)(
                #[trigger] part_seq[q])) by {
                    assert(part_seq[q].drug_id == drugs@[k as int].id);
                    assert(drugs@[di].id != drugs@[k as int].id);
                }
                lemma_filter_none(part_seq, by_drug(drugs@[di].id));
                Seq::filter_distributes_over_add(old_res, part_seq, by_drug(drugs@[di].id));
                assert(old_res.filter(by_drug(drugs@[di].id)) + Seq::<Solution>::empty()
                    =~= old_res.filter(by_drug(drugs@[di].id)));
                assert(res@.filter(by_drug(drugs@[di].id)) == old_res.filter(
                    by_drug(drugs@[di].id)));
                reveal(drug_slice_ok);
            }
            // this compound's results are exactly the part just appended
            assert(drug_slice_ok(res@, drugs@[k as int], solves@, n as int)) by {
                assert forall|q: int|
                    0 <= q < old_res.len() implies !(by_drug(drugs@[k as int].id)(
                #[trigger] old_res[q])) by {
                    let di = choose|di: int|
                        0 <= di < k && old_res[q].drug_id == drugs@[di].id && spec_from_tables(
                            old_res[q],
                            drugs@[di],
                            solves@,
                        );
                    assert(drugs@[di].id != drugs@[k as int].id);
                }
                lemma_filter_none(old_res, by_drug(drugs@[k as int].id));
                assert forall|q: int|
                    0 <= q < part_seq.len() implies by_drug(drugs@[k as int].id)(
                #[trigger] part_seq[q]) by {}
                lemma_filter_all(part_seq, by_drug(drugs@[k as int].id));
                Seq::filter_distributes_over_add(old_res, part_seq, by_drug(drugs@[k as int].id));
                assert(Seq::<Solution>::empty() + part_seq =~= part_seq);
                assert(res@.filter(by_drug(drugs@[k as int].id)) == part_seq);
                reveal(drug_slice_ok);
            }
            // membership invariant for the grown list
            assert forall|q: int|
                0 <= q < res@.len() implies exists|di: int|
                0 <= di < k + 1 && (#[trigger] res@[q]).drug_id == drugs@[di].id
                    && spec_from_tables(res@[q], drugs@[di], solves@) by {
                if q < old_res.len() {
                    assert(res@[q] == old_res[q]);
                    let di = choose|di: int|
                        0 <= di < k && old_res[q].drug_id == drugs@[di].id && spec_from_tables(
                            old_res[q],
                            drugs@[di],
                            solves@,
                        );
                    assert(0 <= di && di < k + 1 && res@[q].drug_id == drugs@[di].id
                        && spec_from_tables(res@[q], drugs@[di], solves@));
                } else {
                    assert(res@[q] == part_seq[q - old_res.len()]);
                    let ghost ki = k as int;
                    assert(0 <= ki && ki < k + 1 && res@[q].drug_id == drugs@[ki].id
                        && spec_from_tables(res@[q], drugs@[ki], solves@));
                }
            }
        }
        k = k + 1;
    }
    proof {
        reveal(spec_res_from_tables);
        assert forall|q: int|
            0 <= q < res@.len() implies spec_res_from_tables(#[trigger] res@[q], drugs@, solves@) by {
            let di = choose|di: int|
                0 <= di < drugs@.len() && res@[q].drug_id == drugs@[di].id && spec_from_tables(
                    res@[q],
                    drugs@[di],
                    solves@,
                );
        }
    }
    res
}

/// One output row: a winning solvent pair for a compound, with the resolved
/// mixing ratio (in hundredths) and the fixed-point blend-segment distance.
#[derive(Clone, Debug)]
pub struct FinalSolution {
    pub drug: String,
    pub mix_id: u64,
    pub solvent_a: String,
    pub solvent_a_ratio: u8,
    pub solvent_b: String,
    pub solvent_b_ratio: u8,
    pub hansen_distance: u64,
}

/// Failure of the search pipeline.
#[derive(Clone, Copy, Debug, PartialEq, Eq, Structural)]
pub enum SearchError {
    /// A pair id decoded to a solvent id absent from the solvent table.
    UnknownSolvent,
    /// A result named a compound id absent from the compound table.
    UnknownDrug,
    /// The tables fail validation or the retention exceeds the selector's
    /// initial capacity.
    InvalidInput,
}

/// Index of the first solvent with this id, if any.
fn find_solvent(solves: &Vec<Solvent>, id: u64) -> (r: Option<usize>)
    ensures
        r matches Some(k) ==> 0 <= k < solves@.len() && solves@[k as int].id == id,
        r is None ==> forall|q: int| 0 <= q < solves@.len() ==> (#[trigger] solves@[q]).id != id,
{
    let mut k: usize = 0;
    while k < solves.len()
        invariant
            k <= solves@.len(),
            forall|q: int| 0 <= q < k ==> (#[trigger] solves@[q]).id != id,
        decreases solves@.len() - k,
    {
        if solves[k].id == id {
            return Some(k);
        }
        k = k + 1;
    }
    None
}

/// Index of the first compound with this id, if any.
fn find_drug(drugs: &Vec<Drug>, id: u64) -> (r: Option<usize>)
    ensures
        r matches Some(k) ==> 0 <= k < drugs@.len() && drugs@[k as int].id == id,
        r is None ==> forall|q: int| 0 <= q < drugs@.len() ==> (#[trigger] drugs@[q]).id != id,
{
    let mut k: usize = 0;
    while k < drugs.len()
        invariant
            k <= drugs@.len(),
            forall|q: int| 0 <= q < k ==> (#[trigger] drugs@[q]).id != id,
        decreases drugs@.len() - k,
    {
        if drugs[k].id == id {
            return Some(k);
        }
        k = k + 1;
    }
    None
}

/// The row correctly resolves its stat: the names come from the compound
/// that chose the pair and from the two solvents the pair id decodes to, the
/// distance is the representative's, and the ratio is the solver's optimum
/// for that pair, compound and distance.
pub open spec fn spec_row_ok(
    row: FinalSolution,
    stat: PairStat,
    drugs: Seq<Drug>,
    solves: Seq<Solvent>,
) -> bool {
    exists|di: int, ai: int, bi: int|
        {
            &&& 0 <= di < drugs.len()
            &&& 0 <= ai < solves.len()
            &&& 0 <= bi < solves.len()
            &&& (#[trigger] drugs[di]).id == stat.best.drug_id
            &&& (#[trigger] solves[ai]).id == crate::codec::spec_uncantor_a(stat.mix_id as int)
            &&& (#[trigger] solves[bi]).id == crate::codec::spec_uncantor_b(stat.mix_id as int)
            &&& row.drug == drugs[di].drug
            &&& row.solvent_a == solves[ai].solvent
            &&& row.solvent_b == solves[bi].solvent
            &&& row.mix_id == stat.mix_id
            &&& row.hansen_distance == stat.best.distance
            &&& row.solvent_a_ratio == crate::solver::spec_best_ratio(
                solves[ai],
                solves[bi],
                drugs[di],
                stat.best.distance as int,
                90,
            )
            &&& row.solvent_b_ratio == 100 - row.solvent_a_ratio
        }
}

/// A pair id with a positive count among results that come from the tables
/// decodes to two solvent ids present in the solvent table, and its
/// representative names a compound present in the compound table.
proof fn lemma_rep_decodes(res: Seq<Solution>, drugs: Seq<Drug>, solves: Seq<Solvent>, id: u64)
    requires
        spec_tables_wf(drugs, solves),
        spec_res_ok(res, drugs, solves),
        spec_count_id(res, id) > 0,
    ensures
        exists|si: int|
            0 <= si < solves.len() && (#[trigger] solves[si]).id == crate::codec::spec_uncantor_a(
                id as int,
            ),
        exists|si: int|
            0 <= si < solves.len() && (#[trigger] solves[si]).id == crate::codec::spec_uncantor_b(
                id as int,
            ),
        exists|di: int|
            0 <= di < drugs.len() && (#[trigger] drugs[di]).id == spec_best_for(res, id).drug_id,
{
    reveal(spec_res_from_tables);
    lemma_best_for_facts(res, id);
    let b = spec_best_for(res, id);
    let q = choose|q: int| 0 <= q < res.len() && res[q] == b;
    assert(spec_res_from_tables(res[q], drugs, solves));
    let di = choose|di: int|
        0 <= di < drugs.len() && b.drug_id == drugs[di].id && spec_from_tables(
            b,
            drugs[di],
            solves,
        );
    let (i, j) = choose|i: int, j: int|
        0 <= i < j < solves.len() && b == spec_candidate(drugs[di], solves, i, j);
    let a_s = solves[i];
    let b_s = solves[j];
    let lo = if a_s.id <= b_s.id {
        a_s.id
    } else {
        b_s.id
    };
    let hi = if a_s.id <= b_s.id {
        b_s.id
    } else {
        a_s.id
    };
    // the pairing of two in-range ids fits 64 bits, so the stored id is exact
    crate::codec::lemma_triangle_double(lo as int + hi as int);
    assert(0 <= spec_cantor(lo as int, hi as int) < 0x1_0000_0000_0000_0000) by (nonlinear_arith)
        requires
            2 * crate::codec::spec_triangle(lo as int + hi as int) == (lo as int + hi as int) * (
            lo as int + hi as int + 1),
            spec_cantor(lo as int, hi as int) == crate::codec::spec_triangle(
                lo as int + hi as int,
            ) + lo as int,
            0 <= lo as int <= 2_000_000_000,
            0 <= hi as int <= 2_000_000_000,
    ;
    assert(b.mix_id == spec_cantor(lo as int, hi as int));
    assert(id == spec_cantor(lo as int, hi as int));
    crate::codec::lemma_cantor_roundtrip(lo as int, hi as int);
    assert(crate::codec::spec_uncantor_a(id as int) == lo);
    assert(crate::codec::spec_uncantor_b(id as int) == hi);
    if a_s.id <= b_s.id {
        assert(solves[i].id == lo && solves[j].id == hi);
    } else {
        assert(solves[j].id == lo && solves[i].id == hi);
    }
}

/// Merge-side aggregation: count how many results chose each pair, rank the
/// pairs by occurrence (ties by smaller representative distance, then pair
/// id), keep the `max_results` best, and resolve each kept pair into an
/// output row via its minimal-distance representative.  Succeeds whenever
/// the results come from the tables; an unknown decoded id is reported, not
/// a crash.
pub fn aggregate(
    res: &Vec<Solution>,
    drugs: &Vec<Drug>,
    solves: &Vec<Solvent>,
    max_results: usize,
) -> (out: Result<(Vec<FinalSolution>, Vec<PairStat>), SearchError>)
    requires
        spec_tables_wf(drugs@, solves@),
    ensures
        spec_res_ok(res@, drugs@, solves@) ==> out is Ok,
        out matches Ok(pair) ==> {
            &&& sorted_rank(pair.1@)
            &&& pair.1@.len() == vstd::math::min(
                max_results as int,
                spec_stats_of(res@).len() as int,
            )
            &&& pair.1@.to_multiset().subset_of(spec_stats_of(res@).to_multiset())
            &&& (forall|y: PairStat|
                spec_stats_of(res@).to_multiset().count(y) > pair.1@.to_multiset().count(y)
                    ==> forall|k: int|
                    0 <= k < pair.1@.len() ==> spec_rank_le(#[trigger] pair.1@[k], y))
            &&& pair.0@.len() == pair.1@.len()
            &&& (forall|k: int|
                0 <= k < pair.0@.len() ==> spec_row_ok(
                    #[trigger] pair.0@[k],
                    pair.1@[k],
                    drugs@,
                    solves@,
                ))
        },
{
    proof {
        broadcast use group_to_multiset_ensures;

        lemma_first_ids_facts(res@);
    }
    let stats = count_pairs(res);
    let top = rank_stats(&stats, max_results);
    let mut rows: Vec<FinalSolution> = Vec::new();
    let mut k: usize = 0;
    while k < top.len()
        invariant
            k <= top@.len(),
            spec_tables_wf(drugs@, solves@),
            stats@ == spec_stats_of(res@),
            top@.to_multiset().subset_of(stats@.to_multiset()),
            rows@.len() == k,
            forall|q: int|
                0 <= q < k ==> spec_row_ok(#[trigger] rows@[q], top@[q], drugs@, solves@),
        decreases top@.len() - k,
    {
        let stat = top[k];
        proof {
            broadcast use group_to_multiset_ensures;

            lemma_first_ids_facts(res@);
            assert(top@.contains(top@[k as int]));
            assert(top@.to_multiset().count(stat) > 0);
            assert(stats@.to_multiset().count(stat) > 0);
            assert(stats@.contains(stat));
            let q = choose|q: int| 0 <= q < stats@.len() && stats@[q] == stat;
            assert(stat.mix_id == spec_first_ids(res@)[q]);
            assert(spec_first_ids(res@).contains(stat.mix_id));
            assert(spec_count_id(res@, stat.mix_id) > 0);
            assert(stat.best == spec_best_for(res@, stat.mix_id));
        }
        let ids = inv_cantor(stat.mix_id);
        let sa_idx = match find_solvent(solves, ids.0) {
            Some(x) => x,
            None => {
                proof {
                    if spec_res_ok(res@, drugs@, solves@) {
                        lemma_rep_decodes(res@, drugs@, solves@, stat.mix_id);
                        assert(false);
                    }
                }
                return Err(SearchError::UnknownSolvent);
            },
        };
        let sb_idx = match find_solvent(solves, ids.1) {
            Some(x) => x,
            None => {
                proof {
                    if spec_res_ok(res@, drugs@, solves@) {
                        lemma_rep_decodes(res@, drugs@, solves@, stat.mix_id);
                        assert(false);
                    }
                }
                return Err(SearchError::UnknownSolvent);
            },
        };
        let d_idx = match find_drug(drugs, stat.best.drug_id) {
            Some(x) => x,
            None => {
                proof {
                    if spec_res_ok(res@, drugs@, solves@) {
                        lemma_rep_decodes(res@, drugs@, solves@, stat.mix_id);
                        assert(false);
                    }
                }
                return Err(SearchError::UnknownDrug);
            },
        };
        let sa = &solves[sa_idx];
        let sb = &solves[sb_idx];
        let dd = &drugs[d_idx];
        let solved = mix_solver(sa, sb, dd, stat.best.distance);
        let ratios = match solved {
            Ok(r) => r,
            Err(_) => {
                // unreachable: on the integer ratio grid the solver always
                // records a candidate
                proof {
                    assert(false);
                }
                return Err(SearchError::UnknownSolvent);
            },
        };
        let row = FinalSolution {
            drug: dd.drug.clone(),
            mix_id: stat.mix_id,
            solvent_a: sa.solvent.clone(),
            solvent_a_ratio: ratios.0,
            solvent_b: sb.solvent.clone(),
            solvent_b_ratio: ratios.1,
            hansen_distance: stat.best.distance,
        };
        rows.push(row);
        proof {
            let ghost dii = d_idx as int;
            let ghost aii = sa_idx as int;
            let ghost bii = sb_idx as int;
            assert(0 <= dii < drugs@.len() && 0 <= aii < solves@.len() && 0 <= bii
                < solves@.len() && drugs@[dii].id == stat.best.drug_id && solves@[aii].id
                == crate::codec::spec_uncantor_a(stat.mix_id as int) && solves@[bii].id
                == crate::codec::spec_uncantor_b(stat.mix_id as int) && rows@[k as int].drug
                == drugs@[dii].drug && rows@[k as int].solvent_a == solves@[aii].solvent
                && rows@[k as int].solvent_b == solves@[bii].solvent && rows@[k as int].mix_id
                == stat.mix_id && rows@[k as int].hansen_distance == stat.best.distance
                && rows@[k as int].solvent_a_ratio == crate::solver::spec_best_ratio(
                solves@[aii],
                solves@[bii],
                drugs@[dii],
                stat.best.distance as int,
                90,
            ) && rows@[k as int].solvent_b_ratio == 100 - rows@[k as int].solvent_a_ratio);
            assert(spec_row_ok(rows@[k as int], top@[k as int], drugs@, solves@));
        }
        k = k + 1;
    }
    Ok((rows, top))
}

/// Do both tables pass validation: ids within the codec's range, coordinates
/// within the supported range, ids unique within each table?
pub fn validate_tables(drugs: &Vec<Drug>, solves: &Vec<Solvent>) -> (b: bool)
    ensures
        b == spec_tables_wf(drugs@, solves@),
{
    let mut k: usize = 0;
    while k < drugs.len()
        invariant
            k <= drugs@.len(),
            forall|q: int| 0 <= q < k ==> (#[trigger] drugs@[q]).wf(),
        decreases drugs@.len() - k,
    {
        let d = &drugs[k];
        if !(d.id <= crate::codec::ID_LIMIT && -crate::geom::COORD_LIMIT <= d.d_d && d.d_d
            <= crate::geom::COORD_LIMIT && -crate::geom::COORD_LIMIT <= d.d_p && d.d_p
            <= crate::geom::COORD_LIMIT && -crate::geom::COORD_LIMIT <= d.d_h && d.d_h
            <= crate::geom::COORD_LIMIT) {
            return false;
        }
        k = k + 1;
    }
    let mut k: usize = 0;
    while k < solves.len()
        invariant
            k <= solves@.len(),
            forall|q: int| 0 <= q < k ==> (#[trigger] solves@[q]).wf(),
        decreases solves@.len() - k,
    {
        let sv = &solves[k];
        if !(sv.id <= crate::codec::ID_LIMIT && -crate::geom::COORD_LIMIT <= sv.d_d && sv.d_d
            <= crate::geom::COORD_LIMIT && -crate::geom::COORD_LIMIT <= sv.d_p && sv.d_p
            <= crate::geom::COORD_LIMIT && -crate::geom::COORD_LIMIT <= sv.d_h && sv.d_h
            <= crate::geom::COORD_LIMIT) {
            return false;
        }
        k = k + 1;
    }
    let mut k1: usize = 0;
    while k1 < drugs.len()
        invariant
            k1 <= drugs@.len(),
            forall|q1: int, q2: int| 0 <= q1 < q2 < drugs@.len() && q1 < k1 ==> drugs@[q1].id
                != drugs@[q2].id,
        decreases drugs@.len() - k1,
    {
        let mut k2: usize = k1 + 1;
        while k2 < drugs.len()
            invariant
                k1 < k2 <= drugs@.len() || (k1 as int == drugs@.len() && k2 == k1 + 1),
                k1 < drugs@.len(),
                forall|q2: int| k1 < q2 < k2 ==> drugs@[k1 as int].id != drugs@[q2].id,
            decreases drugs@.len() - k2,
        {
            if drugs[k1].id == drugs[k2].id {
                return false;
            }
            k2 = k2 + 1;
        }
        k1 = k1 + 1;
    }
    let mut k1: usize = 0;
    while k1 < solves.len()
        invariant
            k1 <= solves@.len(),
            forall|q1: int, q2: int| 0 <= q1 < q2 < solves@.len() && q1 < k1 ==> solves@[q1].id
                != solves@[q2].id,
        decreases solves@.len() - k1,
    {
        let mut k2: usize = k1 + 1;
        while k2 < solves.len()
            invariant
                k1 < k2 <= solves@.len() || (k1 as int == solves@.len() && k2 == k1 + 1),
                k1 < solves@.len(),
                forall|q2: int| k1 < q2 < k2 ==> solves@[k1 as int].id != solves@[q2].id,
            decreases solves@.len() - k2,
        {
            if solves[k1].id == solves[k2].id {
                return false;
            }
            k2 = k2 + 1;
        }
        k1 = k1 + 1;
    }
    true
}

/// Configuration of one whole search run: the per-compound retention `n`,
/// the two input table locations, and the global retention `max_results`.
pub struct TopN {
    pub n: usize,
    pub drugs_file: String,
    pub solves_file: String,
    pub max_results: usize,
}

impl TopN {
    /// A search configuration with the given retentions and table locations.
    pub fn new(n: usize, drugs_file: String, solves_file: String, max_results: usize) -> (t:
        TopN)
        ensures
            t.n == n,
            t.drugs_file == drugs_file,
            t.solves_file == solves_file,
            t.max_results == max_results,
    {
        TopN { n, drugs_file, solves_file, max_results }
    }

    /// Run the whole search over loaded tables: per-compound nearest-pair
    /// search, cross-compound ranking, and ratio resolution.  Returns the
    /// output rows together with the ranked per-pair stats (pair id and
    /// occurrence count) that they were built from.
    ///
    /// Distances use the unweighted convention.  Data sets that weight the
    /// first (dispersion) axis apply their factor to the coordinates before
    /// the tables are handed in; the search itself never rescales them.
    pub fn calculate(&self, drugs: &Vec<Drug>, solves: &Vec<Solvent>) -> (out: Result<
        (Vec<FinalSolution>, Vec<PairStat>),
        SearchError,
    >)
        requires
            spec_tables_wf(drugs@, solves@),
            self.n <= INITIAL_CAPACITY,
        ensures
            out is Ok,
            out matches Ok(pair) ==> {
                &&& sorted_rank(pair.1@)
                &&& pair.1@.len() <= self.max_results
                &&& pair.0@.len() == pair.1@.len()
                &&& (forall|k: int|
                    0 <= k < pair.0@.len() ==> spec_row_ok(
                        #[trigger] pair.0@[k],
                        pair.1@[k],
                        drugs@,
                        solves@,
                    ))
            },
            out matches Ok(pair) ==> exists|res: Seq<Solution>|
                #![trigger spec_res_ok(res, drugs@, solves@)]
                {
                    &&& spec_res_ok(res, drugs@, solves@)
                    &&& (forall|di: int|
                        0 <= di < drugs@.len() ==> drug_slice_ok(
                            res,
                            (#[trigger] drugs@[di]),
                            solves@,
                            self.n as int,
                        ))
                    &&& pair.1@.len() == vstd::math::min(
                        self.max_results as int,
                        spec_stats_of(res).len() as int,
                    )
                    &&& pair.1@.to_multiset().subset_of(spec_stats_of(res).to_multiset())
                    &&& (forall|y: PairStat|
                        spec_stats_of(res).to_multiset().count(y) > pair.1@.to_multiset().count(
                            y,
                        ) ==> forall|k: int|
                            0 <= k < pair.1@.len() ==> spec_rank_le(#[trigger] pair.1@[k], y))
                },
    {
        let res = search_all(drugs, solves, self.n);
        let out = aggregate(&res, drugs, solves, self.max_results);
        proof {
            if out is Ok {
                let pair = out->Ok_0;
                assert(spec_res_ok(res@, drugs@, solves@) && (forall|di: int|
                    0 <= di < drugs@.len() ==> drug_slice_ok(
                        res@,
                        (#[trigger] drugs@[di]),
                        solves@,
                        self.n as int,
                    )) && pair.1@.len() == vstd::math::min(
                    self.max_results as int,
                    spec_stats_of(res@).len() as int,
                ) && pair.1@.to_multiset().subset_of(spec_stats_of(res@).to_multiset()) && (
                forall|y: PairStat|
                    spec_stats_of(res@).to_multiset().count(y) > pair.1@.to_multiset().count(y)
                        ==> forall|k: int|
                        0 <= k < pair.1@.len() ==> spec_rank_le(#[trigger] pair.1@[k], y)));
            }
        }
        out
    }

    /// `calculate`, with the input conditions checked at run time: rejected
    /// tables or an oversized retention are reported as `InvalidInput`,
    /// never a crash.
    pub fn run(&self, drugs: &Vec<Drug>, solves: &Vec<Solvent>) -> (out: Result<
        (Vec<FinalSolution>, Vec<PairStat>),
        SearchError,
    >)
        ensures
            out is Ok <==> (spec_tables_wf(drugs@, solves@) && self.n <= INITIAL_CAPACITY),
            out matches Ok(pair) ==> exists|res: Seq<Solution>|
                #![trigger spec_res_ok(res, drugs@, solves@)]
                {
                    &&& spec_res_ok(res, drugs@, solves@)
                    &&& (forall|di: int|
                        0 <= di < drugs@.len() ==> drug_slice_ok(
                            res,
                            (#[trigger] drugs@[di]),
                            solves@,
                            self.n as int,
                        ))
                    &&& pair.1@.len() == vstd::math::min(
                        self.max_results as int,
                        spec_stats_of(res).len() as int,
                    )
                    &&& pair.1@.to_multiset().subset_of(spec_stats_of(res).to_multiset())
                    &&& (forall|y: PairStat|
                        spec_stats_of(res).to_multiset().count(y) > pair.1@.to_multiset().count(
                            y,
                        ) ==> forall|k: int|
                            0 <= k < pair.1@.len() ==> spec_rank_le(#[trigger] pair.1@[k], y))
                },
            out matches Ok(pair) ==> {
                &&& sorted_rank(pair.1@)
                &&& pair.1@.len() <= self.max_results
                &&& pair.0@.len() == pair.1@.len()
                &&& (forall|k: int|
                    0 <= k < pair.0@.len() ==> spec_row_ok(
                        #[trigger] pair.0@[k],
                        pair.1@[k],
                        drugs@,
                        solves@,
                    ))
            },
            out matches Err(e) ==> e == SearchError::InvalidInput,
    {
        if !validate_tables(drugs, solves) {
            return Err(SearchError::InvalidInput);
        }
        if self.n > INITIAL_CAPACITY {
            return Err(SearchError::InvalidInput);
        }
        self.calculate(drugs, solves)
    }
}

} // verus!
