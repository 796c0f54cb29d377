//! Ratio solver: invert a target distance back into a mixing ratio.
//!
//! The solver walks the admissible ratio grid (10 to 90 hundredths) and
//! returns the ratio whose blend distance to the compound is closest to the
//! target, preferring the larger ratio on ties.

use vstd::prelude::*;
use vstd::math::abs;
use crate::geom::Drug;
use crate::geom::Solvent;
use crate::geom::SolventMix;
use crate::geom::mixture;
use crate::geom::standard_dist;
use crate::geom::spec_mixture;
use crate::geom::spec_standard_dist;
use crate::geom::spec_vec3;

verus! {

/// Failure of the ratio solver.  It is reported, never a crash; on the
/// integer ratio grid every scan records a candidate, so the solver in fact
/// proves it always succeeds.
#[derive(Clone, Copy, Debug, PartialEq, Eq, Structural)]
pub enum SolveError {
    RatioNotFound,
}

/// Distance from the blend of `a` and `b` at ratio `r` to the compound.
pub open spec fn spec_mix_dist(a: Solvent, b: Solvent, drug: Drug, r: int) -> int {
    spec_standard_dist(spec_mixture(a.spec_params(), b.spec_params(), r), drug.spec_params())
}

/// How far the blend distance at ratio `r` misses the target distance.
pub open spec fn spec_mix_diff(a: Solvent, b: Solvent, drug: Drug, target: int, r: int) -> int {
    abs(spec_mix_dist(a, b, drug, r) - target) as int
}

/// The ratio in `[10, r]` whose miss is smallest, preferring the largest
/// such ratio when several miss equally.
pub open spec fn spec_best_ratio(a: Solvent, b: Solvent, drug: Drug, target: int, r: int) -> int
    decreases r,
{
    if r <= 10 {
        10
    } else {
        let p = spec_best_ratio(a, b, drug, target, r - 1);
        if spec_mix_diff(a, b, drug, target, r) <= spec_mix_diff(a, b, drug, target, p) {
            r
        } else {
            p
        }
    }
}

/// The chosen ratio misses the target no more than any ratio on the grid,
/// and every larger ratio misses it strictly more.
pub proof fn lemma_best_ratio_optimal(a: Solvent, b: Solvent, drug: Drug, target: int, r: int)
    requires
        10 <= r,
    ensures
        10 <= spec_best_ratio(a, b, drug, target, r) <= r,
        forall|k: int|
            10 <= k <= r ==> spec_mix_diff(a, b, drug, target, spec_best_ratio(a, b, drug, target, r))
                <= #[trigger] spec_mix_diff(a, b, drug, target, k),
        forall|k: int|
            spec_best_ratio(a, b, drug, target, r) < k <= r ==> #[trigger] spec_mix_diff(
                a, b, drug, target, k)
                > spec_mix_diff(a, b, drug, target, spec_best_ratio(a, b, drug, target, r)),
    decreases r,
{
    if r == 10 {
    } else {
        lemma_best_ratio_optimal(a, b, drug, target, r - 1);
    }
}

/// Find the mixing ratio of `a` and `b` whose blend distance to the
/// compound is closest to `dist`, scanning the grid of hundredths from 10
/// to 90; ties keep the larger ratio of `a`.  Returns the ratio of `a` and
/// the ratio of `b`, in hundredths.
pub fn mix_solver(a: &Solvent, b: &Solvent, drug: &Drug, dist: u64) -> (res: Result<
    (u8, u8),
    SolveError,
>)
    requires
        a.spec_params().bounded(),
        b.spec_params().bounded(),
        drug.spec_params().bounded(),
    ensures
        res matches Ok(pair) && {
            &&& pair.0 == spec_best_ratio(*a, *b, *drug, dist as int, 90)
            &&& pair.1 == 100 - pair.0
            &&& 10 <= pair.0 <= 90
            &&& forall|k: int|
                10 <= k <= 90 ==> spec_mix_diff(*a, *b, *drug, dist as int, pair.0 as int)
                    <= #[trigger] spec_mix_diff(*a, *b, *drug, dist as int, k)
            &&& forall|k: int|
                pair.0 < k <= 90 ==> #[trigger] spec_mix_diff(*a, *b, *drug, dist as int, k)
                    > spec_mix_diff(*a, *b, *drug, dist as int, pair.0 as int)
        },
{
    let mix0: SolventMix = mixture(a, b, 10);
    let d0: u64 = standard_dist(
        mix0.sol_params.x,
        mix0.sol_params.y,
        mix0.sol_params.z,
        drug.d_d,
        drug.d_p,
        drug.d_h,
    );
    let mut best_r: u8 = 10;
    let mut best_diff: u64 = if d0 >= dist {
        d0 - dist
    } else {
        dist - d0
    };
    proof {
        assert(spec_vec3(mix0.sol_params.x, mix0.sol_params.y, mix0.sol_params.z)
            == mix0.sol_params);
        assert(best_diff == spec_mix_diff(*a, *b, *drug, dist as int, 10));
    }
    let mut r: u8 = 11;
    while r <= 90
        invariant
            11 <= r <= 91,
            a.spec_params().bounded(),
            b.spec_params().bounded(),
            drug.spec_params().bounded(),
            10 <= best_r < r,
            best_r == spec_best_ratio(*a, *b, *drug, dist as int, r as int - 1),
            best_diff == spec_mix_diff(*a, *b, *drug, dist as int, best_r as int),
        decreases 91 - r,
    {
        let mix: SolventMix = mixture(a, b, r);
        let d: u64 = standard_dist(
            mix.sol_params.x,
            mix.sol_params.y,
            mix.sol_params.z,
            drug.d_d,
            drug.d_p,
            drug.d_h,
        );
        let diff: u64 = if d >= dist {
            d - dist
        } else {
            dist - d
        };
        proof {
            assert(spec_vec3(mix.sol_params.x, mix.sol_params.y, mix.sol_params.z)
                == mix.sol_params);
            assert(diff == spec_mix_diff(*a, *b, *drug, dist as int, r as int));
        }
        if diff <= best_diff {
            best_r = r;
            best_diff = diff;
        }
        r = r + 1;
    }
    proof {
        lemma_best_ratio_optimal(*a, *b, *drug, dist as int, 90);
    }
    Ok((best_r, 100 - best_r))
}

} // verus!
