//! Pair identifier codec.
//!
//! An unordered solvent pair is stored as a single integer: the Cantor
//! pairing of the two ids.  The codec is 64 bits wide so that the pairing
//! cannot overflow for any ids the library accepts (`ID_LIMIT`).

use vstd::prelude::*;
use crate::math::isqrt;
use crate::math::sqrt_floor;
use crate::math::lemma_sqrt_floor_bounds;

verus! {

/// Largest solvent or compound identifier the codec supports.
pub const ID_LIMIT: u64 = 2_000_000_000;

/// The `s`-th triangular number, `0 + 1 + ... + s`.
pub open spec fn spec_triangle(s: int) -> int
    decreases s,
{
    if s <= 0 {
        0
    } else {
        s + spec_triangle(s - 1)
    }
}

/// Twice a triangular number is the product of two consecutive integers.
pub proof fn lemma_triangle_double(s: int)
    requires
        0 <= s,
    ensures
        2 * spec_triangle(s) == s * (s + 1),
    decreases s,
{
    if s == 0 {
    } else {
        lemma_triangle_double(s - 1);
        assert(2 * spec_triangle(s) == 2 * s + (s - 1) * s);
        assert(2 * s + (s - 1) * s == s * (s + 1)) by (nonlinear_arith);
    }
}

/// The Cantor pairing of `a` and `b`.
pub open spec fn spec_cantor(a: int, b: int) -> int {
    spec_triangle(a + b) + a
}

/// Index of the diagonal that pair id `c` lies on.
pub open spec fn spec_diagonal(c: int) -> int {
    (sqrt_floor((8 * c + 1) as nat) - 1) / 2
}

/// First id recovered from pair id `c`.
pub open spec fn spec_uncantor_a(c: int) -> int {
    c - spec_triangle(spec_diagonal(c))
}

/// Second id recovered from pair id `c`.
pub open spec fn spec_uncantor_b(c: int) -> int {
    spec_diagonal(c) - spec_uncantor_a(c)
}

/// Pair identifier for ids `a` and `b`: the Cantor pairing
/// `triangle(a + b) + a`.
pub fn cantor(a: u64, b: u64) -> (c: u64)
    requires
        a <= ID_LIMIT,
        b <= ID_LIMIT,
    ensures
        c == spec_cantor(a as int, b as int),
{
    let s: u64 = a + b;
    proof {
        assert(s * (s + 1) <= 4_000_000_000u64 * 4_000_000_001u64) by (nonlinear_arith)
            requires
                s <= 4_000_000_000u64,
        ;
        lemma_triangle_double(s as int);
    }
    let prod: u64 = s * (s + 1);
    let t: u64 = prod / 2;
    proof {
        assert(prod / 2 == spec_triangle(s as int)) by (nonlinear_arith)
            requires
                prod == 2 * spec_triangle(s as int),
        ;
    }
    t + a
}

/// Decode a pair id: recover the unique `(a, b)` with
/// `spec_cantor(a, b) == c`.
pub fn inv_cantor(c: u64) -> (r: (u64, u64))
    ensures
        r.0 == spec_uncantor_a(c as int),
        r.1 == spec_uncantor_b(c as int),
        spec_cantor(r.0 as int, r.1 as int) == c,
{
    let m: u128 = 8 * (c as u128) + 1;
    let q: u64 = isqrt(m);
    proof {
        lemma_sqrt_floor_bounds(m as nat);
        assert(q >= 1) by (nonlinear_arith)
            requires
                m >= 1,
                m < (q + 1) * (q + 1),
                q >= 0,
        ;
    }
    let n: u64 = (q - 1) / 2;
    proof {
        lemma_triangle_double(n as int);
        // q is 2n + 1 or 2n + 2; square both ends of the sqrt bracket.
        assert(2 * n + 1 <= q && q <= 2 * n + 2);
        let cc = c as int;
        let nn = n as int;
        let tt = spec_triangle(nn);
        assert(tt <= cc && cc - tt <= nn) by (nonlinear_arith)
            requires
                2 * tt == nn * (nn + 1),
                q * q <= 8 * cc + 1,
                8 * cc + 1 < (q + 1) * (q + 1),
                2 * nn + 1 <= q <= 2 * nn + 2,
                0 <= nn,
                0 <= cc,
        ;
    }
    let prod: u128 = (n as u128) * (n as u128 + 1);
    proof {
        assert(prod == (n as int) * (n as int + 1));
        assert(prod / 2 == spec_triangle(n as int)) by (nonlinear_arith)
            requires
                prod == 2 * spec_triangle(n as int),
        ;
    }
    let t: u64 = (prod / 2) as u64;
    let a: u64 = c - t;
    let b: u64 = n - a;
    proof {
        assert(spec_diagonal(c as int) == n as int);
        assert(a + b == n as int);
        assert(spec_cantor(a as int, b as int) == c);
    }
    (a, b)
}

/// Encoding then decoding recovers exactly the ids that were encoded, for
/// any pair of non-negative ids.
pub proof fn lemma_cantor_roundtrip(a: int, b: int)
    requires
        0 <= a,
        0 <= b,
    ensures
        spec_uncantor_a(spec_cantor(a, b)) == a,
        spec_uncantor_b(spec_cantor(a, b)) == b,
{
    let s = a + b;
    let c = spec_cantor(a, b);
    lemma_triangle_double(s);
    let m = (8 * c + 1) as nat;
    lemma_sqrt_floor_bounds(m);
    let q = sqrt_floor(m) as int;
    assert(8 * c + 1 == 4 * (s * (s + 1)) + 8 * a + 1);
    // lower bracket: (2s+1)^2 <= 8c+1
    assert((2 * s + 1) * (2 * s + 1) <= 8 * c + 1) by (nonlinear_arith)
        requires
            8 * c + 1 == 4 * (s * (s + 1)) + 8 * a + 1,
            0 <= a,
    ;
    // upper bracket: 8c+1 < (2s+3)^2
    assert(8 * c + 1 < (2 * s + 3) * (2 * s + 3)) by (nonlinear_arith)
        requires
            8 * c + 1 == 4 * (s * (s + 1)) + 8 * a + 1,
            a <= s,
            0 <= s,
    ;
    if q < 2 * s + 1 {
        assert((q + 1) * (q + 1) <= (2 * s + 1) * (2 * s + 1)) by (nonlinear_arith)
            requires
                0 <= q + 1 <= 2 * s + 1,
        ;
        assert(false);
    }
    if q > 2 * s + 2 {
        assert((2 * s + 3) * (2 * s + 3) <= q * q) by (nonlinear_arith)
            requires
                0 <= 2 * s + 3 <= q,
        ;
        assert(false);
    }
    assert((q - 1) / 2 == s);
    assert(spec_diagonal(c) == s);
    assert(spec_uncantor_a(c) == a);
    assert(spec_uncantor_b(c) == b);
}

} // verus!
