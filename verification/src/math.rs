//! Row-major affine indexing and tile arithmetic.
//!
//! These spec functions give the meaning of the index expressions the
//! lowerer emits: `affine_sum` is the linearized offset of a
//! multi-dimensional position, `unravel` its inverse, and the tile lemmas
//! state that a split loop pair together with the partial-tile guard
//! visits every base-iterator value exactly once.

use vstd::prelude::*;
use vstd::arithmetic::div_mod::{lemma_fundamental_div_mod, lemma_remainder_lower, lemma_remainder_upper};
use vstd::arithmetic::mul::{lemma_mul_inequality, lemma_mul_strictly_positive};

verus! {

/// The product of a sequence of extents.
pub open spec fn prod_of(b: Seq<int>) -> int
    decreases b.len(),
{
    if b.len() == 0 {
        1
    } else {
        b[0] * prod_of(b.skip(1))
    }
}

/// All extents are positive.
pub open spec fn all_pos(b: Seq<int>) -> bool {
    forall|k: int| 0 <= k < b.len() ==> #[trigger] b[k] > 0
}

/// Each position is within its extent.
pub open spec fn in_bounds(x: Seq<int>, b: Seq<int>) -> bool {
    x.len() == b.len() && forall|k: int| 0 <= k < x.len() ==> 0 <= #[trigger] x[k] < b[k]
}

/// The row-major linear offset of position `x` in an array of extents
/// `b`: the sum over `k` of `x[k]` times the product of the extents
/// after `k`.
pub open spec fn affine_sum(x: Seq<int>, b: Seq<int>) -> int
    decreases x.len(),
{
    if x.len() == 0 {
        0
    } else {
        x[0] * prod_of(b.skip(1)) + affine_sum(x.skip(1), b.skip(1))
    }
}

/// The inverse of `affine_sum`: the position whose row-major offset in an
/// array of extents `b` is `i`.
pub open spec fn unravel(i: int, b: Seq<int>) -> Seq<int>
    decreases b.len(),
{
    if b.len() == 0 {
        Seq::empty()
    } else {
        let w = prod_of(b.skip(1));
        seq![i / w].add(unravel(i % w, b.skip(1)))
    }
}

/// A product of positive extents is positive.
pub proof fn lemma_prod_pos(b: Seq<int>)
    requires
        all_pos(b),
    ensures
        prod_of(b) > 0,
    decreases b.len(),
{
    if b.len() > 0 {
        assert(all_pos(b.skip(1)));
        lemma_prod_pos(b.skip(1));
        lemma_mul_strictly_positive(b[0], prod_of(b.skip(1)));
    }
}

/// The affine offset of an in-bounds position is in `[0, prod_of(b))`.
pub proof fn lemma_affine_sum_bounds(x: Seq<int>, b: Seq<int>)
    requires
        in_bounds(x, b),
        all_pos(b),
    ensures
        0 <= affine_sum(x, b) < prod_of(b),
    decreases x.len(),
{
    if x.len() == 0 {
    } else {
        let bt = b.skip(1);
        let w = prod_of(bt);
        assert(in_bounds(x.skip(1), bt));
        assert(all_pos(bt));
        lemma_affine_sum_bounds(x.skip(1), bt);
        lemma_prod_pos(bt);
        // x[0] * w <= (b[0] - 1) * w, so the whole sum stays below b[0] * w.
        lemma_mul_inequality(x[0], b[0] - 1, w);
        assert((b[0] - 1) * w == b[0] * w - w) by (nonlinear_arith);
        assert(x[0] * w >= 0) by (nonlinear_arith)
            requires x[0] >= 0 && w > 0;
    }
}

/// Unraveling an in-range offset yields an in-bounds position whose
/// affine offset is the original value: `affine_sum` after `unravel` is
/// the identity on `[0, prod_of(b))`.
pub proof fn lemma_affine_unravel_id(i: int, b: Seq<int>)
    requires
        all_pos(b),
        0 <= i < prod_of(b),
    ensures
        in_bounds(unravel(i, b), b),
        affine_sum(unravel(i, b), b) == i,
    decreases b.len(),
{
    if b.len() == 0 {
        assert(unravel(i, b) =~= Seq::<int>::empty());
    } else {
        let bt = b.skip(1);
        let w = prod_of(bt);
        assert(all_pos(bt));
        lemma_prod_pos(bt);
        let q = i / w;
        let r = i % w;
        lemma_fundamental_div_mod(i, w);
        lemma_remainder_lower(i, w);
        lemma_remainder_upper(i, w);
        assert(0 <= r < w);
        assert(i == w * q + r);
        assert(q >= 0) by (nonlinear_arith)
            requires w * q + r >= 0 && 0 <= r < w;
        // q < b[0], else i = w * q + r >= w * b[0] = prod_of(b).
        if q >= b[0] {
            lemma_mul_inequality(b[0], q, w);
            assert(w * q == q * w);
            assert(b[0] * w == w * b[0]);
            assert(false);
        }
        lemma_affine_unravel_id(r, bt);
        let u = unravel(i, b);
        assert(u == seq![q].add(unravel(r, bt)));
        assert(u.skip(1) =~= unravel(r, bt));
        assert(u[0] == q);
        assert(in_bounds(u, b));
        assert(affine_sum(u, b) == q * w + affine_sum(unravel(r, bt), bt));
        assert(q * w == w * q);
    }
}

/// The affine offset of an in-bounds position unravels back to that
/// position: `unravel` after `affine_sum` is the identity.
pub proof fn lemma_unravel_affine_id(x: Seq<int>, b: Seq<int>)
    requires
        in_bounds(x, b),
        all_pos(b),
    ensures
        unravel(affine_sum(x, b), b) =~= x,
    decreases b.len(),
{
    if b.len() == 0 {
    } else {
        let bt = b.skip(1);
        let w = prod_of(bt);
        assert(in_bounds(x.skip(1), bt));
        assert(all_pos(bt));
        lemma_prod_pos(bt);
        let rest = affine_sum(x.skip(1), bt);
        lemma_affine_sum_bounds(x.skip(1), bt);
        let s = affine_sum(x, b);
        assert(s == x[0] * w + rest);
        // s / w == x[0] and s % w == rest, by uniqueness of division.
        assert(s == w * x[0] + rest) by (nonlinear_arith)
            requires s == x[0] * w + rest;
        lemma_fundamental_div_mod(s, w);
        lemma_remainder_lower(s, w);
        lemma_remainder_upper(s, w);
        let q = s / w;
        let r = s % w;
        assert(w * q + r == w * x[0] + rest);
        assert(q == x[0] && r == rest) by (nonlinear_arith)
            requires
                w * q + r == w * x[0] + rest,
                0 <= r < w,
                0 <= rest < w,
        ;
        lemma_unravel_affine_id(x.skip(1), bt);
        assert(unravel(s, b) == seq![q].add(unravel(r, bt)));
        assert(unravel(s, b) =~= x) by {
            assert(unravel(r, bt) =~= x.skip(1));
            assert(seq![x[0]].add(x.skip(1)) =~= x);
        }
    }
}

/// The number of outer-tile iterations: `bound` divided by the tile
/// width, rounded up.
pub open spec fn ceil_div(n: int, w: int) -> int {
    (n + w - 1) / w
}

/// A value of a split axis is reconstructed from its outer iterator `t`
/// and inner iterator `s` as `t * f + s`.  Every reconstructed value that
/// passes the partial-tile guard is a distinct base-iterator value, and
/// every base-iterator value in `[0, n)` arises from exactly one `(t, s)`
/// pair: reconstruction plus the guard is a bijection onto the valid
/// range.
pub proof fn lemma_tile_cover(n: int, f: int)
    requires
        n > 0,
        f > 0,
    ensures
        // every pair in range that passes the guard lands in [0, n)
        forall|t: int, s: int|
            0 <= t < ceil_div(n, f) && 0 <= s < f && #[trigger] (t * f + s) < n ==> 0 <= t * f + s,
        // onto: every base value is hit by its quotient and remainder
        forall|v: int| 0 <= v < n ==>
            0 <= #[trigger] (v / f) < ceil_div(n, f) && 0 <= v % f < f
            && (v / f) * f + (v % f) == v,
        // one-to-one: distinct pairs reconstruct distinct values
        forall|t1: int, s1: int, t2: int, s2: int|
            0 <= s1 < f && 0 <= s2 < f && #[trigger] (t1 * f + s1) == #[trigger] (t2 * f + s2)
            ==> t1 == t2 && s1 == s2,
{
    assert forall|t: int, s: int|
        0 <= t < ceil_div(n, f) && 0 <= s < f && #[trigger] (t * f + s) < n implies 0 <= t * f + s by {
        assert(t * f >= 0) by (nonlinear_arith)
            requires t >= 0 && f > 0;
    }
    assert forall|v: int| 0 <= v < n implies
        0 <= #[trigger] (v / f) < ceil_div(n, f) && 0 <= v % f < f
        && (v / f) * f + (v % f) == v by {
        lemma_fundamental_div_mod(v, f);
        lemma_remainder_lower(v, f);
        lemma_remainder_upper(v, f);
        assert(v == f * (v / f) + v % f);
        assert(v / f >= 0) by (nonlinear_arith)
            requires f * (v / f) + v % f >= 0 && 0 <= v % f < f;
        assert((v / f) * f == f * (v / f)) by (nonlinear_arith);
        // v / f < ceil_div(n, f): compare the two quotients directly.
        let q = v / f;
        let c = ceil_div(n, f);
        lemma_fundamental_div_mod(n + f - 1, f);
        lemma_remainder_lower(n + f - 1, f);
        lemma_remainder_upper(n + f - 1, f);
        assert(q < c) by (nonlinear_arith)
            requires
                v == f * q + v % f,
                0 <= v % f < f,
                v < n,
                n + f - 1 == f * c + (n + f - 1) % f,
                0 <= (n + f - 1) % f < f,
                f > 0,
        ;
    }
    assert forall|t1: int, s1: int, t2: int, s2: int|
        0 <= s1 < f && 0 <= s2 < f && #[trigger] (t1 * f + s1) == #[trigger] (t2 * f + s2)
        implies t1 == t2 && s1 == s2 by {
        assert(t1 == t2 && s1 == s2) by (nonlinear_arith)
            requires
                0 <= s1 < f,
                0 <= s2 < f,
                t1 * f + s1 == t2 * f + s2,
        ;
    }
}

} // verus!
